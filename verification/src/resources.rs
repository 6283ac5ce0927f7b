//! Shared state the input translator reads and writes.

use vstd::prelude::*;
use crate::components::Vec2;

verus! {

/// The translator's memory of an in-progress spawn gesture: where the
/// press happened, and whether the button is currently held.
#[derive(Clone, Copy, Debug)]
pub struct MouseInfo {
    pub click_pos: Option<Vec2>,
    pub is_down: bool,
}

impl Default for MouseInfo {
    /// No gesture in progress.
    fn default() -> (m: MouseInfo)
        ensures
            m.click_pos is None,
            !m.is_down,
    {
        MouseInfo { click_pos: None, is_down: false }
    }
}

/// A snapshot of the input the translator reads in one tick: whether the
/// spawn action is held, the pointer's position in world coordinates, and
/// the configured size axis in fixed-point length units.
#[derive(Clone, Copy, Debug)]
pub struct InputState {
    pub add_planet_down: bool,
    pub mouse_position: Option<Vec2>,
    pub planet_size: i64,
}

} // verus!
