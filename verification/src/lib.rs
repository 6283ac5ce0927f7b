//! A 2D gravitational sandbox simulation core.
//!
//! Circular bodies attract one another under Newtonian gravity, move under
//! their accumulated force, and merge on collision with conserved mass and
//! momentum. Each simulation tick runs a fixed pipeline of passes: gravity
//! accumulation, force integration, motion, collision detection, collision
//! resolution, and body spawning. Structural changes (creating or deleting
//! bodies) are buffered as events and applied only at their designated pass,
//! so no pass ever observes a partially updated body set.
//!
//! All quantities are fixed-point integers; see [`num`] for the scalar model.

pub mod components;
pub mod entities;
pub mod events;
pub mod laws;
pub mod num;
pub mod resources;
pub mod systems;
pub mod tools;
pub mod world;
