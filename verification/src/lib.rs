//! A grid raycaster in fixed-point arithmetic: ray marching over a maze of
//! cells, the player's movement with collision, and the projection of hit
//! distances to wall spans on a pixel surface.
//!
//! Lengths and angles are integers counted in millionths (see [`fixed`]).
//! Trigonometry stays with the caller: every operation that follows a
//! heading takes the heading's unit vector as a [`fixed::Direction`].

pub mod fixed;
pub mod maze;
pub mod player;
pub mod caster;
pub mod framebuffer;
pub mod projection;
pub mod render;
pub mod font;
pub mod polygon;
