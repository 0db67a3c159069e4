//! A grid ray caster: a first-person camera inside a maze of character cells,
//! rendered into a packed-RGB framebuffer either as textured wall slices or as
//! a top-down map.
//!
//! All geometry is done in integers. Positions and ray directions are
//! fixed-point numbers with sixteen fractional bits, distances are whole world
//! units, and every formula is evaluated exactly and rounded toward zero once,
//! at the point where a pixel or a cell index is needed.

pub mod color;
pub mod framebuffer;
pub mod player;
pub mod maze;
pub mod cast_ray;
pub mod wall_distance;
pub mod texture;
pub mod projection;
pub mod topdown;
pub mod minimap;
pub mod hud;
pub mod bmp;
pub mod events;
pub mod line_impl;
pub mod polygon_impl;
