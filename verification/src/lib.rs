//! Collision geometry core for a 2D sprite game.
//!
//! The library extracts a convex silhouette from a sprite's alpha mask,
//! derives per-entity collision data (rotated hull, axis-aligned hitbox,
//! edge normals, coarse range), and detects intersections between two sets
//! of entities with a uniform spatial grid followed by a separating-axis
//! polygon test.
//!
//! World space is the unit square. All world coordinates are held in a
//! fixed-point representation: an `i64` counts millionths of a world unit
//! (`FX_ONE`), so every geometric computation here is exact integer
//! arithmetic. Callers that work in floating point convert once at the
//! boundary.

pub mod collision;
pub mod convex;
pub mod pixels;
pub mod scene;
pub mod sprites_data;
pub mod util;
