//! Grid and raster algorithms for a tile-based room builder.
//!
//! Three independent components share a small layer of integer grid
//! utilities:
//!
//! * a raster-to-mesh compiler that turns an alpha-channel solidity mask
//!   into welded vertex/UV/index buffers plus a flat-shaded variant
//!   ([`mesh`]);
//! * a collider region merger that finds same-color 4-connected components
//!   of a color mask and emits one bounding rectangle per component
//!   ([`collider`]);
//! * a connectivity validator that classifies a grid from wall/water/door
//!   snapshots and runs a bounded breadth-first search from a seed cell
//!   ([`validate`]).
//!
//! All three work on exact integer coordinates; conversion to world-space
//! floating point (and image decoding) is left to the embedding
//! application.

pub mod grid;
pub mod mask;
pub mod mesh;
pub mod collider;
pub mod validate;
