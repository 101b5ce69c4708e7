//! A Rapidly-exploring Random Tree (RRT) path planner over a discretized
//! occupancy map, in 2D and 3D variants.
//!
//! Positions are fixed-point: every coordinate component is an `i64`, and a
//! map decides how many coordinate units make up one grid cell. All geometry
//! is exact integer arithmetic; distances are compared as squared distances,
//! so no square root of a length is ever taken on a coordinate.

pub mod num;
pub mod readmap;
pub mod readmap3d;
pub mod rrt;
pub mod rrt3d;
mod sampling;
pub mod structs;
pub mod structs3d;
