//! Spherical mesh tiling library.
//!
//! Partitions the globe into a rectangular tile grid, clips geographic
//! polygons against that grid, and turns polygon fragments into triangulated
//! 3D meshes on the unit sphere.  All coordinates are fixed-point integers:
//! one degree (or one unit of length, or one radian) is `SCALE` units, so
//! every geometric step is exact integer arithmetic with verified contracts.

mod coords;
mod geometry;
mod mesh_generator;
mod trig;
mod tile;
mod errors;
mod fibonacci;
mod fixed;

pub use tile::{clamp_polygons, generate_grid, store_clipped_fragment, validate_clip_polygon, Tile, DEFAULT_MAX_DISTANCE_BETWEEN_POINTS};
pub use coords::{Cartesian3, GeoCoordinate, PlanarPoint, Polygon, SphericalPoint};
pub use fibonacci::fibonacci_sphere;
pub use mesh_generator::{assemble_mesh_data, build_constraint_edges, get_mesh_points, prepare_triangulation, ConstraintEdge, PolygonMeshData, DEFAULT_FIBONACCI_POINT_COUNT};
pub use errors::GeoTilerError;
pub use geometry::{densify_edges, ll_to_cartesian, rotate_points_to_south_pole, stereographic_projection};
pub use fixed::SCALE;
