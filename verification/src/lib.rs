//! A Goldberg-polyhedron grid of the sphere in fixed-point arithmetic:
//! lattice sampling of the icosahedron's faces, merging of coincident
//! samples, neighbour discovery and ordering, land classification against
//! polygon data, and shortest paths between cells.

pub mod geometry;
pub mod lattice;
pub mod icosahedron;
pub mod spatial;
pub mod sorting;
pub mod neighbors;
pub mod cell;
pub mod grid;
pub mod land;
pub mod path;

pub use cell::{Cell, CellType, GridError};
pub use geometry::Point3;
pub use grid::generate_goldberg;
pub use land::{is_in_rings, is_land, point_in_polygon, GeoJson, GeoPoint};
pub use path::find_path;
pub use spatial::Tolerances;
