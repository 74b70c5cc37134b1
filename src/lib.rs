//! Readers for the ASCII mesh and field files of a finite-volume case
//! directory, and the cell topology built from them.

pub mod boundary;
pub mod error;
pub mod field;
pub mod lists;
pub mod mesh;
pub mod number;
pub mod text;
pub mod topology;

pub use boundary::{parse_boundary, Boundary, BoundaryMap};
pub use error::FoamError;
pub use field::{
    parse_internal_field, parse_internal_field_data_nonuniform, parse_internal_field_data_uniform,
    parse_vals_from_brackets,
};
pub use lists::{parse_faces, parse_points, parse_scalars, parse_signed_scalars};
pub use mesh::FoamMesh;
pub use number::{parse_i64, parse_usize};
pub use topology::{build_topology, Topology};
