//! Signed distance fields on an integer lattice: closed-form primitives (sphere,
//! round cone, frustum cone), constructive solid geometry over them, objects that
//! pair a field with a material, a bounding volume hierarchy over objects, and
//! scenes answering "what color is at this point" queries.
//!
//! Coordinates and radii are integers bounded by `vec3::COORD_MAX`; square roots
//! and divisions round down; surface parameters are fractions of `vec3::FRAC_ONE`.

pub mod accelerator;
pub mod frustum_cone;
pub mod material;
pub mod object;
pub mod round_cone;
pub mod scene;
pub mod sdf;
pub mod solid_geometry;
pub mod vec3;
