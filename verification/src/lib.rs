//! Turns a race-track centerline taken from map data into a printable 3D
//! solid: it resolves the track's relation into ordered point sequences,
//! projects the latitude/longitude pairs onto a uniformly scaled plane,
//! optionally attaches elevation samples fetched in bounded batches, extrudes
//! the polyline into a closed ribbon of quadrilateral wall panels, and renders
//! the result as a text model.
//!
//! All geometry is carried in fixed-point integers with a scale of one
//! million, so every stage of the pipeline is verified end to end.

pub mod elements;
pub mod error;
pub mod fixed;
pub mod heights;
pub mod extrude;
pub mod mesh;
pub mod project;
pub mod render;
pub mod resolve;
