//! A small point-cloud library: 3D integer-coordinate vectors, an ordered
//! point collection loaded from delimited text, and two spatial queries
//! (axis-aligned bounding box, closed-box filtering).

pub mod cloud;
pub mod parse;
pub mod vector;

pub use cloud::ParseError;
pub use cloud::PointCloud;
pub use vector::Vector3;
