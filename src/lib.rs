//! A software rasterizer on saturating fixed-point arithmetic.
//!
//! Meshes are moved by a 4x4 matrix (an affine pipeline: the homogeneous
//! coordinate is dropped, not divided through), mapped from a clip square onto
//! the display, culled when they wind clockwise and filled row by row, each row
//! passing through a depth test that keeps the larger depth.
//!
//! - `fixed`: scalars, their saturating arithmetic and interpolation.
//! - `point`: 2-, 3- and 4-vectors, vertices and the display mapping.
//! - `matrix`: 4x4 matrices, composition, translation and rotation.
//! - `model`: indexed triangle meshes.
//! - `obj`: reading meshes from the text of an object file.
//! - `frame`: the buffers as a mathematical object and the laws of the depth test.
//! - `graphics`: the buffers and the rasterizer.
pub mod fixed;
pub mod point;
pub mod matrix;
pub mod model;
pub mod obj;
pub mod frame;
pub mod graphics;
