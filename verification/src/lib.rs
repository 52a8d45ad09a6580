//! Lithophane meshing: a raster image becomes a solid whose local thickness
//! follows pixel brightness, and the solid is written as a binary STL file.
//!
//! Coordinates are single-precision numbers. This crate never does arithmetic
//! on them: it carries each one as its IEEE 754 bit pattern in a `u32`, moves
//! it to the right place in the mesh, and serialises it. The three numeric
//! formulas (pixel position to millimetres, pixel colour to depth, and the
//! facet normal) are supplied by the caller as functions on bit patterns.

pub mod convert;
pub mod error;
pub mod geometry;
pub mod heightfield;
pub mod mesh;
pub mod raster;
pub mod seams;
pub mod stl;
