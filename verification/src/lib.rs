//! A CPU path tracer whose arithmetic, geometry and sampling pipeline are
//! verified. Scalars are IEEE 754 binary32 values held as bit patterns and
//! computed with integer arithmetic, so every result is stated exactly.

pub mod rounding;
pub mod scalar;
pub mod arithmetic;
pub mod root;
pub mod convert;
pub mod accuracy;
pub mod algebra;
pub mod vector;
pub mod unit_length;
pub mod geometry;
pub mod sampler;
pub mod materials;
pub mod scene;
pub mod tracer;
pub mod sky;
pub mod pipeline;
