//! A small software rasteriser, verified with Verus.
//!
//! - [`image`]: colours, pixel formats and the packed pixel buffer;
//!   [`pixels`] holds the laws of reading, writing and mirroring it.
//! - [`tga`] and [`rle`]: the TGA file format as bytes, with run-length
//!   packets, and the proof that reading gives back what was written.
//! - [`line`] and [`draw`]: integer lines, horizontal runs and filled
//!   triangles; [`painted`] says which pixels each of them touches, and
//!   proves that triangles on the two sides of an edge share no pixel and
//!   leave none out.
//! - [`depth`]: the depth buffer, and the proof that the nearer of two
//!   surfaces shows whichever is drawn first.
//! - [`vec`]: small vectors whose lane arithmetic is that of `vecmath`.
//! - [`model`]: the faces of a mesh file.

pub mod depth;
pub mod draw;
pub mod image;
pub mod line;
pub mod model;
pub mod painted;
pub mod pixels;
pub mod rle;
pub mod tga;
pub mod vec;
