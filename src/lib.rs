//! Decoding and encoding of GCT textures: a header with the image size,
//! then 4x4 blocks of 5-6-5 colours with 2-bit palette indices, stored in
//! 8x8 macro-tiles.
use vstd::prelude::*;

pub mod colour;
pub mod tile;
pub mod raster;
pub mod decode;
pub mod encode;
pub mod round_trip;

verus! {

} // verus!
