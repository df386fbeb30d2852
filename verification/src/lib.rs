//! Texture-atlas packing library.
//!
//! Packs a set of independently sized raster images into one larger canvas,
//! optionally subdividing placed images into animation frames, and composites
//! the source pixels into a single RGBA buffer. All placement, slicing and
//! compositing logic is verified; directory walking, image decoding/encoding
//! and metadata parsing are left to the surrounding application.

pub mod cli;
pub mod compositor;
pub mod definitions;
pub mod packer;
pub mod placer;
pub mod session;
pub mod slicer;

use vstd::prelude::*;

verus! {

} // verus!
