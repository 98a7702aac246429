//! Content type tags of the session header.

use vstd::prelude::*;

verus! {

pub const BINARY: u8 = 0;

pub const TEXT: u8 = 1;

pub const IMAGE_AVIF: u8 = 2;

pub const IMAGE_JPEG: u8 = 3;

pub const IMAGE_PNG: u8 = 4;

} // verus!
