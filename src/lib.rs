//! Image formats whose pixel streams are encoded and decoded one pixel at a time.
use vstd::prelude::*;

pub mod model;
pub mod laws;
pub mod qoi;

use crate::model::Pixel;

verus! {

/// An image format whose pixels stream through a codec one at a time.
pub trait Format: Default {
    /// What the format's header holds.
    type Header;

    /// The pixels of one decoding pass, pulled one at a time.
    type Pixels;

    /// Reads a header from the start of `data` and returns it with the pass
    /// over the pixels that follow, or `None` where the header is invalid.
    fn decode(self, data: &[u8]) -> Option<(Self::Header, Self::Pixels)>;

    /// Appends to `out` the stream for `header` and the pixels `data`.
    fn encode(self, data: &[Pixel], header: Self::Header, out: &mut Vec<u8>);
}

} // verus!
