use vstd::prelude::*;

verus! {

/// The closed set of failures that the codec surfaces to its callers.
///
/// Every fallible operation of the crate reports one of these kinds; none
/// is recovered internally.
#[derive(Clone, Copy, Debug, PartialEq, Eq, Structural)]
pub enum CodecError {
    /// The QOI header magic or the PPM `P6` magic did not match.
    BadMagic,
    /// A header field is out of range: QOI `channels` outside `{3, 4}`,
    /// QOI `colorspace` outside `{0, 1}`, or a PPM header field that is
    /// missing, too large, or a `maxval` other than 255.
    BadHeaderField,
    /// The input ended inside a chunk, a header, or a body.
    TruncatedStream,
    /// The QOI end marker was absent or incorrect.
    BadEndMarker,
    /// The chunk stream ended before `width * height` pixels were produced.
    TruncatedRaster,
    /// A single `Run` chunk would drive the pixel count past `width * height`.
    OverrunRaster,
    /// A raster byte length does not equal `4 * width * height`.
    MalformedRaster,
    /// The external PNG decoder returned a color model the crate does not adapt.
    UnsupportedPngColor,
}

} // verus!
