use crate::error::CodecError;
use crate::util::be32_spec;
use crate::util::from_be32_spec;
use crate::util::push_be32;
use crate::util::read_be32;
use crate::util::ByteStream;
use crate::util::TakeArray;
use crate::util::TakeVec;
use vstd::prelude::*;

verus! {

/// A decoded image: width, height, and row-major RGBA bytes, four bytes
/// `(R, G, B, A)` per pixel.
pub struct RawImage(pub u32, pub u32, pub Vec<u8>);

/// The framed byte form of a raster on a byte pipe: big-endian width,
/// big-endian height, then the RGBA bytes.
pub open spec fn raster_bytes_spec(w: u32, h: u32, data: Seq<u8>) -> Seq<u8> {
    be32_spec(w) + be32_spec(h) + data
}

/// What deserializing a framed raster yields: the dimensions and RGBA
/// bytes, or `MalformedRaster` when the trailing byte count does not
/// equal `4 * width * height`.
pub open spec fn raster_from_bytes_spec(bytes: Seq<u8>) -> Result<(u32, u32, Seq<u8>), CodecError> {
    if bytes.len() < 8 {
        Err(CodecError::MalformedRaster)
    } else {
        let w = from_be32_spec(bytes[0], bytes[1], bytes[2], bytes[3]);
        let h = from_be32_spec(bytes[4], bytes[5], bytes[6], bytes[7]);
        if bytes.len() - 8 == 4 * (w as int) * (h as int) {
            Ok((w, h, bytes.skip(8)))
        } else {
            Err(CodecError::MalformedRaster)
        }
    }
}

impl RawImage {
    /// The raster invariant: the byte length equals `4 * width * height`.
    pub open spec fn wf(&self) -> bool {
        self.2@.len() == 4 * (self.0 as int) * (self.1 as int)
    }

    /// Serialize for a byte pipe: big-endian width, big-endian height,
    /// then the RGBA bytes.
    pub fn to_bytes(&self) -> (r: Vec<u8>)
        ensures
            r@ == raster_bytes_spec(self.0, self.1, self.2@),
    {
        let mut bytes: Vec<u8> = Vec::new();
        push_be32(&mut bytes, self.0);
        push_be32(&mut bytes, self.1);
        let mut k: usize = 0;
        while k < self.2.len()
            invariant
                k <= self.2@.len(),
                bytes@ == be32_spec(self.0) + be32_spec(self.1) + self.2@.take(k as int),
            decreases self.2@.len() - k,
        {
            bytes.push(self.2[k]);
            assert(bytes@ =~= be32_spec(self.0) + be32_spec(self.1) + self.2@.take(k + 1));
            k = k + 1;
        }
        assert(bytes@ =~= raster_bytes_spec(self.0, self.1, self.2@));
        bytes
    }

    /// Deserialize a framed raster, checking the length invariant.
    pub fn from_bytes(bytes: &[u8]) -> (r: Result<RawImage, CodecError>)
        ensures
            (match raster_from_bytes_spec(bytes@) {
                Ok(t) => r matches Ok(img) && img.0 == t.0 && img.1 == t.1 && img.2@ == t.2
                    && img.wf(),
                Err(e) => r matches Err(e2) && e2 == e,
            }),
    {
        let mut s = ByteStream::new(bytes);
        let w_bytes = match s.take_array(4) {
            Some(v) => v,
            None => {
                return Err(CodecError::MalformedRaster);
            },
        };
        let h_bytes = match s.take_array(4) {
            Some(v) => v,
            None => {
                return Err(CodecError::MalformedRaster);
            },
        };
        let width = read_be32(w_bytes.as_slice(), 0);
        let height = read_be32(h_bytes.as_slice(), 0);
        assert(s.remaining() =~= bytes@.skip(8));
        let rest = bytes.len() - 8;
        let data = s.take_vec(rest);
        assert(data@ =~= bytes@.skip(8));
        proof {
            assert((width as int) * (height as int) <= 0xFFFF_FFFF * 0xFFFF_FFFF)
                by (nonlinear_arith)
                requires
                    width <= 0xFFFF_FFFFu32,
                    height <= 0xFFFF_FFFFu32,
            ;
        }
        let px: u64 = (width as u64) * (height as u64);
        let expected: u128 = 4u128 * (px as u128);
        proof {
            assert(4 * (width as int) * (height as int) == 4 * ((width as int) * (height
            as int))) by (nonlinear_arith);
        }
        if (data.len() as u128) != expected {
            return Err(CodecError::MalformedRaster);
        }
        Ok(RawImage(width, height, data))
    }
}

/// RGB bytes expanded to RGBA by appending an opaque alpha to each pixel.
pub open spec fn rgb_to_rgba_spec(rgb: Seq<u8>) -> Seq<u8>
    decreases rgb.len(),
{
    if rgb.len() < 3 {
        Seq::empty()
    } else {
        let n = rgb.len() as int;
        rgb_to_rgba_spec(rgb.take(n - 3)) + seq![rgb[n - 3], rgb[n - 2], rgb[n - 1], 255u8]
    }
}

/// Grayscale bytes expanded to RGBA by broadcasting the gray channel.
pub open spec fn gray_to_rgba_spec(gray: Seq<u8>) -> Seq<u8>
    decreases gray.len(),
{
    if gray.len() < 1 {
        Seq::empty()
    } else {
        let n = gray.len() as int;
        gray_to_rgba_spec(gray.take(n - 1)) + seq![gray[n - 1], gray[n - 1], gray[n - 1], 255u8]
    }
}

/// Gray+alpha byte pairs expanded to RGBA by broadcasting the gray channel.
pub open spec fn gray_alpha_to_rgba_spec(ga: Seq<u8>) -> Seq<u8>
    decreases ga.len(),
{
    if ga.len() < 2 {
        Seq::empty()
    } else {
        let n = ga.len() as int;
        gray_alpha_to_rgba_spec(ga.take(n - 2)) + seq![ga[n - 2], ga[n - 2], ga[n - 2], ga[n - 1]]
    }
}

/// RGBA bytes narrowed to RGB by dropping each pixel's alpha.
pub open spec fn rgba_to_rgb_spec(rgba: Seq<u8>) -> Seq<u8>
    decreases rgba.len(),
{
    if rgba.len() < 4 {
        Seq::empty()
    } else {
        let n = rgba.len() as int;
        rgba_to_rgb_spec(rgba.take(n - 4)) + seq![rgba[n - 4], rgba[n - 3], rgba[n - 2]]
    }
}

/// Append an opaque alpha to every RGB pixel.
pub fn rgb_to_rgba(rgb: &[u8]) -> (r: Vec<u8>)
    requires
        rgb@.len() % 3 == 0,
    ensures
        r@ == rgb_to_rgba_spec(rgb@),
        r@.len() == rgb@.len() / 3 * 4,
{
    let mut out: Vec<u8> = Vec::new();
    let mut k: usize = 0;
    while rgb.len() - k >= 3
        invariant
            k <= rgb@.len(),
            k % 3 == 0,
            out@ == rgb_to_rgba_spec(rgb@.take(k as int)),
            out@.len() == k / 3 * 4,
        decreases rgb@.len() - k,
    {
        out.push(rgb[k]);
        out.push(rgb[k + 1]);
        out.push(rgb[k + 2]);
        out.push(255);
        proof {
            let pre = rgb@.take(k as int);
            let post = rgb@.take(k + 3);
            assert(post.take(k as int) =~= pre);
            assert(out@ =~= rgb_to_rgba_spec(post));
        }
        k = k + 3;
    }
    proof {
        assert(rgb@.take(rgb@.len() as int) =~= rgb@);
    }
    out
}

/// Broadcast every gray byte to an opaque RGBA pixel.
pub fn gray_to_rgba(gray: &[u8]) -> (r: Vec<u8>)
    ensures
        r@ == gray_to_rgba_spec(gray@),
        r@.len() == gray@.len() * 4,
{
    let mut out: Vec<u8> = Vec::new();
    let mut k: usize = 0;
    while k < gray.len()
        invariant
            k <= gray@.len(),
            out@ == gray_to_rgba_spec(gray@.take(k as int)),
            out@.len() == k * 4,
        decreases gray@.len() - k,
    {
        let g = gray[k];
        out.push(g);
        out.push(g);
        out.push(g);
        out.push(255);
        proof {
            let post = gray@.take(k + 1);
            assert(post.take(k as int) =~= gray@.take(k as int));
            assert(out@ =~= gray_to_rgba_spec(post));
        }
        k = k + 1;
    }
    proof {
        assert(gray@.take(gray@.len() as int) =~= gray@);
    }
    out
}

/// Broadcast every gray+alpha pair to an RGBA pixel.
pub fn gray_alpha_to_rgba(ga: &[u8]) -> (r: Vec<u8>)
    requires
        ga@.len() % 2 == 0,
    ensures
        r@ == gray_alpha_to_rgba_spec(ga@),
        r@.len() == ga@.len() / 2 * 4,
{
    let mut out: Vec<u8> = Vec::new();
    let mut k: usize = 0;
    while ga.len() - k >= 2
        invariant
            k <= ga@.len(),
            k % 2 == 0,
            out@ == gray_alpha_to_rgba_spec(ga@.take(k as int)),
            out@.len() == k / 2 * 4,
        decreases ga@.len() - k,
    {
        let g = ga[k];
        out.push(g);
        out.push(g);
        out.push(g);
        out.push(ga[k + 1]);
        proof {
            let post = ga@.take(k + 2);
            assert(post.take(k as int) =~= ga@.take(k as int));
            assert(out@ =~= gray_alpha_to_rgba_spec(post));
        }
        k = k + 2;
    }
    proof {
        assert(ga@.take(ga@.len() as int) =~= ga@);
    }
    out
}

/// Drop the alpha byte of every RGBA pixel.
pub fn rgba_to_rgb(rgba: &[u8]) -> (r: Vec<u8>)
    requires
        rgba@.len() % 4 == 0,
    ensures
        r@ == rgba_to_rgb_spec(rgba@),
        r@.len() == rgba@.len() / 4 * 3,
{
    let mut out: Vec<u8> = Vec::new();
    let mut k: usize = 0;
    while rgba.len() - k >= 4
        invariant
            k <= rgba@.len(),
            k % 4 == 0,
            out@ == rgba_to_rgb_spec(rgba@.take(k as int)),
            out@.len() == k / 4 * 3,
        decreases rgba@.len() - k,
    {
        out.push(rgba[k]);
        out.push(rgba[k + 1]);
        out.push(rgba[k + 2]);
        proof {
            let post = rgba@.take(k + 4);
            assert(post.take(k as int) =~= rgba@.take(k as int));
            assert(out@ =~= rgba_to_rgb_spec(post));
        }
        k = k + 4;
    }
    proof {
        assert(rgba@.take(rgba@.len() as int) =~= rgba@);
    }
    out
}

} // verus!
