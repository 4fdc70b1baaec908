use crate::error::CodecError;
use crate::img::rgb_to_rgba;
use crate::img::rgb_to_rgba_spec;
use crate::img::rgba_to_rgb;
use crate::img::rgba_to_rgb_spec;
use crate::img::RawImage;
use vstd::prelude::*;
use vstd::slice::slice_subrange;

verus! {

// ------------------------------------------------------------------
// Header scanning
// ------------------------------------------------------------------

/// ASCII whitespace as `u8::is_ascii_whitespace` defines it.
pub open spec fn is_ws(b: u8) -> bool {
    b == 32 || b == 9 || b == 10 || b == 12 || b == 13
}

/// An ASCII decimal digit.
pub open spec fn is_digit(b: u8) -> bool {
    48 <= b <= 57
}

/// The first position at or after `i` holding a non-whitespace byte, or
/// the end of the input.
pub open spec fn skip_ws(bytes: Seq<u8>, i: int) -> int
    decreases bytes.len() - i,
{
    if i < 0 || i >= bytes.len() {
        bytes.len() as int
    } else if is_ws(bytes[i]) {
        skip_ws(bytes, i + 1)
    } else {
        i
    }
}

/// The position after any `#`-prefixed comment lines starting at `i`;
/// `in_line` records whether a comment line is still open.
pub open spec fn skip_comments(bytes: Seq<u8>, i: int, in_line: bool) -> int
    decreases bytes.len() - i,
{
    if i < 0 || i >= bytes.len() {
        bytes.len() as int
    } else if in_line {
        if bytes[i] == 10 {
            skip_comments(bytes, i + 1, false)
        } else {
            skip_comments(bytes, i + 1, true)
        }
    } else if bytes[i] == 35 {
        skip_comments(bytes, i + 1, true)
    } else {
        i
    }
}

/// The decimal value of the digits at `i` accumulated onto `acc`, and
/// the position just past them.
pub open spec fn parse_dec(bytes: Seq<u8>, i: int, acc: int) -> (int, int)
    decreases bytes.len() - i,
{
    if i < 0 || i >= bytes.len() || !is_digit(bytes[i]) {
        (acc, i)
    } else {
        parse_dec(bytes, i + 1, acc * 10 + (bytes[i] - 48))
    }
}

/// One header field: leading whitespace, then at least one digit, with
/// a value that fits 32 bits.  The input ending first is
/// `TruncatedStream`; a missing digit or an oversized value is
/// `BadHeaderField`.
pub open spec fn spec_read_field(bytes: Seq<u8>, pos: int) -> Result<(u32, int), CodecError> {
    let i = skip_ws(bytes, pos);
    if i >= bytes.len() {
        Err(CodecError::TruncatedStream)
    } else if !is_digit(bytes[i]) {
        Err(CodecError::BadHeaderField)
    } else {
        let (v, next) = parse_dec(bytes, i, 0);
        if v > u32::MAX {
            Err(CodecError::BadHeaderField)
        } else {
            Ok((v as u32, next))
        }
    }
}

/// What parsing a binary P6 file yields: `P6`, whitespace and comment
/// lines, ASCII-decimal width, height and a maxval of 255, one newline,
/// then exactly `3 * width * height` RGB bytes, expanded to RGBA with
/// opaque alpha.  Fewer body bytes are `TruncatedStream`; trailing
/// bytes are `MalformedRaster`.
pub open spec fn ppm_parse_spec(bytes: Seq<u8>) -> Result<(u32, u32, Seq<u8>), CodecError> {
    if bytes.len() < 2 {
        Err(CodecError::TruncatedStream)
    } else if !(bytes[0] == 80 && bytes[1] == 54) {
        Err(CodecError::BadMagic)
    } else {
        let c = skip_comments(bytes, skip_ws(bytes, 2), false);
        match spec_read_field(bytes, c) {
            Err(e) => Err(e),
            Ok((w, i1)) => match spec_read_field(bytes, i1) {
                Err(e) => Err(e),
                Ok((h, i2)) => match spec_read_field(bytes, i2) {
                    Err(e) => Err(e),
                    Ok((mx, i3)) => {
                        if mx != 255 {
                            Err(CodecError::BadHeaderField)
                        } else if i3 >= bytes.len() {
                            Err(CodecError::TruncatedStream)
                        } else if bytes[i3] != 10 {
                            Err(CodecError::BadHeaderField)
                        } else {
                            let body = bytes.skip(i3 + 1);
                            if body.len() < 3 * (w as int) * (h as int) {
                                Err(CodecError::TruncatedStream)
                            } else if body.len() > 3 * (w as int) * (h as int) {
                                Err(CodecError::MalformedRaster)
                            } else {
                                Ok((w, h, rgb_to_rgba_spec(body)))
                            }
                        }
                    },
                },
            },
        }
    }
}

/// Advance past ASCII whitespace.
pub fn consume_ascii_whitespace(bytes: &[u8], start: usize) -> (r: usize)
    requires
        start <= bytes@.len(),
    ensures
        r == skip_ws(bytes@, start as int),
        start <= r <= bytes@.len(),
{
    let mut i = start;
    while i < bytes.len() && (bytes[i] == 32 || bytes[i] == 9 || bytes[i] == 10 || bytes[i] == 12
        || bytes[i] == 13)
        invariant
            start <= i <= bytes@.len(),
            skip_ws(bytes@, start as int) == skip_ws(bytes@, i as int),
        decreases bytes@.len() - i,
    {
        i = i + 1;
    }
    i
}

/// Advance past consecutive `#`-prefixed comment lines.
fn skip_comment_lines(bytes: &[u8], start: usize) -> (r: usize)
    requires
        start <= bytes@.len(),
    ensures
        r == skip_comments(bytes@, start as int, false),
        start <= r <= bytes@.len(),
{
    let mut i = start;
    let mut in_line = false;
    while i < bytes.len() && (in_line || bytes[i] == 35)
        invariant
            start <= i <= bytes@.len(),
            skip_comments(bytes@, start as int, false) == skip_comments(
                bytes@,
                i as int,
                in_line,
            ),
        decreases bytes@.len() - i,
    {
        if in_line {
            if bytes[i] == 10 {
                in_line = false;
            }
        } else {
            in_line = true;
        }
        i = i + 1;
    }
    i
}

/// Read one whitespace-led decimal header field.
fn read_dec_field(bytes: &[u8], pos: usize) -> (r: Result<(u32, usize), CodecError>)
    requires
        pos <= bytes@.len(),
    ensures
        (match spec_read_field(bytes@, pos as int) {
            Ok(t) => r matches Ok(u) && u.0 == t.0 && u.1 == t.1,
            Err(e) => r matches Err(e2) && e2 == e,
        }),
{
    let i0 = consume_ascii_whitespace(bytes, pos);
    if i0 >= bytes.len() {
        return Err(CodecError::TruncatedStream);
    }
    let b0 = bytes[i0];
    if !(48 <= b0 && b0 <= 57) {
        return Err(CodecError::BadHeaderField);
    }
    let mut i = i0;
    let mut acc: u64 = 0;
    let mut big = false;
    let ghost mut gacc: int = 0;
    while i < bytes.len() && 48 <= bytes[i] && bytes[i] <= 57
        invariant
            i0 <= i <= bytes@.len(),
            parse_dec(bytes@, i0 as int, 0) == parse_dec(bytes@, i as int, gacc),
            gacc >= 0,
            big == (gacc > u32::MAX),
            !big ==> acc == gacc,
        decreases bytes@.len() - i,
    {
        let d = bytes[i] - 48;
        let ghost g_old = gacc;
        if !big {
            acc = acc * 10 + (d as u64);
            if acc > 0xFFFF_FFFF {
                big = true;
            }
        }
        proof {
            gacc = g_old * 10 + (d as int);
            assert(gacc >= g_old);
            assert(parse_dec(bytes@, i as int, g_old) == parse_dec(bytes@, i + 1, gacc));
        }
        i = i + 1;
    }
    proof {
        assert(parse_dec(bytes@, i as int, gacc) == (gacc, i as int));
    }
    if big {
        return Err(CodecError::BadHeaderField);
    }
    Ok((acc as u32, i))
}

/// Parse a binary P6 file into `(width, height, RGBA bytes)`.
pub fn parse_img(data: &[u8]) -> (r: Result<(u32, u32, Vec<u8>), CodecError>)
    ensures
        (match ppm_parse_spec(data@) {
            Ok(t) => r matches Ok(u) && u.0 == t.0 && u.1 == t.1 && u.2@ == t.2,
            Err(e) => r matches Err(e2) && e2 == e,
        }),
{
    if data.len() < 2 {
        return Err(CodecError::TruncatedStream);
    }
    if !(data[0] == 80 && data[1] == 54) {
        return Err(CodecError::BadMagic);
    }
    let iw = consume_ascii_whitespace(data, 2);
    let ic = skip_comment_lines(data, iw);
    proof {
        lemma_read_field_range(data@, ic as int);
    }
    let (w, i1) = match read_dec_field(data, ic) {
        Ok(t) => t,
        Err(e) => {
            return Err(e);
        },
    };
    proof {
        lemma_read_field_range(data@, i1 as int);
    }
    let (h, i2) = match read_dec_field(data, i1) {
        Ok(t) => t,
        Err(e) => {
            return Err(e);
        },
    };
    proof {
        lemma_read_field_range(data@, i2 as int);
    }
    let (mx, i3) = match read_dec_field(data, i2) {
        Ok(t) => t,
        Err(e) => {
            return Err(e);
        },
    };
    if mx != 255 {
        return Err(CodecError::BadHeaderField);
    }
    if i3 >= data.len() {
        return Err(CodecError::TruncatedStream);
    }
    if data[i3] != 10 {
        return Err(CodecError::BadHeaderField);
    }
    let body_start = i3 + 1;
    let rem = data.len() - body_start;
    proof {
        assert((w as int) * (h as int) <= 0xFFFF_FFFF * 0xFFFF_FFFF) by (nonlinear_arith)
            requires
                w <= 0xFFFF_FFFFu32,
                h <= 0xFFFF_FFFFu32,
        ;
        let m = (w as int) * (h as int);
        assert(3 * (w as int) * (h as int) == 3 * m) by (nonlinear_arith)
            requires
                m == (w as int) * (h as int),
        ;
    }
    let px: u64 = (w as u64) * (h as u64);
    let expected: u128 = 3u128 * (px as u128);
    if (rem as u128) < expected {
        return Err(CodecError::TruncatedStream);
    }
    if (rem as u128) > expected {
        return Err(CodecError::MalformedRaster);
    }
    let body = slice_subrange(data, body_start, data.len());
    assert(body@ =~= data@.skip(body_start as int));
    proof {
        let m = (w as int) * (h as int);
        assert((3 * m) % 3 == 0) by (nonlinear_arith);
    }
    let rgba = rgb_to_rgba(body);
    Ok((w, h, rgba))
}

/// A successfully read field ends at or after where it started, within
/// the input.
proof fn lemma_read_field_range(bytes: Seq<u8>, pos: int)
    requires
        0 <= pos <= bytes.len(),
    ensures
        (match spec_read_field(bytes, pos) {
            Ok(t) => 0 <= t.1 <= bytes.len(),
            Err(_) => true,
        }),
{
    lemma_skip_ws_range(bytes, pos);
    let i = skip_ws(bytes, pos);
    if i < bytes.len() && is_digit(bytes[i]) {
        lemma_parse_dec_range(bytes, i, 0);
    }
}

/// `skip_ws` never moves backwards nor past the end.
proof fn lemma_skip_ws_range(bytes: Seq<u8>, i: int)
    requires
        0 <= i <= bytes.len(),
    ensures
        i <= skip_ws(bytes, i) <= bytes.len(),
    decreases bytes.len() - i,
{
    if i < bytes.len() && is_ws(bytes[i]) {
        lemma_skip_ws_range(bytes, i + 1);
    }
}

/// `parse_dec` never moves backwards nor past the end.
proof fn lemma_parse_dec_range(bytes: Seq<u8>, i: int, acc: int)
    requires
        0 <= i <= bytes.len(),
    ensures
        i <= parse_dec(bytes, i, acc).1 <= bytes.len(),
    decreases bytes.len() - i,
{
    if i < bytes.len() && is_digit(bytes[i]) {
        lemma_parse_dec_range(bytes, i + 1, acc * 10 + (bytes[i] - 48));
    }
}

// ------------------------------------------------------------------
// Emission
// ------------------------------------------------------------------

/// The ASCII decimal digits of `n`, most significant first.
pub open spec fn dec_digits(n: nat) -> Seq<u8>
    decreases n,
    via dec_digits_decreases
{
    if n < 10 {
        seq![(48 + n) as u8]
    } else {
        dec_digits(n / 10) + seq![(48 + n % 10) as u8]
    }
}

#[via_fn]
proof fn dec_digits_decreases(n: nat) {
    if n >= 10 {
        assert(n / 10 < n) by (nonlinear_arith)
            requires
                n >= 10,
        ;
    }
}

/// The emitted form of a raster: `P6\n<W> <H>\n255\n` then the RGB
/// bytes, alpha dropped.
pub open spec fn ppm_encode_spec(w: u32, h: u32, rgba: Seq<u8>) -> Seq<u8> {
    seq![80u8, 54u8, 10u8] + dec_digits(w as nat) + seq![32u8] + dec_digits(h as nat) + seq![10u8]
        + seq![50u8, 53u8, 53u8, 10u8] + rgba_to_rgb_spec(rgba)
}

/// Append the ASCII decimal digits of `n`.
fn push_decimal(out: &mut Vec<u8>, n: u32)
    ensures
        final(out)@ == old(out)@ + dec_digits(n as nat),
    decreases n,
{
    if n < 10 {
        out.push(48 + (n as u8));
        assert(out@ =~= old(out)@ + dec_digits(n as nat));
    } else {
        push_decimal(out, n / 10);
        out.push(48 + ((n % 10) as u8));
        assert(out@ =~= old(out)@ + dec_digits(n as nat));
    }
}

/// Emit a raster as a binary P6 file.
pub fn encode_img(img: &RawImage) -> (r: Vec<u8>)
    requires
        img.wf(),
    ensures
        r@ == ppm_encode_spec(img.0, img.1, img.2@),
{
    let mut out: Vec<u8> = Vec::new();
    out.push(80);
    out.push(54);
    out.push(10);
    push_decimal(&mut out, img.0);
    out.push(32);
    push_decimal(&mut out, img.1);
    out.push(10);
    out.push(50);
    out.push(53);
    out.push(53);
    out.push(10);
    proof {
        let m = (img.0 as int) * (img.1 as int);
        assert(4 * (img.0 as int) * (img.1 as int) == 4 * m) by (nonlinear_arith)
            requires
                m == (img.0 as int) * (img.1 as int),
        ;
        assert((4 * m) % 4 == 0) by (nonlinear_arith);
    }
    let mut rgb = rgba_to_rgb(img.2.as_slice());
    out.append(&mut rgb);
    assert(out@ =~= ppm_encode_spec(img.0, img.1, img.2@));
    out
}

} // verus!
