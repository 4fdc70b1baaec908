use crate::error::CodecError;
use crate::img::gray_alpha_to_rgba;
use crate::img::gray_alpha_to_rgba_spec;
use crate::img::gray_to_rgba;
use crate::img::gray_to_rgba_spec;
use crate::img::rgb_to_rgba;
use crate::img::rgb_to_rgba_spec;
use crate::img::RawImage;
use crate::util::be32_spec;
use crate::util::from_be32_spec;
use crate::util::push_be32;
use crate::util::read_be32;
use vstd::prelude::*;
use vstd::slice::slice_subrange;
use vstd::slice::slice_to_vec;

verus! {

// ------------------------------------------------------------------
// Chunk types
// ------------------------------------------------------------------

/// A PNG chunk type code: four ASCII-alphabetic bytes.
#[derive(Clone, Copy, Debug)]
pub struct ChunkType {
    data: [u8; 4],
}

impl View for ChunkType {
    type V = Seq<u8>;

    closed spec fn view(&self) -> Seq<u8> {
        self.data@
    }
}

/// An ASCII letter.
pub open spec fn is_alpha(b: u8) -> bool {
    (65 <= b <= 90) || (97 <= b <= 122)
}

/// All four bytes of a chunk type code are ASCII letters.
pub open spec fn chunk_type_valid_spec(s: Seq<u8>) -> bool {
    forall|k: int| 0 <= k < s.len() ==> is_alpha(#[trigger] s[k])
}

/// Whether four bytes form a legal chunk type code.
pub fn is_valid_chunk_type(data: [u8; 4]) -> (r: bool)
    ensures
        r == chunk_type_valid_spec(data@),
{
    let mut k: usize = 0;
    let mut ok = true;
    while k < 4
        invariant
            k <= 4,
            ok == (forall|m: int| 0 <= m < k ==> is_alpha(#[trigger] data@[m])),
        decreases 4 - k,
    {
        let b = data[k];
        if !((65 <= b && b <= 90) || (97 <= b && b <= 122)) {
            ok = false;
        }
        k = k + 1;
    }
    ok
}

impl ChunkType {
    /// Construct a chunk type from four bytes, validating them.
    pub fn try_from_bytes(value: [u8; 4]) -> (r: Option<ChunkType>)
        ensures
            r is Some <==> chunk_type_valid_spec(value@),
            r matches Some(ct) ==> ct@ == value@,
    {
        if is_valid_chunk_type(value) {
            Some(ChunkType { data: value })
        } else {
            None
        }
    }

    /// The four raw bytes of the code.
    pub fn bytes(&self) -> (r: [u8; 4])
        ensures
            r@ == self@,
            self@.len() == 4,
    {
        self.data
    }

    /// Critical chunks carry an uppercase first byte.
    pub fn is_critical(&self) -> (r: bool)
        ensures
            r == (65 <= self@[0] <= 90),
    {
        65 <= self.data[0] && self.data[0] <= 90
    }

    /// Public chunks carry an uppercase second byte.
    pub fn is_public(&self) -> (r: bool)
        ensures
            r == (65 <= self@[1] <= 90),
    {
        65 <= self.data[1] && self.data[1] <= 90
    }

    /// The reserved bit is valid when the third byte is uppercase.
    pub fn is_reserved_bit_valid(&self) -> (r: bool)
        ensures
            r == (65 <= self@[2] <= 90),
    {
        65 <= self.data[2] && self.data[2] <= 90
    }

    /// Safe-to-copy chunks carry an uppercase fourth byte.
    pub fn is_safe_to_copy(&self) -> (r: bool)
        ensures
            r == (65 <= self@[3] <= 90),
    {
        65 <= self.data[3] && self.data[3] <= 90
    }

    /// A chunk type is valid when its bytes are letters and the
    /// reserved bit is valid.
    pub fn is_valid(&self) -> (r: bool)
        ensures
            r == (chunk_type_valid_spec(self@) && 65 <= self@[2] <= 90),
    {
        is_valid_chunk_type(self.data) && self.is_reserved_bit_valid()
    }
}

// ------------------------------------------------------------------
// Chunks
// ------------------------------------------------------------------

/// The CRC-32/ISO-HDLC checksum of a byte sequence, as the `crc` crate
/// computes it.  The value is a function of the bytes alone.
pub uninterp spec fn crc32_of(bytes: Seq<u8>) -> u32;

/// Relies on `crc::Crc::<u32>::checksum` with the `CRC_32_ISO_HDLC`
/// algorithm: a pure table-driven function of the input bytes.
#[verifier::external_body]
fn crc32_checksum(bytes: &[u8]) -> (r: u32)
    ensures
        r == crc32_of(bytes@),
{
    crc::Crc::<u32>::new(&crc::CRC_32_ISO_HDLC).checksum(bytes)
}

/// The abstract content of a PNG chunk.
pub struct ChunkModel {
    pub ctype: Seq<u8>,
    pub data: Seq<u8>,
    pub length: u32,
    pub crc: u32,
}

/// One PNG chunk: length, type code, data, and the CRC over type and
/// data.
#[derive(Debug, Clone)]
pub struct Chunk {
    length: u32,
    chunk_type: ChunkType,
    data: Vec<u8>,
    crc: u32,
}

impl View for Chunk {
    type V = ChunkModel;

    closed spec fn view(&self) -> ChunkModel {
        ChunkModel {
            ctype: self.chunk_type@,
            data: self.data@,
            length: self.length,
            crc: self.crc,
        }
    }
}

/// The on-wire bytes of one chunk: big-endian length, type code, data,
/// big-endian CRC.
pub open spec fn chunk_bytes_spec(m: ChunkModel) -> Seq<u8> {
    be32_spec(m.length) + m.ctype + m.data + be32_spec(m.crc)
}

impl Chunk {
    /// Build a chunk, computing its CRC over the type code followed by
    /// the data.
    pub fn new(chunk_type: ChunkType, data: Vec<u8>) -> (r: Chunk)
        requires
            data@.len() <= u32::MAX,
        ensures
            r@.ctype == chunk_type@,
            r@.data == data@,
            r@.length == data@.len(),
            r@.crc == crc32_of(chunk_type@ + data@),
    {
        let mut message: Vec<u8> = Vec::new();
        message.push(chunk_type.data[0]);
        message.push(chunk_type.data[1]);
        message.push(chunk_type.data[2]);
        message.push(chunk_type.data[3]);
        assert(message@ =~= chunk_type@);
        let mut k: usize = 0;
        while k < data.len()
            invariant
                k <= data@.len(),
                message@ == chunk_type@ + data@.take(k as int),
            decreases data@.len() - k,
        {
            message.push(data[k]);
            assert(message@ =~= chunk_type@ + data@.take(k + 1));
            k = k + 1;
        }
        assert(message@ =~= chunk_type@ + data@);
        let crc = crc32_checksum(message.as_slice());
        Chunk { length: data.len() as u32, chunk_type, data, crc }
    }

    /// The data length.
    pub fn length(&self) -> (r: u32)
        ensures
            r == self@.length,
    {
        self.length
    }

    /// The chunk's type code.
    pub fn chunk_type(&self) -> (r: &ChunkType)
        ensures
            r@ == self@.ctype,
    {
        &self.chunk_type
    }

    /// The chunk's data bytes.
    pub fn data(&self) -> (r: &[u8])
        ensures
            r@ == self@.data,
    {
        self.data.as_slice()
    }

    /// The chunk's CRC.
    pub fn crc(&self) -> (r: u32)
        ensures
            r == self@.crc,
    {
        self.crc
    }

    /// The data decoded as UTF-8, when it is valid UTF-8.
    pub fn data_as_string(&self) -> (r: Option<String>)
        ensures
            r is Some <==> vstd::utf8::valid_utf8(self@.data),
            r matches Some(s) ==> s@ == vstd::utf8::decode_utf8(self@.data),
    {
        utf8_string(self.data.clone())
    }

    /// The chunk's complete on-wire bytes.
    pub fn as_bytes(&self) -> (r: Vec<u8>)
        ensures
            r@ == chunk_bytes_spec(self@),
    {
        let mut bytes: Vec<u8> = Vec::new();
        push_be32(&mut bytes, self.length);
        bytes.push(self.chunk_type.data[0]);
        bytes.push(self.chunk_type.data[1]);
        bytes.push(self.chunk_type.data[2]);
        bytes.push(self.chunk_type.data[3]);
        let mut k: usize = 0;
        while k < self.data.len()
            invariant
                k <= self.data@.len(),
                bytes@ == be32_spec(self@.length) + self@.ctype + self@.data.take(k as int),
            decreases self.data@.len() - k,
        {
            bytes.push(self.data[k]);
            assert(bytes@ =~= be32_spec(self@.length) + self@.ctype + self@.data.take(k + 1));
            k = k + 1;
        }
        assert(bytes@ =~= be32_spec(self@.length) + self@.ctype + self@.data);
        push_be32(&mut bytes, self.crc);
        assert(bytes@ =~= chunk_bytes_spec(self@));
        bytes
    }
}

/// Relies on `String::from_utf8`: `Ok` exactly on valid UTF-8, decoding
/// the bytes to their scalar values, as `vstd::utf8` defines them.
#[verifier::external_body]
fn utf8_string(bytes: Vec<u8>) -> (r: Option<String>)
    ensures
        r is Some <==> vstd::utf8::valid_utf8(bytes@),
        r matches Some(s) ==> s@ == vstd::utf8::decode_utf8(bytes@),
{
    String::from_utf8(bytes).ok()
}

/// The eight PNG signature bytes.
pub open spec fn png_signature_spec() -> Seq<u8> {
    seq![137u8, 80u8, 78u8, 71u8, 13u8, 10u8, 26u8, 10u8]
}

/// The on-wire bytes of a chunk sequence.
pub open spec fn chunks_bytes_spec(cs: Seq<ChunkModel>) -> Seq<u8>
    decreases cs.len(),
{
    if cs.len() == 0 {
        Seq::empty()
    } else {
        chunks_bytes_spec(cs.drop_last()) + chunk_bytes_spec(cs.last())
    }
}

/// A whole PNG file image: the signature followed by every chunk's
/// bytes.
pub fn as_bytes(chunks: Vec<Chunk>) -> (r: Vec<u8>)
    ensures
        r@ == png_signature_spec() + chunks_bytes_spec(
            chunks@.map_values(|c: Chunk| c@),
        ),
{
    let ghost models = chunks@.map_values(|c: Chunk| c@);
    let mut out: Vec<u8> = Vec::new();
    out.push(137);
    out.push(80);
    out.push(78);
    out.push(71);
    out.push(13);
    out.push(10);
    out.push(26);
    out.push(10);
    assert(out@ =~= png_signature_spec() + chunks_bytes_spec(models.take(0)));
    let mut k: usize = 0;
    while k < chunks.len()
        invariant
            k <= chunks@.len(),
            models == chunks@.map_values(|c: Chunk| c@),
            out@ == png_signature_spec() + chunks_bytes_spec(models.take(k as int)),
        decreases chunks@.len() - k,
    {
        let mut piece = chunks[k].as_bytes();
        out.append(&mut piece);
        proof {
            assert(models.take(k + 1).drop_last() =~= models.take(k as int));
            assert(models.take(k + 1).last() == models[k as int]);
            assert(models[k as int] == chunks@[k as int]@);
            assert(out@ =~= png_signature_spec() + chunks_bytes_spec(models.take(k + 1)));
        }
        k = k + 1;
    }
    assert(models.take(models.len() as int) =~= models);
    out
}

// ------------------------------------------------------------------
// The delegated PNG codec
// ------------------------------------------------------------------

/// What the external PNG decoder yields for a byte stream: frame
/// width, height, color type code, bit depth, and the decoded samples;
/// `None` when it rejects the stream.  The result is a function of the
/// bytes alone.
pub uninterp spec fn png_decoded_of(bytes: Seq<u8>) -> Option<(u32, u32, u8, u8, Seq<u8>)>;

/// Relies on `png::Decoder` and `png::Reader::next_frame`: decoding a
/// PNG from an in-memory buffer depends on the bytes alone and yields
/// the frame's dimensions, color type code, bit depth and samples.
#[verifier::external_body]
fn png_decode_raw(bytes: &[u8]) -> (r: Option<(u32, u32, u8, u8, Vec<u8>)>)
    ensures
        (match r {
            Some(t) => png_decoded_of(bytes@) == Some((t.0, t.1, t.2, t.3, t.4@)),
            None => png_decoded_of(bytes@) is None,
        }),
{
    let decoder = png::Decoder::new(std::io::Cursor::new(bytes));
    let mut reader = match decoder.read_info() {
        Ok(r) => r,
        Err(_) => return None,
    };
    let mut buf = vec![0u8; reader.output_buffer_size()];
    let info = match reader.next_frame(&mut buf) {
        Ok(i) => i,
        Err(_) => return None,
    };
    buf.truncate(info.buffer_size());
    Some((info.width, info.height, info.color_type as u8, info.bit_depth as u8, buf))
}

/// The PNG samples that the external encoder is given.  The emitted
/// bytes are a function of the dimensions and samples alone.
pub uninterp spec fn png_encoded_of(w: u32, h: u32, rgba: Seq<u8>) -> Seq<u8>;

/// Relies on `png::Encoder`: writing an 8-bit RGBA PNG to an in-memory
/// buffer depends on the dimensions and samples alone.  The encoder
/// rejects zero dimensions and a mismatched sample count, which the
/// `requires` rules out.
#[verifier::external_body]
fn png_encode_raw(width: u32, height: u32, rgba: &[u8]) -> (r: Vec<u8>)
    requires
        width > 0,
        height > 0,
        rgba@.len() == 4 * (width as int) * (height as int),
    ensures
        r@ == png_encoded_of(width, height, rgba@),
{
    let mut buf = Vec::new();
    let mut encoder = png::Encoder::new(std::io::Cursor::new(&mut buf), width, height);
    encoder.set_color(png::ColorType::Rgba);
    encoder.set_depth(png::BitDepth::Eight);
    let mut writer = match encoder.write_header() {
        Ok(w) => w,
        Err(_) => return Vec::new(),
    };
    if writer.write_image_data(rgba).is_err() {
        return Vec::new();
    }
    if writer.finish().is_err() {
        return Vec::new();
    }
    buf
}

/// The RGBA adaptation of a decoded PNG frame, by color model: RGBA is
/// passed through, RGB gains opaque alpha, grayscale is broadcast, and
/// gray+alpha is broadcast keeping its alpha.  Any other color model,
/// or a depth other than 8 bits, is `UnsupportedPngColor`; a sample
/// count that does not fit the dimensions is `MalformedRaster`.
pub open spec fn png_adapt_spec(w: u32, h: u32, color: u8, depth: u8, buf: Seq<u8>) -> Result<
    Seq<u8>,
    CodecError,
> {
    if depth != 8 {
        Err(CodecError::UnsupportedPngColor)
    } else if color == 6 {
        if buf.len() == 4 * (w as int) * (h as int) {
            Ok(buf)
        } else {
            Err(CodecError::MalformedRaster)
        }
    } else if color == 2 {
        if buf.len() == 3 * (w as int) * (h as int) {
            Ok(rgb_to_rgba_spec(buf))
        } else {
            Err(CodecError::MalformedRaster)
        }
    } else if color == 0 {
        if buf.len() == (w as int) * (h as int) {
            Ok(gray_to_rgba_spec(buf))
        } else {
            Err(CodecError::MalformedRaster)
        }
    } else if color == 4 {
        if buf.len() == 2 * (w as int) * (h as int) {
            Ok(gray_alpha_to_rgba_spec(buf))
        } else {
            Err(CodecError::MalformedRaster)
        }
    } else {
        Err(CodecError::UnsupportedPngColor)
    }
}

/// Adapt a decoded PNG frame to RGBA.
pub fn adapt_decoded(w: u32, h: u32, color: u8, depth: u8, buf: Vec<u8>) -> (r: Result<
    Vec<u8>,
    CodecError,
>)
    ensures
        (match png_adapt_spec(w, h, color, depth, buf@) {
            Ok(v) => r matches Ok(out) && out@ == v && out@.len() == 4 * (w as int) * (h as int),
            Err(e) => r matches Err(e2) && e2 == e,
        }),
{
    if depth != 8 {
        return Err(CodecError::UnsupportedPngColor);
    }
    proof {
        assert((w as int) * (h as int) <= 0xFFFF_FFFF * 0xFFFF_FFFF) by (nonlinear_arith)
            requires
                w <= 0xFFFF_FFFFu32,
                h <= 0xFFFF_FFFFu32,
        ;
        let m = (w as int) * (h as int);
        assert(4 * (w as int) * (h as int) == 4 * m && 3 * (w as int) * (h as int) == 3 * m && 2
            * (w as int) * (h as int) == 2 * m) by (nonlinear_arith)
            requires
                m == (w as int) * (h as int),
        ;
        assert((4 * m) % 4 == 0 && (3 * m) % 3 == 0 && (2 * m) % 2 == 0 && (3 * m) / 3 == m && (2
            * m) / 2 == m && (4 * m) / 4 == m) by (nonlinear_arith);
    }
    let m: u64 = (w as u64) * (h as u64);
    if color == 6 {
        if (buf.len() as u128) == 4u128 * (m as u128) {
            Ok(buf)
        } else {
            Err(CodecError::MalformedRaster)
        }
    } else if color == 2 {
        if (buf.len() as u128) == 3u128 * (m as u128) {
            let out = rgb_to_rgba(buf.as_slice());
            Ok(out)
        } else {
            Err(CodecError::MalformedRaster)
        }
    } else if color == 0 {
        if (buf.len() as u128) == (m as u128) {
            let out = gray_to_rgba(buf.as_slice());
            Ok(out)
        } else {
            Err(CodecError::MalformedRaster)
        }
    } else if color == 4 {
        if (buf.len() as u128) == 2u128 * (m as u128) {
            let out = gray_alpha_to_rgba(buf.as_slice());
            Ok(out)
        } else {
            Err(CodecError::MalformedRaster)
        }
    } else {
        Err(CodecError::UnsupportedPngColor)
    }
}

/// Decode a PNG file into a raster, adapting gray and RGB frames to
/// RGBA.  A stream the external decoder rejects is reported as
/// `BadMagic`.
pub fn parse_img(data: &[u8]) -> (r: Result<RawImage, CodecError>)
    ensures
        (match png_decoded_of(data@) {
            None => r matches Err(e) && e == CodecError::BadMagic,
            Some(t) => (match png_adapt_spec(t.0, t.1, t.2, t.3, t.4) {
                Ok(v) => r matches Ok(img) && img.0 == t.0 && img.1 == t.1 && img.2@ == v
                    && img.wf(),
                Err(e) => r matches Err(e2) && e2 == e,
            }),
        }),
{
    match png_decode_raw(data) {
        None => Err(CodecError::BadMagic),
        Some((w, h, color, depth, buf)) => match adapt_decoded(w, h, color, depth, buf) {
            Ok(v) => Ok(RawImage(w, h, v)),
            Err(e) => Err(e),
        },
    }
}

/// Encode a raster as an 8-bit RGBA PNG through the external encoder.
pub fn encode_img(img: &RawImage) -> (r: Vec<u8>)
    requires
        img.wf(),
        img.0 > 0,
        img.1 > 0,
    ensures
        r@ == png_encoded_of(img.0, img.1, img.2@),
{
    png_encode_raw(img.0, img.1, img.2.as_slice())
}

/// What parsing one chunk at `pos` yields: its type code, data, CRC and
/// the position just past it — or nothing, when the input ends inside
/// the chunk, the type code is not alphabetic, or the stored CRC does
/// not match the one computed over type code and data.
pub open spec fn png_chunk_parse_spec(bytes: Seq<u8>, pos: int) -> Option<
    (Seq<u8>, Seq<u8>, u32, int),
> {
    if pos < 0 || pos + 8 > bytes.len() {
        None
    } else {
        let len = from_be32_spec(bytes[pos], bytes[pos + 1], bytes[pos + 2], bytes[pos + 3]) as int;
        let ctype = bytes.subrange(pos + 4, pos + 8);
        if !chunk_type_valid_spec(ctype) {
            None
        } else if pos + 12 + len > bytes.len() {
            None
        } else {
            let data = bytes.subrange(pos + 8, pos + 8 + len);
            let crc = from_be32_spec(
                bytes[pos + 8 + len],
                bytes[pos + 9 + len],
                bytes[pos + 10 + len],
                bytes[pos + 11 + len],
            );
            if crc != crc32_of(ctype + data) {
                None
            } else {
                Some((ctype, data, crc, pos + 12 + len))
            }
        }
    }
}

/// Parse one chunk at `pos` of a PNG byte stream, validating its type
/// code and its CRC.
pub fn parse_chunk(bytes: &[u8], pos: usize) -> (r: Option<(Chunk, usize)>)
    requires
        pos <= bytes@.len(),
    ensures
        (match png_chunk_parse_spec(bytes@, pos as int) {
            Some(t) => r matches Some(u) && u.0@.ctype == t.0 && u.0@.data == t.1 && u.0@.crc
                == t.2 && u.0@.length == t.1.len() && u.1 == t.3,
            None => r is None,
        }),
{
    if bytes.len() - pos < 8 {
        return None;
    }
    let len32 = read_be32(bytes, pos);
    let ctype = [bytes[pos + 4], bytes[pos + 5], bytes[pos + 6], bytes[pos + 7]];
    assert(ctype@ =~= bytes@.subrange(pos + 4, pos + 8));
    if !is_valid_chunk_type(ctype) {
        return None;
    }
    if ((bytes.len() - pos - 8) as u64) < (len32 as u64) + 4 {
        return None;
    }
    let len = len32 as usize;
    let data_slice = slice_subrange(bytes, pos + 8, pos + 8 + len);
    let data = slice_to_vec(data_slice);
    let stored_crc = read_be32(bytes, pos + 8 + len);
    let ct = match ChunkType::try_from_bytes(ctype) {
        Some(ct) => ct,
        None => {
            return None;
        },
    };
    let chunk = Chunk::new(ct, data);
    if chunk.crc() != stored_crc {
        return None;
    }
    Some((chunk, pos + 12 + len))
}

} // verus!
