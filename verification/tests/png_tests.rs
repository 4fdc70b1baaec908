use qoi_codec::error::CodecError;
use qoi_codec::img::RawImage;
use qoi_codec::png::adapt_decoded;
use qoi_codec::png::as_bytes;
use qoi_codec::png::encode_img;
use qoi_codec::png::is_valid_chunk_type;
use qoi_codec::png::parse_chunk;
use qoi_codec::png::parse_img;
use qoi_codec::png::Chunk;
use qoi_codec::png::ChunkType;

fn chunk_type(name: &[u8; 4]) -> ChunkType {
    ChunkType::try_from_bytes(*name).unwrap()
}

#[test]
fn chunk_type_validity() {
    assert!(is_valid_chunk_type(*b"RuSt"));
    assert!(is_valid_chunk_type(*b"IHDR"));
    assert!(!is_valid_chunk_type(*b"Ru1t"));
    assert!(!is_valid_chunk_type(*b"Ru t"));
    assert!(ChunkType::try_from_bytes(*b"Rust").is_some());
    assert!(ChunkType::try_from_bytes(*b"Ru;t").is_none());
}

#[test]
fn chunk_type_property_bits() {
    let ct = chunk_type(b"RuSt");
    assert!(ct.is_critical());
    assert!(!ct.is_public());
    assert!(ct.is_reserved_bit_valid());
    assert!(!ct.is_safe_to_copy());
    assert!(ct.is_valid());
    assert_eq!(ct.bytes(), *b"RuSt");
    let lower = chunk_type(b"rust");
    assert!(!lower.is_critical());
    assert!(!lower.is_valid());
}

#[test]
fn iend_chunk_has_known_crc() {
    // The CRC of an empty IEND chunk is the well-known 0xAE426082,
    // pinned by every PNG file's final four bytes.
    let chunk = Chunk::new(chunk_type(b"IEND"), vec![]);
    assert_eq!(chunk.crc(), 0xAE42_6082);
    assert_eq!(chunk.length(), 0);
}

#[test]
fn chunk_accessors_and_bytes() {
    let data = b"This is where your secret message will be!".to_vec();
    let chunk = Chunk::new(chunk_type(b"RuSt"), data.clone());
    assert_eq!(chunk.length() as usize, data.len());
    assert_eq!(chunk.data(), data.as_slice());
    assert_eq!(chunk.chunk_type().bytes(), *b"RuSt");
    let bytes = chunk.as_bytes();
    assert_eq!(bytes.len(), data.len() + 12);
    assert_eq!(&bytes[0..4], &(data.len() as u32).to_be_bytes());
    assert_eq!(&bytes[4..8], b"RuSt");
    assert_eq!(&bytes[8..8 + data.len()], data.as_slice());
    assert_eq!(&bytes[8 + data.len()..], &chunk.crc().to_be_bytes());
}

#[test]
fn chunk_data_as_string() {
    let chunk = Chunk::new(chunk_type(b"teXt"), b"hello png".to_vec());
    assert_eq!(chunk.data_as_string(), Some("hello png".to_string()));
    let bad = Chunk::new(chunk_type(b"teXt"), vec![0xFF, 0xFE]);
    assert_eq!(bad.data_as_string(), None);
}

#[test]
fn file_bytes_start_with_signature() {
    let chunks = vec![Chunk::new(chunk_type(b"IEND"), vec![])];
    let bytes = as_bytes(chunks);
    assert_eq!(&bytes[0..8], &[0x89, b'P', b'N', b'G', 0x0D, 0x0A, 0x1A, 0x0A]);
    assert_eq!(&bytes[8..12], &[0, 0, 0, 0]);
    assert_eq!(&bytes[12..16], b"IEND");
    assert_eq!(&bytes[16..20], &[0xAE, 0x42, 0x60, 0x82]);
}

#[test]
fn png_round_trip_rgba() {
    let mut rgba = Vec::new();
    for k in 0..16u32 {
        rgba.extend_from_slice(&[(k * 17) as u8, (k * 3) as u8, (255 - k) as u8, 200]);
    }
    let img = RawImage(4, 4, rgba);
    let file = encode_img(&img);
    assert_eq!(&file[0..8], &[0x89, b'P', b'N', b'G', 0x0D, 0x0A, 0x1A, 0x0A]);
    let back = parse_img(&file).unwrap();
    assert_eq!(back.0, 4);
    assert_eq!(back.1, 4);
    assert_eq!(back.2, img.2);
}

#[test]
fn png_rgb_frame_gains_opaque_alpha() {
    // Write an RGB PNG with the external encoder directly, then let the
    // library adapt it to RGBA.
    let mut buf = Vec::new();
    {
        let mut encoder = png::Encoder::new(std::io::Cursor::new(&mut buf), 2, 1);
        encoder.set_color(png::ColorType::Rgb);
        encoder.set_depth(png::BitDepth::Eight);
        let mut writer = encoder.write_header().unwrap();
        writer.write_image_data(&[10, 20, 30, 40, 50, 60]).unwrap();
        writer.finish().unwrap();
    }
    let img = parse_img(&buf).unwrap();
    assert_eq!((img.0, img.1), (2, 1));
    assert_eq!(img.2, vec![10, 20, 30, 255, 40, 50, 60, 255]);
}

#[test]
fn png_grayscale_frame_is_broadcast() {
    let mut buf = Vec::new();
    {
        let mut encoder = png::Encoder::new(std::io::Cursor::new(&mut buf), 2, 1);
        encoder.set_color(png::ColorType::Grayscale);
        encoder.set_depth(png::BitDepth::Eight);
        let mut writer = encoder.write_header().unwrap();
        writer.write_image_data(&[0x40, 0x80]).unwrap();
        writer.finish().unwrap();
    }
    let img = parse_img(&buf).unwrap();
    assert_eq!(img.2, vec![0x40, 0x40, 0x40, 255, 0x80, 0x80, 0x80, 255]);
}

#[test]
fn png_gray_alpha_frame_keeps_alpha() {
    let mut buf = Vec::new();
    {
        let mut encoder = png::Encoder::new(std::io::Cursor::new(&mut buf), 1, 1);
        encoder.set_color(png::ColorType::GrayscaleAlpha);
        encoder.set_depth(png::BitDepth::Eight);
        let mut writer = encoder.write_header().unwrap();
        writer.write_image_data(&[0x10, 0x99]).unwrap();
        writer.finish().unwrap();
    }
    let img = parse_img(&buf).unwrap();
    assert_eq!(img.2, vec![0x10, 0x10, 0x10, 0x99]);
}

#[test]
fn png_rejects_garbage() {
    assert_eq!(
        parse_img(&[1, 2, 3, 4, 5, 6, 7, 8, 9]).err(),
        Some(CodecError::BadMagic)
    );
}

#[test]
fn adapt_rejects_unsupported_models() {
    // Color code 3 is indexed: not adapted.
    assert_eq!(adapt_decoded(1, 1, 3, 8, vec![0]), Err(CodecError::UnsupportedPngColor));
    // 16-bit depth is out of scope.
    assert_eq!(
        adapt_decoded(1, 1, 6, 16, vec![0; 8]),
        Err(CodecError::UnsupportedPngColor)
    );
    // A sample count that does not fit the dimensions.
    assert_eq!(adapt_decoded(2, 1, 6, 8, vec![0; 4]), Err(CodecError::MalformedRaster));
}

#[test]
fn adapt_passes_rgba_through() {
    let samples = vec![1, 2, 3, 4, 5, 6, 7, 8];
    assert_eq!(adapt_decoded(2, 1, 6, 8, samples.clone()), Ok(samples));
}

#[test]
fn parse_chunk_round_trip() {
    let chunk = Chunk::new(chunk_type(b"RuSt"), b"secret".to_vec());
    let wire = chunk.as_bytes();
    let (parsed, next) = parse_chunk(&wire, 0).unwrap();
    assert_eq!(next, wire.len());
    assert_eq!(parsed.length(), 6);
    assert_eq!(parsed.chunk_type().bytes(), *b"RuSt");
    assert_eq!(parsed.data(), b"secret");
    assert_eq!(parsed.crc(), chunk.crc());
}

#[test]
fn parse_chunk_rejects_bad_crc() {
    let chunk = Chunk::new(chunk_type(b"RuSt"), b"secret".to_vec());
    let mut wire = chunk.as_bytes();
    let end = wire.len() - 1;
    wire[end] ^= 1;
    assert!(parse_chunk(&wire, 0).is_none());
    // Truncated inputs are rejected too.
    assert!(parse_chunk(&chunk.as_bytes()[..10], 0).is_none());
}
