use qoi_codec::error::CodecError;
use qoi_codec::qoi::assemble_chunk_into;
use qoi_codec::qoi::dr_dg_db;
use qoi_codec::qoi::encode_img;
use qoi_codec::qoi::hash;
use qoi_codec::qoi::parse_chunk_at;
use qoi_codec::qoi::parse_img;
use qoi_codec::qoi::Chunk;
use qoi_codec::qoi::Pix;

fn header(w: u32, h: u32, channels: u8) -> Vec<u8> {
    let mut v = vec![0x71, 0x6F, 0x69, 0x66];
    v.extend_from_slice(&w.to_be_bytes());
    v.extend_from_slice(&h.to_be_bytes());
    v.push(channels);
    v.push(1);
    v
}

const MARKER: [u8; 8] = [0, 0, 0, 0, 0, 0, 0, 1];

fn file(w: u32, h: u32, channels: u8, body: &[u8]) -> Vec<u8> {
    let mut v = header(w, h, channels);
    v.extend_from_slice(body);
    v.extend_from_slice(&MARKER);
    v
}

#[test]
fn hash_matches_formula() {
    assert_eq!(hash(Pix { r: 0, g: 0, b: 0, a: 255 }), (11 * 255) % 64);
    assert_eq!(hash(Pix { r: 0, g: 0, b: 0, a: 255 }), 53);
    assert_eq!(hash(Pix { r: 0, g: 0, b: 0, a: 0 }), 0);
    assert_eq!(hash(Pix { r: 1, g: 0, b: 0, a: 255 }), 56);
    assert_eq!(
        hash(Pix { r: 10, g: 20, b: 30, a: 40 }),
        (3 * 10 + 5 * 20 + 7 * 30 + 11 * 40) % 64
    );
}

#[test]
fn deltas_wrap_at_byte_boundary() {
    let (dr, dg, db) = dr_dg_db(
        Pix { r: 0, g: 5, b: 128, a: 255 },
        Pix { r: 255, g: 5, b: 127, a: 255 },
    );
    assert_eq!((dr, dg, db), (1, 0, 1));
    let (dr, _, _) = dr_dg_db(
        Pix { r: 255, g: 0, b: 0, a: 255 },
        Pix { r: 0, g: 0, b: 0, a: 255 },
    );
    assert_eq!(dr, -1);
}

#[test]
fn single_red_pixel_file() {
    // The wrap-around delta from (0,0,0,255) to (255,0,0,255) is
    // (-1,0,0), inside the Diff range, so the canonical emission order
    // picks Diff; the pixel is opaque, so the header chooses 3 channels.
    let out = encode_img(1, 1, vec![255, 0, 0, 255]);
    let expected = file(1, 1, 3, &[0x5A]);
    assert_eq!(out, expected);
    let (w, h, px) = parse_img(&out).unwrap();
    assert_eq!((w, h), (1, 1));
    assert_eq!(px, vec![255, 0, 0, 255]);
}

#[test]
fn two_black_pixels_are_one_run() {
    let out = encode_img(2, 1, vec![0, 0, 0, 255, 0, 0, 0, 255]);
    assert_eq!(out, file(2, 1, 3, &[0xC1]));
}

#[test]
fn run_of_63_splits_62_plus_1() {
    let pixels = [0u8, 0, 0, 255].repeat(63);
    let out = encode_img(1, 63, pixels.clone());
    assert_eq!(out, file(1, 63, 3, &[0xFD, 0xC0]));
    let (w, h, px) = parse_img(&out).unwrap();
    assert_eq!((w, h), (1, 63));
    assert_eq!(px, pixels);
}

#[test]
fn long_run_splits_at_62() {
    let pixels = [7u8, 7, 7, 255].repeat(124);
    let out = encode_img(1, 124, pixels.clone());
    // The first pixel differs from the initial previous one: deltas
    // (7,7,7) give Luma{7,0,0}; the 123 equal pixels after it split
    // into runs of 62 and 61.
    assert_eq!(out, file(1, 124, 3, &[0xA7, 0x88, 0xFD, 0xFC]));
    let (_, _, px) = parse_img(&out).unwrap();
    assert_eq!(px, pixels);
}

#[test]
fn implied_run_of_one_then_diff() {
    let out = encode_img(2, 1, vec![0, 0, 0, 255, 1, 0, 0, 255]);
    // The first pixel equals the initial previous pixel: Run{1}; then
    // Diff{+1,0,0} = 0x40 | 3<<4 | 2<<2 | 2.
    assert_eq!(out, file(2, 1, 3, &[0xC0, 0x7A]));
}

#[test]
fn wraparound_255_to_0_is_diff_plus_one() {
    let out = encode_img(2, 1, vec![255, 0, 0, 255, 0, 0, 0, 255]);
    assert_eq!(out, file(2, 1, 3, &[0x5A, 0x7A]));
    let (_, _, px) = parse_img(&out).unwrap();
    assert_eq!(px, vec![255, 0, 0, 255, 0, 0, 0, 255]);
}

#[test]
fn luma_extremes_low() {
    // dg = -32, dr-dg = -8, db-dg = +7 against the initial pixel.
    let out = encode_img(1, 1, vec![216, 224, 231, 255]);
    assert_eq!(out, file(1, 1, 3, &[0x80, 0x0F]));
    let (_, _, px) = parse_img(&out).unwrap();
    assert_eq!(px, vec![216, 224, 231, 255]);
}

#[test]
fn luma_extremes_high() {
    // dg = +31, dr-dg = +7, db-dg = 0 against the initial pixel.
    let out = encode_img(1, 1, vec![38, 31, 31, 255]);
    assert_eq!(out, file(1, 1, 3, &[0xBF, 0xF8]));
    let (_, _, px) = parse_img(&out).unwrap();
    assert_eq!(px, vec![38, 31, 31, 255]);
}

#[test]
fn index_preferred_over_diff() {
    // Third pixel re-appears in the seen table and is also in Diff
    // range of the previous pixel; the shorter Index chunk must win.
    let pixels = vec![1, 0, 0, 255, 2, 0, 0, 255, 1, 0, 0, 255];
    let out = encode_img(3, 1, pixels.clone());
    assert_eq!(out, file(3, 1, 3, &[0x7A, 0x7A, 0x38]));
    let (_, _, px) = parse_img(&out).unwrap();
    assert_eq!(px, pixels);
}

#[test]
fn seen_table_records_pixels() {
    // Decode Diff then Index{56}: the index slot must hold the pixel
    // the Diff just produced.
    let stream = file(2, 1, 4, &[0x7A, 0x38]);
    let (_, _, px) = parse_img(&stream).unwrap();
    assert_eq!(px, vec![1, 0, 0, 255, 1, 0, 0, 255]);
}

#[test]
fn alpha_change_emits_rgba() {
    let out = encode_img(1, 1, vec![0, 0, 0, 128]);
    assert_eq!(out, file(1, 1, 4, &[0xFF, 0, 0, 0, 128]));
}

#[test]
fn rgb_chunk_when_deltas_too_large() {
    // (100, 200, 50) from (0,0,0): dg = -56 is outside the Luma range,
    // alpha unchanged: an Rgb chunk.
    let out = encode_img(1, 1, vec![100, 200, 50, 255]);
    assert_eq!(out, file(1, 1, 3, &[0xFE, 100, 200, 50]));
}

#[test]
fn channels_three_iff_all_opaque() {
    let opaque = encode_img(2, 1, vec![9, 9, 9, 255, 1, 2, 3, 255]);
    assert_eq!(opaque[12], 3);
    let mixed = encode_img(2, 1, vec![9, 9, 9, 255, 1, 2, 3, 7]);
    assert_eq!(mixed[12], 4);
}

#[test]
fn gradient_16x16_round_trip() {
    let mut pixels = Vec::new();
    for y in 0..16u16 {
        for x in 0..16u16 {
            pixels.push((x * 16) as u8);
            pixels.push((y * 16) as u8);
            pixels.push((x * 8 + y * 8) as u8);
            pixels.push(255);
        }
    }
    let encoded = encode_img(16, 16, pixels.clone());
    let (w, h, decoded) = parse_img(&encoded).unwrap();
    assert_eq!((w, h), (16, 16));
    assert_eq!(decoded, pixels);
    let re_encoded = encode_img(w, h, decoded);
    assert_eq!(re_encoded, encoded);
}

#[test]
fn mixed_alpha_round_trip_keeps_four_channels() {
    let mut pixels = Vec::new();
    for k in 0..32u32 {
        pixels.push((k * 3) as u8);
        pixels.push((k * 5) as u8);
        pixels.push((k * 7) as u8);
        pixels.push(if k % 2 == 0 { 255 } else { (k * 11) as u8 });
    }
    let encoded = encode_img(8, 4, pixels.clone());
    let (w, h, decoded) = parse_img(&encoded).unwrap();
    assert_eq!(decoded, pixels);
    let re_encoded = encode_img(w, h, decoded);
    assert_eq!(re_encoded[12], 4);
    assert_eq!(re_encoded, encoded);
}

#[test]
fn empty_raster_round_trip() {
    let out = encode_img(0, 0, vec![]);
    assert_eq!(out.len(), 22);
    let (w, h, px) = parse_img(&out).unwrap();
    assert_eq!((w, h, px), (0, 0, vec![]));
}

#[test]
fn parse_assemble_chunk_identity() {
    let cases = vec![
        Chunk::Rgb { r: 1, g: 2, b: 3 },
        Chunk::Rgba { r: 9, g: 8, b: 7, a: 6 },
        Chunk::Index { loc: 56 },
        Chunk::Diff { dr: -2, dg: 0, db: 1 },
        Chunk::Luma { dg: -32, dr_dg: -8, db_dg: 7 },
        Chunk::Run { length: 62 },
        Chunk::Run { length: 1 },
    ];
    for c in cases {
        let mut wire = Vec::new();
        assemble_chunk_into(c, &mut wire);
        let (parsed, next) = parse_chunk_at(&wire, 0).unwrap();
        assert_eq!(parsed, c);
        assert_eq!(next, wire.len());
    }
}

#[test]
fn assemble_parse_stream_identity() {
    // Canonical shape: re-assembling every parsed chunk reproduces the
    // accepted byte stream exactly.
    let stream: Vec<u8> = vec![0x5A, 0x7A, 0xC1, 0xFE, 1, 2, 3, 0x80, 0x0F, 0x38];
    let mut rebuilt = Vec::new();
    let mut i = 0;
    while i < stream.len() {
        let (c, next) = parse_chunk_at(&stream, i).unwrap();
        assemble_chunk_into(c, &mut rebuilt);
        assert!(next > i);
        i = next;
    }
    assert_eq!(rebuilt, stream);
}

#[test]
fn parser_precedence_of_eight_bit_tags() {
    // 0xFE and 0xFF must be matched before the two-bit dispatch.
    let (c, _) = parse_chunk_at(&[0xFE, 5, 6, 7], 0).unwrap();
    assert_eq!(c, Chunk::Rgb { r: 5, g: 6, b: 7 });
    let (c, _) = parse_chunk_at(&[0xFF, 5, 6, 7, 8], 0).unwrap();
    assert_eq!(c, Chunk::Rgba { r: 5, g: 6, b: 7, a: 8 });
    let (c, _) = parse_chunk_at(&[0xFD], 0).unwrap();
    assert_eq!(c, Chunk::Run { length: 62 });
}

#[test]
fn parse_truncated_chunk_is_none() {
    assert!(parse_chunk_at(&[0xFE, 5, 6], 0).is_none());
    assert!(parse_chunk_at(&[0xFF, 5, 6, 7], 0).is_none());
    assert!(parse_chunk_at(&[0x80], 0).is_none());
    assert!(parse_chunk_at(&[], 0).is_none());
}

#[test]
fn error_bad_magic() {
    let mut f = file(1, 1, 3, &[0x5A]);
    f[0] = b'x';
    assert_eq!(parse_img(&f), Err(CodecError::BadMagic));
}

#[test]
fn error_bad_header_field() {
    let mut f = file(1, 1, 3, &[0x5A]);
    f[12] = 5;
    assert_eq!(parse_img(&f), Err(CodecError::BadHeaderField));
    let mut g = file(1, 1, 3, &[0x5A]);
    g[13] = 2;
    assert_eq!(parse_img(&g), Err(CodecError::BadHeaderField));
}

#[test]
fn error_truncated_stream() {
    assert_eq!(parse_img(&[0x71, 0x6F, 0x69]), Err(CodecError::TruncatedStream));
    let mut f = header(1, 1, 3);
    f.extend_from_slice(&[0xFE, 1, 2]);
    assert_eq!(parse_img(&f), Err(CodecError::TruncatedStream));
}

#[test]
fn error_bad_end_marker() {
    let mut f = header(1, 1, 3);
    f.push(0x5A);
    f.extend_from_slice(&[0, 0, 0, 0, 0, 0, 0, 2]);
    assert_eq!(parse_img(&f), Err(CodecError::BadEndMarker));
}

#[test]
fn error_truncated_raster() {
    // The end marker arrives before two pixels were produced.
    let mut f = header(2, 1, 3);
    f.extend_from_slice(&MARKER);
    assert_eq!(parse_img(&f), Err(CodecError::TruncatedRaster));
}

#[test]
fn error_overrun_raster() {
    // A run of two pixels into a one-pixel raster.
    let f = file(1, 1, 3, &[0xC1]);
    assert_eq!(parse_img(&f), Err(CodecError::OverrunRaster));
}

#[test]
fn trailing_bytes_after_marker_are_ignored() {
    let mut f = file(1, 1, 3, &[0x5A]);
    f.extend_from_slice(&[0xAB, 0xCD]);
    let (w, h, px) = parse_img(&f).unwrap();
    assert_eq!((w, h), (1, 1));
    assert_eq!(px, vec![255, 0, 0, 255]);
}

#[test]
fn extra_chunks_before_marker_fail_the_end_check() {
    // One pixel is produced by the first chunk; a second chunk before
    // the end marker means the marker is not where it must be.
    let f = file(1, 1, 3, &[0x5A, 0x5A]);
    assert_eq!(parse_img(&f), Err(CodecError::BadEndMarker));
}
