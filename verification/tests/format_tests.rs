use qoi_codec::error::CodecError;
use qoi_codec::img::gray_alpha_to_rgba;
use qoi_codec::img::gray_to_rgba;
use qoi_codec::img::rgb_to_rgba;
use qoi_codec::img::rgba_to_rgb;
use qoi_codec::img::RawImage;
use qoi_codec::ppm;
use qoi_codec::util::read_be32;
use qoi_codec::util::ByteStream;
use qoi_codec::util::TakeArray;
use qoi_codec::util::TakeVec;

#[test]
fn ppm_parse_simple() {
    let mut data = b"P6\n2 1\n255\n".to_vec();
    data.extend_from_slice(&[10, 20, 30, 40, 50, 60]);
    let (w, h, rgba) = ppm::parse_img(&data).unwrap();
    assert_eq!((w, h), (2, 1));
    assert_eq!(rgba, vec![10, 20, 30, 255, 40, 50, 60, 255]);
}

#[test]
fn ppm_parse_with_comments() {
    let mut data = b"P6\n#one comment\n#another\n 3 1 255\n".to_vec();
    data.extend_from_slice(&[1, 2, 3, 4, 5, 6, 7, 8, 9]);
    let (w, h, rgba) = ppm::parse_img(&data).unwrap();
    assert_eq!((w, h), (3, 1));
    assert_eq!(rgba.len(), 12);
    assert_eq!(&rgba[0..4], &[1, 2, 3, 255]);
}

#[test]
fn ppm_bad_magic() {
    assert_eq!(ppm::parse_img(b"P5\n1 1\n255\n\x00\x00\x00"), Err(CodecError::BadMagic));
}

#[test]
fn ppm_bad_maxval() {
    assert_eq!(
        ppm::parse_img(b"P6\n1 1\n254\n\x00\x00\x00"),
        Err(CodecError::BadHeaderField)
    );
}

#[test]
fn ppm_missing_digits() {
    assert_eq!(ppm::parse_img(b"P6\nx 1\n255\n\x00\x00\x00"), Err(CodecError::BadHeaderField));
}

#[test]
fn ppm_truncated_header() {
    assert_eq!(ppm::parse_img(b"P"), Err(CodecError::TruncatedStream));
    assert_eq!(ppm::parse_img(b"P6  "), Err(CodecError::TruncatedStream));
}

#[test]
fn ppm_truncated_body() {
    assert_eq!(ppm::parse_img(b"P6\n2 1\n255\n\x01\x02"), Err(CodecError::TruncatedStream));
}

#[test]
fn ppm_trailing_bytes() {
    let mut data = b"P6\n1 1\n255\n".to_vec();
    data.extend_from_slice(&[1, 2, 3, 4]);
    assert_eq!(ppm::parse_img(&data), Err(CodecError::MalformedRaster));
}

#[test]
fn ppm_emit_exact_bytes() {
    let img = RawImage(2, 1, vec![10, 20, 30, 255, 40, 50, 60, 128]);
    let out = ppm::encode_img(&img);
    let mut expected = b"P6\n2 1\n255\n".to_vec();
    expected.extend_from_slice(&[10, 20, 30, 40, 50, 60]);
    assert_eq!(out, expected);
}

#[test]
fn ppm_emit_multi_digit_dimensions() {
    let img = RawImage(12, 10, vec![0; 4 * 12 * 10]);
    let out = ppm::encode_img(&img);
    assert!(out.starts_with(b"P6\n12 10\n255\n"));
    assert_eq!(out.len(), 13 + 3 * 12 * 10);
}

#[test]
fn ppm_round_trip() {
    let mut rgba = Vec::new();
    for k in 0..24u32 {
        rgba.extend_from_slice(&[k as u8, (2 * k) as u8, (3 * k) as u8, 255]);
    }
    let img = RawImage(6, 4, rgba);
    let out = ppm::encode_img(&img);
    let (w, h, back) = ppm::parse_img(&out).unwrap();
    assert_eq!((w, h), (6, 4));
    assert_eq!(back, img.2);
}

#[test]
fn raster_to_bytes_layout() {
    let img = RawImage(1, 2, vec![1, 2, 3, 4, 5, 6, 7, 8]);
    let bytes = img.to_bytes();
    assert_eq!(bytes, vec![0, 0, 0, 1, 0, 0, 0, 2, 1, 2, 3, 4, 5, 6, 7, 8]);
}

#[test]
fn raster_from_bytes_round_trip() {
    let img = RawImage(2, 1, vec![9, 8, 7, 6, 5, 4, 3, 2]);
    let bytes = img.to_bytes();
    let back = RawImage::from_bytes(&bytes).unwrap();
    assert_eq!(back.0, 2);
    assert_eq!(back.1, 1);
    assert_eq!(back.2, img.2);
}

#[test]
fn raster_from_bytes_rejects_bad_length() {
    let img = RawImage(2, 1, vec![9, 8, 7, 6, 5, 4, 3, 2]);
    let mut bytes = img.to_bytes();
    bytes.push(0);
    assert!(matches!(RawImage::from_bytes(&bytes), Err(CodecError::MalformedRaster)));
    assert!(matches!(RawImage::from_bytes(&[1, 2, 3]), Err(CodecError::MalformedRaster)));
}

#[test]
fn channel_expansions() {
    assert_eq!(rgb_to_rgba(&[1, 2, 3, 4, 5, 6]), vec![1, 2, 3, 255, 4, 5, 6, 255]);
    assert_eq!(gray_to_rgba(&[7, 9]), vec![7, 7, 7, 255, 9, 9, 9, 255]);
    assert_eq!(gray_alpha_to_rgba(&[7, 100]), vec![7, 7, 7, 100]);
    assert_eq!(rgba_to_rgb(&[1, 2, 3, 9, 4, 5, 6, 8]), vec![1, 2, 3, 4, 5, 6]);
}

#[test]
fn byte_stream_take_array() {
    let data = [1u8, 2, 3, 4, 5];
    let mut s = ByteStream::new(&data);
    assert_eq!(s.take_array(2), Some(vec![1, 2]));
    assert_eq!(s.take_array(4), None);
    assert_eq!(s.take_array(3), Some(vec![3, 4, 5]));
    assert_eq!(s.take_array(1), None);
    assert_eq!(s.take_array(0), Some(vec![]));
}

#[test]
fn byte_stream_take_vec() {
    let data = [1u8, 2, 3, 4, 5];
    let mut s = ByteStream::new(&data);
    assert_eq!(s.take_vec(3), vec![1, 2, 3]);
    assert_eq!(s.take_vec(9), vec![4, 5]);
    assert_eq!(s.take_vec(2), Vec::<u8>::new());
}

#[test]
fn read_be32_layout() {
    let data = [0x12u8, 0x34, 0x56, 0x78, 0x9A];
    assert_eq!(read_be32(&data, 0), 0x12345678);
    assert_eq!(read_be32(&data, 1), 0x3456789A);
}
