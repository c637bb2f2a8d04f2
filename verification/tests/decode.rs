//! Decoding encoded images into RGBA bytes.

use std::io::Cursor;

use image::{ImageFormat, Rgba, RgbaImage};
use rustille::decode::{error_from_failure, from_bytes, ImageFailure};
use rustille::{Error, ErrorKind};

fn encode(image: &RgbaImage, format: ImageFormat) -> Vec<u8> {
    let mut bytes = Vec::new();
    image::DynamicImage::ImageRgba8(image.clone())
        .write_to(&mut Cursor::new(&mut bytes), format)
        .unwrap();
    bytes
}

#[test]
fn png_bytes_decode_to_their_pixels() {
    let image = RgbaImage::from_fn(3, 2, |x, y| Rgba([x as u8 * 40, y as u8 * 90, 7, 200 + x as u8]));
    let bytes = encode(&image, ImageFormat::Png);
    let decoded = from_bytes(&bytes).unwrap();
    assert_eq!((decoded.width, decoded.height), (3, 2));
    assert_eq!(decoded.rgba, image.into_raw());
}

#[test]
fn other_formats_decode_too() {
    let image = RgbaImage::from_pixel(4, 4, Rgba([255, 255, 255, 255]));
    for format in [ImageFormat::Bmp, ImageFormat::Tiff, ImageFormat::Gif] {
        let decoded = from_bytes(&encode(&image, format)).unwrap();
        assert_eq!((decoded.width, decoded.height), (4, 4), "{format:?}");
        assert_eq!(decoded.rgba.len(), 4 * 4 * 4);
        assert!(decoded.rgba.iter().all(|v| *v == 255), "{format:?}");
    }
}

#[test]
fn malformed_input_is_reported_not_panicked() {
    let cases: [&[u8]; 4] = [
        b"",
        b"not an image at all",
        b"\x89PNG\r\n\x1a\n\x00\x00\x00\x00garbage",
        &[0xFF; 64],
    ];
    for bytes in cases {
        let error = from_bytes(bytes).unwrap_err();
        assert!(
            matches!(error.kind(), ErrorKind::Decode | ErrorKind::UnsupportedFormat | ErrorKind::Io),
            "unexpected error for {bytes:?}: {error:?}"
        );
    }
    assert_eq!(from_bytes(b"plain text").unwrap_err().kind(), ErrorKind::UnsupportedFormat);
}

#[test]
fn failures_become_library_errors() {
    match error_from_failure(ImageFailure::Io(std::io::Error::other("gone"))) {
        Error::Io(io) => assert_eq!(io.to_string(), "gone"),
        other => panic!("unexpected error: {other:?}"),
    }
    match error_from_failure(ImageFailure::Unsupported("xcf".to_owned())) {
        Error::UnsupportedFormat(message) => assert_eq!(message, "xcf"),
        other => panic!("unexpected error: {other:?}"),
    }
    match error_from_failure(ImageFailure::Other("truncated".to_owned())) {
        Error::Decode(message) => assert_eq!(message, "truncated"),
        other => panic!("unexpected error: {other:?}"),
    }
}

#[test]
fn unknown_formats_say_so() {
    match from_bytes(b"plain text").unwrap_err() {
        Error::UnsupportedFormat(message) => assert_eq!(message, "The image format could not be determined"),
        other => panic!("unexpected error: {other:?}"),
    }
    match from_bytes(b"").unwrap_err() {
        Error::UnsupportedFormat(message) => assert_eq!(message, "The image format could not be determined"),
        other => panic!("unexpected error: {other:?}"),
    }
}
