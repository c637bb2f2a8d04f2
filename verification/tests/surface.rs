//! Pixel buffers: compositing, validation and cropping.

use rustille::surface::Surface;
use rustille::{Error, ErrorKind};

#[test]
fn rgba_compositing_over_black_and_white() {
    let data = [255, 0, 0, 255, 255, 0, 0, 0, 0, 255, 0, 128];
    let over_black = Surface::from_rgba(3, 1, &data, [0, 0, 0]).unwrap();
    assert_eq!(&over_black.data()[0..3], &[255, 0, 0]);
    assert_eq!(&over_black.data()[3..6], &[0, 0, 0]);
    assert_eq!(over_black.data()[7], 128);

    let over_white = Surface::from_rgba(3, 1, &data, [255, 255, 255]).unwrap();
    assert_eq!(&over_white.data()[3..6], &[255, 255, 255]);
    assert_eq!(over_white.data()[6], 127);
}

#[test]
fn buffer_length_is_checked() {
    let err = Surface::from_rgba(2, 2, &[0; 8], [0, 0, 0]).unwrap_err();
    match err {
        Error::InvalidBufferLength { expected, actual } => {
            assert_eq!((expected, actual), (16, 8));
        }
        other => panic!("unexpected error: {other:?}"),
    }
    assert!(Surface::from_rgb(2, 2, &[0; 12]).is_ok());
    assert!(Surface::from_rgb(2, 2, &[0; 11]).is_err());
    assert!(Surface::from_luma(2, 2, &[0; 4]).is_ok());
}

#[test]
fn image_zero_dimensions_are_rejected() {
    for (w, h) in [(0, 1), (1, 0), (0, 0)] {
        let err = Surface::from_rgba(w, h, &[], [0, 0, 0]).unwrap_err();
        assert_eq!(err.kind(), ErrorKind::InvalidDimensions);
    }
}

#[test]
fn luma_expands_to_grey() {
    let surface = Surface::from_luma(2, 1, &[10, 200]).unwrap();
    assert_eq!(surface.data(), &[10, 10, 10, 200, 200, 200]);
}

#[test]
fn crop_clamps_to_the_surface() {
    let surface = Surface::from_luma(4, 4, &(0..16).collect::<Vec<u8>>()).unwrap();
    let cropped = surface.crop(1, 1, 2, 2);
    assert_eq!(cropped.width(), 2);
    assert_eq!(cropped.height(), 2);
    assert_eq!(cropped.data()[0], 5);
    let clamped = surface.crop(3, 3, 10, 10);
    assert_eq!((clamped.width(), clamped.height()), (1, 1));
}

#[test]
fn crop_takes_whole_rows_of_the_window() {
    let surface = Surface::from_luma(4, 3, &(0..12).collect::<Vec<u8>>()).unwrap();
    let cropped = surface.crop(1, 1, 2, 5);
    assert_eq!((cropped.width(), cropped.height()), (2, 2));
    assert_eq!(cropped.data(), &[5, 5, 5, 6, 6, 6, 9, 9, 9, 10, 10, 10]);
    let origin_clamped = surface.crop(9, 9, 0, 0);
    assert_eq!((origin_clamped.width(), origin_clamped.height()), (1, 1));
    assert_eq!(origin_clamped.data(), &[11, 11, 11]);
}

#[test]
fn rgb_is_taken_as_it_is_and_alpha_rounds() {
    let surface = Surface::from_rgb(1, 2, &[1, 2, 3, 4, 5, 6]).unwrap();
    assert_eq!(surface.data(), &[1, 2, 3, 4, 5, 6]);
    // 200 at alpha 64 over 100: (200 * 64 + 100 * 191 + 127) / 255 = 125.
    let blended = Surface::from_rgba(1, 1, &[200, 200, 200, 64], [100, 100, 100]).unwrap();
    assert_eq!(blended.data(), &[125, 125, 125]);
}

#[test]
fn pixel_counts_and_lengths_are_checked() {
    assert_eq!(Surface::checked_pixels(3, 5).unwrap(), 15);
    assert_eq!(Surface::checked_pixels(0, 5).unwrap_err().kind(), ErrorKind::InvalidDimensions);
    assert!(Surface::expect_len(&[0; 6], 2, 3).is_ok());
    match Surface::expect_len(&[0; 5], 2, 3).unwrap_err() {
        Error::InvalidBufferLength { expected, actual } => assert_eq!((expected, actual), (6, 5)),
        other => panic!("unexpected error: {other:?}"),
    }
    assert_eq!(Surface::from_luma(3, 1, &[0; 2]).unwrap_err().kind(), ErrorKind::InvalidBufferLength);
}
