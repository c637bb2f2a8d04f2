//! Output sizing and packing a dot plane into Braille text.

use rustille::render::{pack_cells, resolve_output_size};
use rustille::{ColorMode, ErrorKind, Fit, DEFAULT_WIDTH};

#[test]
fn output_size_follows_the_requested_box() {
    assert_eq!(resolve_output_size(10, 10, Some(40), Some(20), Fit::Stretch, 99, 99).unwrap(), (40, 20));
    assert_eq!(resolve_output_size(10, 10, Some(40), Some(20), Fit::Fill, 99, 99).unwrap(), (40, 20));
    assert_eq!(resolve_output_size(10, 10, Some(40), Some(20), Fit::Contain, 10, 80).unwrap(), (40, 10));
    assert_eq!(resolve_output_size(10, 10, Some(40), Some(20), Fit::Contain, 30, 26).unwrap(), (26, 20));
    assert_eq!(resolve_output_size(10, 10, Some(40), None, Fit::Contain, 13, 0).unwrap(), (40, 13));
    assert_eq!(resolve_output_size(10, 10, None, Some(7), Fit::Contain, 0, 31).unwrap(), (31, 7));
    assert_eq!(resolve_output_size(10, 10, None, None, Fit::Contain, 21, 0).unwrap(), (DEFAULT_WIDTH, 21));
}

#[test]
fn empty_sources_and_huge_outputs_are_rejected() {
    let empty = resolve_output_size(0, 4, Some(8), None, Fit::Contain, 2, 8).unwrap_err();
    assert_eq!(empty.kind(), ErrorKind::InvalidDimensions);
    let huge = resolve_output_size(4, 4, Some(60_000), Some(60_000), Fit::Stretch, 1, 1).unwrap_err();
    assert_eq!(huge.kind(), ErrorKind::InvalidDimensions);
    assert!(resolve_output_size(4, 4, Some(2048), Some(2048), Fit::Stretch, 1, 1).is_ok());
    assert!(resolve_output_size(4, 4, Some(2049), Some(2048), Fit::Stretch, 1, 1).is_err());
}

#[test]
fn a_lit_plane_packs_into_full_cells() {
    let lit = vec![true; 4 * 8];
    let rgb = vec![255u8; 4 * 8 * 3];
    assert_eq!(pack_cells(&lit, &rgb, 2, 2, ColorMode::Plain), "\u{28FF}\u{28FF}\n\u{28FF}\u{28FF}");
}

#[test]
fn single_dots_land_on_their_bits() {
    // A 2x4 plane: light dot (1, 3), the last bit.
    let mut lit = vec![false; 8];
    lit[3 * 2 + 1] = true;
    let rgb = vec![0u8; 24];
    assert_eq!(pack_cells(&lit, &rgb, 1, 1, ColorMode::Plain), "\u{2880}");
    lit[0] = true;
    assert_eq!(pack_cells(&lit, &rgb, 1, 1, ColorMode::Plain), "\u{2881}");
}

#[test]
fn colour_is_the_average_of_lit_dots_and_rows_are_reset() {
    let mut lit = vec![false; 8];
    let mut rgb = vec![0u8; 24];
    lit[0] = true;
    lit[1] = true;
    rgb[0..3].copy_from_slice(&[255, 0, 0]);
    rgb[3..6].copy_from_slice(&[0, 0, 255]);
    let out = pack_cells(&lit, &rgb, 1, 1, ColorMode::TrueColor);
    assert_eq!(out, "\x1b[38;2;127;0;127m\u{2809}\x1b[0m");
    let out = pack_cells(&lit, &rgb, 1, 1, ColorMode::Ansi256);
    assert!(out.starts_with("\x1b[38;5;"));
    assert!(out.ends_with("\u{2809}\x1b[0m"));
}

#[test]
fn blank_rows_carry_no_colour() {
    let lit = vec![false; 2 * 8];
    let rgb = vec![200u8; 2 * 8 * 3];
    assert_eq!(pack_cells(&lit, &rgb, 1, 2, ColorMode::TrueColor), "\u{2800}\n\u{2800}");
}

#[test]
fn a_repeated_colour_is_written_once() {
    let lit = vec![true; 4 * 4];
    let rgb = vec![9u8; 4 * 4 * 3];
    assert_eq!(
        pack_cells(&lit, &rgb, 2, 1, ColorMode::TrueColor),
        "\x1b[38;2;9;9;9m\u{28FF}\u{28FF}\x1b[0m"
    );
}

#[test]
fn plain_output_has_no_escape_sequences() {
    let lit: Vec<bool> = (0..6 * 12).map(|i| i % 3 == 0).collect();
    let rgb: Vec<u8> = (0..6 * 12 * 3).map(|i| (i * 7 % 256) as u8).collect();
    let out = pack_cells(&lit, &rgb, 3, 3, ColorMode::Plain);
    assert!(!out.contains('\x1b'));
    assert_eq!(out.lines().count(), 3);
}

/// `text` with every ESC ... `m` sequence deleted.
fn strip_escapes(text: &str) -> String {
    let mut out = String::new();
    let mut in_escape = false;
    for c in text.chars() {
        if in_escape {
            in_escape = c != 'm';
        } else if c == '\x1b' {
            in_escape = true;
        } else {
            out.push(c);
        }
    }
    out
}

#[test]
fn colour_output_strips_to_plain_output() {
    let lit: Vec<bool> = (0..8 * 12).map(|i| i % 5 != 1).collect();
    let rgb: Vec<u8> = (0..8 * 12 * 3).map(|i| (i * 37 % 256) as u8).collect();
    let plain = pack_cells(&lit, &rgb, 4, 3, ColorMode::Plain);
    for mode in [ColorMode::Ansi256, ColorMode::TrueColor] {
        let coloured = pack_cells(&lit, &rgb, 4, 3, mode);
        assert!(coloured.contains('\x1b'));
        assert_eq!(strip_escapes(&coloured), plain);
    }
}

#[test]
fn derived_sides_are_at_least_one_cell() {
    assert_eq!(resolve_output_size(10, 10, Some(5), None, Fit::Contain, 0, 0).unwrap(), (5, 1));
    assert_eq!(resolve_output_size(10, 10, None, Some(5), Fit::Contain, 0, 0).unwrap(), (1, 5));
    assert_eq!(resolve_output_size(10, 10, None, None, Fit::Contain, 0, 0).unwrap(), (DEFAULT_WIDTH, 1));
    assert_eq!(resolve_output_size(10, 10, Some(5), Some(5), Fit::Contain, 0, 0).unwrap(), (5, 1));
}
