//! The cell encoding: masks, dot bits and the Braille block.

use rustille::braille::{
    char_for_mask, dot_bit, dot_bit_or_zero, dot_number_bit, mask_for_char, pack, unpack, BLANK,
    BRAILLE_BASE, CELL_HEIGHT, CELL_WIDTH,
};

#[test]
fn base_and_blank_agree() {
    assert_eq!(BLANK as u32, BRAILLE_BASE);
    assert_eq!(char_for_mask(0), BLANK);
}

#[test]
fn every_mask_maps_to_its_code_point() {
    for mask in 0u8..=255 {
        let c = char_for_mask(mask);
        assert_eq!(
            c as u32,
            BRAILLE_BASE + u32::from(mask),
            "mask {mask:#04x} produced U+{:04X}",
            c as u32
        );
        assert_eq!(mask_for_char(c), Some(mask));
        assert_eq!(c.len_utf8(), 3);
    }
}

#[test]
fn all_masks_are_distinct() {
    let mut seen = [false; 256];
    for mask in 0u8..=255 {
        let idx = (char_for_mask(mask) as u32 - BRAILLE_BASE) as usize;
        assert!(!seen[idx], "duplicate character for mask {mask:#04x}");
        seen[idx] = true;
    }
    assert!(seen.iter().all(|s| *s));
}

#[test]
fn dot_numbers_match_coordinates() {
    let expected = [
        (1u32, 0u32, 0u32),
        (2, 0, 1),
        (3, 0, 2),
        (4, 1, 0),
        (5, 1, 1),
        (6, 1, 2),
        (7, 0, 3),
        (8, 1, 3),
    ];
    for (dot, x, y) in expected {
        assert_eq!(dot_number_bit(dot), dot_bit(x, y), "dot {dot}");
    }
    assert_eq!(dot_number_bit(0), None);
    assert_eq!(dot_number_bit(9), None);
}

#[test]
fn single_dots_render_expected_characters() {
    assert_eq!(char_for_mask(0x01), '⠁');
    assert_eq!(char_for_mask(0x02), '⠂');
    assert_eq!(char_for_mask(0x04), '⠄');
    assert_eq!(char_for_mask(0x08), '⠈');
    assert_eq!(char_for_mask(0x10), '⠐');
    assert_eq!(char_for_mask(0x20), '⠠');
    assert_eq!(char_for_mask(0x40), '⡀');
    assert_eq!(char_for_mask(0x80), '⢀');
    assert_eq!(char_for_mask(0xFF), '⣿');
}

#[test]
fn out_of_range_dots_have_no_bit() {
    assert_eq!(dot_bit(CELL_WIDTH, 0), None);
    assert_eq!(dot_bit(0, CELL_HEIGHT), None);
    assert_eq!(dot_bit_or_zero(9, 9), 0);
}

#[test]
fn pack_unpack_round_trip() {
    for mask in 0u8..=255 {
        assert_eq!(pack(&unpack(mask)), mask);
    }
}

#[test]
fn pack_matches_bit_table() {
    for y in 0..CELL_HEIGHT {
        for x in 0..CELL_WIDTH {
            let mut dots = [[false; 2]; 4];
            dots[y as usize][x as usize] = true;
            assert_eq!(Some(pack(&dots)), dot_bit(x, y));
        }
    }
}

#[test]
fn unpack_then_pack_keeps_every_grid() {
    for mask in 0u8..=255 {
        let dots = unpack(mask);
        assert_eq!(unpack(pack(&dots)), dots);
    }
    let mut grid = [[false; 2]; 4];
    grid[3][1] = true;
    grid[0][0] = true;
    assert_eq!(pack(&grid), 0x81);
    assert_eq!(unpack(pack(&grid)), grid);
}

#[test]
fn dot_bit_or_zero_agrees_with_dot_bit_inside_the_cell() {
    for y in 0..CELL_HEIGHT {
        for x in 0..CELL_WIDTH {
            assert_eq!(Some(dot_bit_or_zero(x, y)), dot_bit(x, y));
        }
    }
    assert_eq!(dot_bit_or_zero(2, 0), 0);
    assert_eq!(dot_bit_or_zero(0, 4), 0);
}
