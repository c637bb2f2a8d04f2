//! Palette mapping and colour escapes.

use rustille::color::{ansi256_index, escape_budget, grey_of, luminance_fixed, push_foreground, push_u8_decimal, RESET, UNIT};
use rustille::ColorMode;

/// The closest palette entry by exhaustive search, the lowest index on a tie.
fn ansi256_by_search(r: u8, g: u8, b: u8) -> u8 {
    const LEVELS: [u8; 6] = [0, 95, 135, 175, 215, 255];
    let entry = |i: u32| -> [u8; 3] {
        if i >= 232 {
            let v = (8 + 10 * (i - 232)) as u8;
            [v, v, v]
        } else {
            let c = i - 16;
            [LEVELS[(c / 36) as usize], LEVELS[((c / 6) % 6) as usize], LEVELS[(c % 6) as usize]]
        }
    };
    let dist = |c: [u8; 3]| -> u32 {
        u32::from(r.abs_diff(c[0])).pow(2) + u32::from(g.abs_diff(c[1])).pow(2) + u32::from(b.abs_diff(c[2])).pow(2)
    };
    let mut best = 16u32;
    for i in 17..=255u32 {
        if dist(entry(i)) < dist(entry(best)) {
            best = i;
        }
    }
    best as u8
}

#[test]
fn ansi256_known_entries() {
    assert_eq!(ansi256_index(0, 0, 0), 16);
    assert_eq!(ansi256_index(255, 255, 255), 231);
    assert_eq!(ansi256_index(255, 0, 0), 196);
    assert_eq!(ansi256_index(0, 255, 0), 46);
    assert_eq!(ansi256_index(0, 0, 255), 21);
}

#[test]
fn ansi256_prefers_the_grey_ramp_for_greys() {
    let index = ansi256_index(0x77, 0x77, 0x77);
    assert!((232..=255).contains(&index), "got {index}");
}

#[test]
fn ansi256_stays_in_range() {
    for r in (0..=255u8).step_by(17) {
        for g in (0..=255u8).step_by(17) {
            for b in (0..=255u8).step_by(17) {
                let index = ansi256_index(r, g, b);
                assert!(index >= 16, "index {index} for {r},{g},{b}");
            }
        }
    }
}

#[test]
fn ansi256_is_the_closest_entry() {
    for r in (0..=255u8).step_by(5) {
        for g in (0..=255u8).step_by(5) {
            for b in (0..=255u8).step_by(5) {
                assert_eq!(ansi256_index(r, g, b), ansi256_by_search(r, g, b), "{r},{g},{b}");
            }
        }
    }
    for v in 0..=255u8 {
        assert_eq!(ansi256_index(v, v, v), ansi256_by_search(v, v, v), "grey {v}");
    }
}

#[test]
fn a_grey_step_beats_a_farther_cube_colour() {
    // (100, 120, 100): cube entry 65 is at squared distance 275, grey 242
    // (108, 108, 108) at 272.
    assert_eq!(ansi256_index(100, 120, 100), 242);
    // Equal distances go to the lower index: 115 is 20 from both 95 and 135.
    assert_eq!(ansi256_index(115, 0, 0), 52);
}

#[test]
fn luminance_matches_single_precision() {
    for r in (0..=255u8).step_by(3) {
        for g in (0..=255u8).step_by(3) {
            for b in (0..=255u8).step_by(3) {
                let float = 0.2126f32 * f32::from(r) + 0.7152 * f32::from(g) + 0.0722 * f32::from(b);
                let fixed = luminance_fixed(r, g, b) as f32 / UNIT as f32;
                assert_eq!(fixed.to_bits(), float.to_bits(), "{r},{g},{b}");
            }
        }
    }
}

#[test]
fn grey_levels_round_the_luminance() {
    assert_eq!(grey_of(0, 0, 0), 0);
    assert_eq!(grey_of(255, 255, 255), 255);
    assert_eq!(grey_of(255, 0, 0), 54);
    assert_eq!(grey_of(0, 255, 0), 182);
    assert_eq!(grey_of(0, 0, 255), 18);
}

#[test]
fn decimal_formatting_matches_std() {
    for value in 0..=255u8 {
        let mut out = String::new();
        push_u8_decimal(&mut out, value);
        assert_eq!(out, value.to_string());
    }
}

#[test]
fn escapes_are_written_only_when_asked() {
    let mut out = String::new();
    push_foreground(&mut out, ColorMode::Plain, [1, 2, 3]);
    assert!(out.is_empty());

    push_foreground(&mut out, ColorMode::TrueColor, [1, 2, 3]);
    assert_eq!(out, "\x1b[38;2;1;2;3m");
    assert!(out.len() <= escape_budget(ColorMode::TrueColor));

    out.clear();
    push_foreground(&mut out, ColorMode::Ansi256, [255, 255, 255]);
    assert_eq!(out, "\x1b[38;5;231m");
    assert!(out.len() <= escape_budget(ColorMode::Ansi256));
}

#[test]
fn the_longest_escapes_fit_their_budget() {
    let mut out = String::new();
    push_foreground(&mut out, ColorMode::TrueColor, [255, 255, 255]);
    assert_eq!(out, "\x1b[38;2;255;255;255m");
    assert_eq!(out.len(), escape_budget(ColorMode::TrueColor));
    out.clear();
    push_foreground(&mut out, ColorMode::Ansi256, [0, 0, 0]);
    assert_eq!(out, "\x1b[38;5;16m");
    assert_eq!(escape_budget(ColorMode::Plain), 0);
    assert_eq!(RESET, "\x1b[0m");
}
