//! Canvas storage, dot access and shapes, dot by dot.

use rustille::braille;
use rustille::{Canvas, ErrorKind};

#[test]
fn dimensions_round_up_to_whole_cells() {
    let canvas = Canvas::new(5, 3);
    assert_eq!((canvas.width(), canvas.height()), (5, 3));
    assert_eq!((canvas.cells_width(), canvas.cells_height()), (3, 1));
    assert_eq!(canvas.masks().len(), 3);
}

#[test]
fn zero_sized_canvas_renders_nothing() {
    for (w, h) in [(0, 0), (0, 10), (10, 0)] {
        let canvas = Canvas::new(w, h);
        assert_eq!(canvas.render(), "");
        assert!(canvas.is_empty());
        assert_eq!(canvas.count(), 0);
    }
}

#[test]
fn set_unset_toggle() {
    let mut canvas = Canvas::new(2, 4);
    assert!(!canvas.get(0, 0));
    assert!(canvas.set(0, 0));
    assert!(canvas.get(0, 0));
    assert_eq!(canvas.render(), "\u{2801}");

    assert!(canvas.toggle(1, 3));
    assert_eq!(canvas.cell_mask(0, 0), Some(0x81));
    assert!(canvas.toggle(1, 3));
    assert_eq!(canvas.cell_mask(0, 0), Some(0x01));

    assert!(canvas.unset(0, 0));
    assert!(!canvas.get(0, 0));
    assert_eq!(canvas.render(), "\u{2800}");
}

#[test]
fn every_dot_maps_to_its_bit() {
    for y in 0..4 {
        for x in 0..2 {
            let mut canvas = Canvas::new(2, 4);
            canvas.set(x as i32, y as i32);
            assert_eq!(canvas.cell_mask(0, 0), braille::dot_bit(x, y), "dot {x},{y}");
        }
    }
}

#[test]
fn out_of_range_access_is_a_no_op() {
    let mut canvas = Canvas::new(4, 4);
    for (x, y) in [(-1, 0), (0, -1), (4, 0), (0, 4), (i32::MIN, i32::MAX)] {
        assert!(!canvas.set(x, y), "set({x},{y}) should be out of bounds");
        assert!(!canvas.unset(x, y));
        assert!(!canvas.toggle(x, y));
        assert!(!canvas.get(x, y));
        assert!(!canvas.in_bounds(x, y));
    }
    assert!(canvas.is_empty());
    assert_eq!(canvas.cell_mask(99, 0), None);
}

#[test]
fn clear_and_fill() {
    let mut canvas = Canvas::new(4, 8);
    canvas.fill();
    assert_eq!(canvas.count(), 32);
    assert_eq!(canvas.render(), "\u{28FF}\u{28FF}\n\u{28FF}\u{28FF}");
    canvas.clear();
    assert!(canvas.is_empty());
}

#[test]
fn fill_respects_partial_edge_cells() {
    // 3x2 dots occupies a 2x1 cell grid; only 6 of the 16 dots are real.
    let mut canvas = Canvas::new(3, 2);
    canvas.fill();
    assert_eq!(canvas.count(), 6);
    assert_eq!(canvas.cell_mask(0, 0), Some(0x01 | 0x02 | 0x08 | 0x10));
    assert_eq!(canvas.cell_mask(1, 0), Some(0x01 | 0x02));
    for y in 0..2 {
        for x in 0..3 {
            assert!(canvas.get(x, y));
        }
    }
}

#[test]
fn horizontal_and_vertical_lines() {
    let mut canvas = Canvas::new(8, 8);
    canvas.line(0, 0, 7, 0);
    assert_eq!(canvas.count(), 8);
    for x in 0..8 {
        assert!(canvas.get(x, 0));
    }
    canvas.clear();
    canvas.line(3, 0, 3, 7);
    assert_eq!(canvas.count(), 8);
    for y in 0..8 {
        assert!(canvas.get(3, y));
    }
}

#[test]
fn diagonal_line_is_symmetric() {
    let mut forward = Canvas::new(16, 16);
    forward.line(0, 0, 15, 15);
    let mut backward = Canvas::new(16, 16);
    backward.line(15, 15, 0, 0);
    assert!(forward == backward);
    assert_eq!(forward.count(), 16);
    for i in 0..16 {
        assert!(forward.get(i, i));
    }
}

#[test]
fn lines_are_clipped_not_wrapped() {
    let mut canvas = Canvas::new(8, 8);
    canvas.line(-50, 4, 50, 4);
    assert_eq!(canvas.count(), 8);
    for x in 0..8 {
        assert!(canvas.get(x, 4));
    }
}

#[test]
fn unset_line_erases() {
    let mut canvas = Canvas::new(8, 8);
    canvas.fill();
    canvas.unset_line(0, 0, 7, 7);
    assert_eq!(canvas.count(), 64 - 8);
    assert!(!canvas.get(3, 3));
}

#[test]
fn rectangle_outline_and_fill() {
    let mut canvas = Canvas::new(8, 8);
    canvas.rectangle(1, 1, 6, 6);
    assert_eq!(canvas.count(), 6 * 4 - 4);
    assert!(canvas.get(1, 1));
    assert!(!canvas.get(3, 3));

    canvas.clear();
    canvas.filled_rectangle(1, 1, 6, 6);
    assert_eq!(canvas.count(), 36);
    assert!(canvas.get(3, 3));
}

#[test]
fn filled_rectangle_clamps_to_canvas() {
    let mut canvas = Canvas::new(4, 4);
    canvas.filled_rectangle(-1000, -1000, 1000, 1000);
    assert_eq!(canvas.count(), 16);
}

#[test]
fn circles_stay_inside_their_radius() {
    let mut canvas = Canvas::new(32, 32);
    canvas.circle(16, 16, 10);
    assert!(!canvas.is_empty());
    for y in 0..32 {
        for x in 0..32 {
            if canvas.get(x, y) {
                let distance = (((x - 16) * (x - 16) + (y - 16) * (y - 16)) as f64).sqrt();
                assert!((distance - 10.0).abs() <= 1.5, "dot {x},{y} at {distance}");
            }
        }
    }
    canvas.clear();
    canvas.filled_circle(16, 16, 4);
    assert!(canvas.get(16, 16));
    assert!(!canvas.get(16, 25));
    canvas.clear();
    canvas.circle(0, 0, -1);
    canvas.filled_circle(0, 0, -1);
    assert!(canvas.is_empty());
}

#[test]
fn render_into_appends_and_display_matches() {
    let mut canvas = Canvas::new(2, 8);
    canvas.set(0, 0);
    canvas.set(1, 7);
    let mut buffer = String::from("> ");
    canvas.render_into(&mut buffer);
    assert_eq!(buffer, format!("> {}", canvas.render()));
    assert_eq!(canvas.render(), "\u{2801}\n\u{2880}");
}

#[test]
fn try_new_rejects_absurd_sizes() {
    let err = Canvas::try_new(u32::MAX, u32::MAX).unwrap_err();
    assert_eq!(err.kind(), ErrorKind::InvalidDimensions);
    assert!(Canvas::try_new(1, 1).is_ok());
}

#[test]
fn extreme_but_valid_canvas_works() {
    // 2 dots wide, a million tall: 1 column x 250_000 rows of characters.
    let mut canvas = Canvas::new(2, 1_000_000);
    assert_eq!(canvas.cells_height(), 250_000);
    canvas.set(1, 999_999);
    assert_eq!(canvas.count(), 1);
    assert_eq!(canvas.cell_mask(0, 249_999), Some(0x80));
}

#[test]
fn the_readme_canvas_example_runs() {
    let mut canvas = Canvas::new(100, 50);
    canvas.set(10, 10);
    canvas.set(11, 11);
    canvas.unset(10, 10);
    assert!(!canvas.get(10, 10));
    assert!(canvas.get(11, 11));
    assert_eq!(canvas.render().lines().count(), 13);
}

#[test]
fn toggling_a_dot_twice_restores_the_canvas() {
    let mut canvas = Canvas::new(6, 6);
    canvas.line(0, 0, 5, 5);
    let before = canvas.clone();
    assert!(canvas.toggle(2, 3));
    assert!(canvas != before);
    assert!(canvas.toggle(2, 3));
    assert!(canvas == before);
}

#[test]
fn count_matches_the_dots_that_read_as_set() {
    let mut canvas = Canvas::new(13, 9);
    canvas.circle(6, 4, 4);
    canvas.line(0, 8, 12, 0);
    let mut lit = 0u32;
    for y in 0..9 {
        for x in 0..13 {
            if canvas.get(x, y) {
                lit += 1;
            }
        }
    }
    assert_eq!(canvas.count(), lit);
}

#[test]
fn circle_dots_lie_in_the_radius_band() {
    for radius in 0..12i32 {
        let mut canvas = Canvas::new(40, 40);
        canvas.circle(20, 20, radius);
        for y in 0..40 {
            for x in 0..40 {
                if canvas.get(x, y) {
                    let d2 = (x - 20) * (x - 20) + (y - 20) * (y - 20);
                    assert!(d2 >= radius * radius - radius && d2 <= radius * radius + radius);
                }
            }
        }
    }
}
