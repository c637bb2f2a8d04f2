//! The decisions of the image → Braille pipeline that involve no floating
//! point: choosing the output size and packing a thresholded dot plane into
//! Braille characters with optional colour.
//!
//! ```text
//! decode ─► alpha compositing ─► fit/crop ─► resize ─► luminance
//!        ─► invert ─► dither ─► threshold ─► 2×4 packing ─► Unicode
//! ```

use vstd::prelude::*;

use crate::braille::{self, braille_char, dot_mask, CELL_HEIGHT, CELL_WIDTH};
use crate::color::{self, foreground_escape, RESET};
use crate::error::Error;
use crate::options::{ColorMode, Fit, DEFAULT_WIDTH, MAX_OUTPUT_CELLS};
use crate::text::{decimal, push_decimal};

verus! {

/// The output size, in character cells, for a `source_width`×`source_height`
/// image, given the requested `width` and `height` and the fit mode.
///
/// `height_for_width` is the height that keeps the image's aspect ratio at the
/// width actually used (the requested width, or [`DEFAULT_WIDTH`] when none
/// is given), and `width_for_height` the width that keeps it at the requested
/// height; the caller computes both from the aspect ratios. Each counts as
/// at least one cell.
pub open spec fn output_size(
    width: Option<u32>,
    height: Option<u32>,
    fit: Fit,
    height_for_width: u32,
    width_for_height: u32,
) -> (u32, u32) {
    let height_for_width: u32 = if height_for_width < 1 { 1 } else { height_for_width };
    let width_for_height: u32 = if width_for_height < 1 { 1 } else { width_for_height };
    match (width, height) {
        (Some(w), Some(h)) => match fit {
            Fit::Contain => if height_for_width <= h {
                (w, height_for_width)
            } else {
                (if width_for_height < w { width_for_height } else { w }, h)
            },
            _ => (w, h),
        },
        (Some(w), None) => (w, height_for_width),
        (None, Some(h)) => (width_for_height, h),
        (None, None) => (DEFAULT_WIDTH, height_for_width),
    }
}

/// The message for an output of `size` cells that exceeds
/// [`MAX_OUTPUT_CELLS`].
pub open spec fn oversize_message(size: (u32, u32)) -> Seq<char> {
    "output would be "@ + decimal(size.0 as nat) + seq!['x'] + decimal(size.1 as nat) + " = "@
        + decimal((size.0 * size.1) as nat) + " character cells, over the "@ + decimal(MAX_OUTPUT_CELLS as nat)
        + " cell limit"@
}

/// Works out the output size in character cells.
///
/// # Errors
///
/// [`Error::InvalidDimensions`] for an empty source image, or when the output
/// would exceed [`MAX_OUTPUT_CELLS`] character cells.
pub fn resolve_output_size(
    source_width: u32,
    source_height: u32,
    width: Option<u32>,
    height: Option<u32>,
    fit: Fit,
    height_for_width: u32,
    width_for_height: u32,
) -> (size: Result<(u32, u32), Error>)
    ensures
        size is Ok <==> ({
            let (w, h) = output_size(width, height, fit, height_for_width, width_for_height);
            source_width >= 1 && source_height >= 1 && w * h <= MAX_OUTPUT_CELLS
        }),
        size matches Ok(s) ==> s == output_size(width, height, fit, height_for_width, width_for_height),
        size matches Err(e) ==> e matches Error::InvalidDimensions(m) && m@ == (if source_width == 0 || source_height == 0 {
            "source image must be non-empty, got "@ + decimal(source_width as nat) + seq!['x'] + decimal(source_height as nat)
        } else {
            oversize_message(output_size(width, height, fit, height_for_width, width_for_height))
        }),
{
    if source_width == 0 || source_height == 0 {
        let mut message = String::new();
        message.push_str("source image must be non-empty, got ");
        push_decimal(&mut message, source_width as u64);
        message.push('x');
        push_decimal(&mut message, source_height as u64);
        assert(message@ =~= "source image must be non-empty, got "@ + decimal(source_width as nat) + seq!['x']
            + decimal(source_height as nat));
        return Err(Error::invalid_dimensions(message));
    }
    let height_for_width: u32 = if height_for_width < 1 { 1 } else { height_for_width };
    let width_for_height: u32 = if width_for_height < 1 { 1 } else { width_for_height };
    let (w, h): (u32, u32) = match (width, height) {
        (Some(w), Some(h)) => match fit {
            Fit::Contain => if height_for_width <= h {
                (w, height_for_width)
            } else {
                (if width_for_height < w { width_for_height } else { w }, h)
            },
            _ => (w, h),
        },
        (Some(w), None) => (w, height_for_width),
        (None, Some(h)) => (width_for_height, h),
        (None, None) => (DEFAULT_WIDTH, height_for_width),
    };
    assert(w * h <= 0xFFFF_FFFFu64 * 0xFFFF_FFFFu64) by (nonlinear_arith)
        requires w <= 0xFFFF_FFFFu64, h <= 0xFFFF_FFFFu64;
    let cells: u64 = w as u64 * h as u64;
    if cells > MAX_OUTPUT_CELLS {
        let mut message = String::new();
        message.push_str("output would be ");
        push_decimal(&mut message, w as u64);
        message.push('x');
        push_decimal(&mut message, h as u64);
        message.push_str(" = ");
        push_decimal(&mut message, cells);
        message.push_str(" character cells, over the ");
        push_decimal(&mut message, MAX_OUTPUT_CELLS);
        message.push_str(" cell limit");
        assert(message@ =~= oversize_message((w, h)));
        return Err(Error::invalid_dimensions(message));
    }
    Ok((w, h))
}


/// Every output has at least one cell each way when no requested side is
/// zero (which option validation rules out).
pub proof fn lemma_output_size_positive(
    width: Option<u32>,
    height: Option<u32>,
    fit: Fit,
    height_for_width: u32,
    width_for_height: u32,
)
    requires
        width != Some(0u32),
        height != Some(0u32),
    ensures
        output_size(width, height, fit, height_for_width, width_for_height).0 >= 1,
        output_size(width, height, fit, height_for_width, width_for_height).1 >= 1,
{
}

/// With both a width and a height requested, `contain` never leaves the box
/// and keeps one side of it, while `fill` and `stretch` use the box exactly.
pub proof fn lemma_output_fits_box(w: u32, h: u32, fit: Fit, height_for_width: u32, width_for_height: u32)
    ensures
        ({
            let (ow, oh) = output_size(Some(w), Some(h), fit, height_for_width, width_for_height);
            &&& fit == Fit::Contain ==> ow <= w && oh <= h && (ow == w || oh == h)
            &&& fit != Fit::Contain ==> ow == w && oh == h
        }),
{
}

/// Index, in a dot plane `dots_width` dots wide, of dot `(dx, dy)` of cell
/// `(cx, cy)`.
pub open spec fn plane_index(dots_width: int, cx: int, cy: int, dx: int, dy: int) -> int {
    (cy * 4 + dy) * dots_width + cx * 2 + dx
}

/// Index of the `k`-th dot of a cell in scan order: rows top to bottom, and
/// left to right within a row.
pub open spec fn scan_index(dots_width: int, cx: int, cy: int, k: int) -> int {
    plane_index(dots_width, cx, cy, k % 2, k / 2)
}

/// The mask of the lit dots among the first `k` dots of cell `(cx, cy)`.
pub open spec fn scan_bits(lit: Seq<bool>, dots_width: int, cx: int, cy: int, k: int) -> u8
    decreases k,
{
    if k <= 0 {
        0
    } else {
        let j = k - 1;
        let bit = if lit[scan_index(dots_width, cx, cy, j)] { dot_mask(j % 2, j / 2) } else { 0u8 };
        (scan_bits(lit, dots_width, cx, cy, j) | bit) as u8
    }
}

/// How many of the first `k` dots of cell `(cx, cy)` are lit.
pub open spec fn scan_count(lit: Seq<bool>, dots_width: int, cx: int, cy: int, k: int) -> nat
    decreases k,
{
    if k <= 0 {
        0
    } else {
        scan_count(lit, dots_width, cx, cy, k - 1) + if lit[scan_index(dots_width, cx, cy, k - 1)] { 1nat } else { 0nat }
    }
}

/// Sum of channel `c` over the lit dots among the first `k` dots of cell
/// `(cx, cy)`.
pub open spec fn scan_sum(lit: Seq<bool>, rgb: Seq<u8>, dots_width: int, cx: int, cy: int, c: int, k: int) -> nat
    decreases k,
{
    if k <= 0 {
        0
    } else {
        let i = scan_index(dots_width, cx, cy, k - 1);
        scan_sum(lit, rgb, dots_width, cx, cy, c, k - 1) + if lit[i] { rgb[i * 3 + c] as nat } else { 0nat }
    }
}

/// The average colour of the lit dots of cell `(cx, cy)`, channel by channel
/// and rounded down; `None` when no dot is lit.
pub open spec fn cell_colour(lit: Seq<bool>, rgb: Seq<u8>, dots_width: int, cx: int, cy: int) -> Option<(u8, u8, u8)> {
    let count = scan_count(lit, dots_width, cx, cy, 8);
    if count == 0 {
        None
    } else {
        Some((
            (scan_sum(lit, rgb, dots_width, cx, cy, 0, 8) / count) as u8,
            (scan_sum(lit, rgb, dots_width, cx, cy, 1, 8) / count) as u8,
            (scan_sum(lit, rgb, dots_width, cx, cy, 2, 8) / count) as u8,
        ))
    }
}

proof fn lemma_scan_bounds(lit: Seq<bool>, rgb: Seq<u8>, dots_width: int, cx: int, cy: int, c: int, k: int, lo: int, hi: int)
    requires
        0 <= k <= 8,
        forall|j: int| 0 <= j < k && #[trigger] lit[scan_index(dots_width, cx, cy, j)]
            ==> lo <= rgb[scan_index(dots_width, cx, cy, j) * 3 + c] <= hi,
    ensures
        lo * scan_count(lit, dots_width, cx, cy, k) <= scan_sum(lit, rgb, dots_width, cx, cy, c, k)
            <= hi * scan_count(lit, dots_width, cx, cy, k),
        (scan_count(lit, dots_width, cx, cy, k) == 0)
            <==> (forall|j: int| 0 <= j < k ==> !#[trigger] lit[scan_index(dots_width, cx, cy, j)]),
    decreases k,
{
    if k == 0 {
        assert(lo * 0 == 0 && hi * 0 == 0);
    } else {
        lemma_scan_bounds(lit, rgb, dots_width, cx, cy, c, k - 1, lo, hi);
        let n = scan_count(lit, dots_width, cx, cy, k - 1);
        let sum = scan_sum(lit, rgb, dots_width, cx, cy, c, k - 1);
        let i = scan_index(dots_width, cx, cy, k - 1);
        if lit[i] {
            let v = rgb[i * 3 + c] as int;
            assert(scan_count(lit, dots_width, cx, cy, k) == n + 1);
            assert(scan_sum(lit, rgb, dots_width, cx, cy, c, k) == sum + v);
            assert(lo <= v <= hi);
            assert(lo * (n + 1) <= sum + v <= hi * (n + 1)) by (nonlinear_arith)
                requires lo * n <= sum <= hi * n, lo <= v <= hi;
        } else {
            assert(scan_count(lit, dots_width, cx, cy, k) == n);
            assert(scan_sum(lit, rgb, dots_width, cx, cy, c, k) == sum);
        }
        let nk = scan_count(lit, dots_width, cx, cy, k);
        let sk = scan_sum(lit, rgb, dots_width, cx, cy, c, k);
        assert(lo * nk <= sk <= hi * nk) by (nonlinear_arith)
            requires
                nk == n + 1 ==> lo * (n + 1) <= sk <= hi * (n + 1),
                nk == n ==> lo * n <= sk <= hi * n,
                nk == n || nk == n + 1;
        if scan_count(lit, dots_width, cx, cy, k) == 0 {
            assert forall|j: int| 0 <= j < k implies !#[trigger] lit[scan_index(dots_width, cx, cy, j)] by {
                if j < k - 1 {
                    assert(!lit[scan_index(dots_width, cx, cy, j)]);
                }
            }
        }
    }
}

/// A cell's colour is `None` exactly when none of its eight dots is lit.
/// Otherwise each channel is an average of that channel over the lit dots of
/// the cell: whenever every lit dot has channel `c` within `lo[c]..=hi[c]`,
/// so has the cell, and a cell whose lit dots all share one colour takes
/// exactly that colour.
pub proof fn lemma_cell_colour_average(
    lit: Seq<bool>,
    rgb: Seq<u8>,
    dots_width: int,
    cx: int,
    cy: int,
    lo: [u8; 3],
    hi: [u8; 3],
)
    requires
        forall|dx: int, dy: int, c: int|
            0 <= dx < 2 && 0 <= dy < 4 && 0 <= c < 3 && #[trigger] lit[plane_index(dots_width, cx, cy, dx, dy)]
                ==> lo[c] <= #[trigger] rgb[3 * plane_index(dots_width, cx, cy, dx, dy) + c] <= hi[c],
    ensures
        (cell_colour(lit, rgb, dots_width, cx, cy) is None)
            <==> (forall|dx: int, dy: int| 0 <= dx < 2 && 0 <= dy < 4 ==> !#[trigger] lit[plane_index(dots_width, cx, cy, dx, dy)]),
        cell_colour(lit, rgb, dots_width, cx, cy) matches Some(colour) ==> {
            &&& lo[0] <= colour.0 <= hi[0]
            &&& lo[1] <= colour.1 <= hi[1]
            &&& lo[2] <= colour.2 <= hi[2]
        },
{
    let count = scan_count(lit, dots_width, cx, cy, 8);
    assert forall|c: int| #![trigger scan_sum(lit, rgb, dots_width, cx, cy, c, 8)] 0 <= c < 3 implies {
        let sum = scan_sum(lit, rgb, dots_width, cx, cy, c, 8);
        &&& lo[c] * count <= sum <= hi[c] * count
        &&& (count == 0 <==> forall|j: int| 0 <= j < 8 ==> !#[trigger] lit[scan_index(dots_width, cx, cy, j)])
    } by {
        assert forall|j: int| 0 <= j < 8 && #[trigger] lit[scan_index(dots_width, cx, cy, j)]
            implies lo[c] <= rgb[scan_index(dots_width, cx, cy, j) * 3 + c] <= hi[c] by {
            let (dx, dy) = (j % 2, j / 2);
            assert(scan_index(dots_width, cx, cy, j) == plane_index(dots_width, cx, cy, dx, dy));
            assert(lit[plane_index(dots_width, cx, cy, dx, dy)]);
            assert(scan_index(dots_width, cx, cy, j) * 3 + c == 3 * plane_index(dots_width, cx, cy, dx, dy) + c);
            assert(lo[c] <= rgb[3 * plane_index(dots_width, cx, cy, dx, dy) + c] <= hi[c]);
        }
        lemma_scan_bounds(lit, rgb, dots_width, cx, cy, c, 8, lo[c] as int, hi[c] as int);
    }
    assert((forall|j: int| 0 <= j < 8 ==> !#[trigger] lit[scan_index(dots_width, cx, cy, j)])
        <==> (forall|dx: int, dy: int| 0 <= dx < 2 && 0 <= dy < 4 ==> !#[trigger] lit[plane_index(dots_width, cx, cy, dx, dy)])) by {
        if forall|j: int| 0 <= j < 8 ==> !#[trigger] lit[scan_index(dots_width, cx, cy, j)] {
            assert forall|dx: int, dy: int| 0 <= dx < 2 && 0 <= dy < 4 implies !#[trigger] lit[plane_index(dots_width, cx, cy, dx, dy)] by {
                let j = 2 * dy + dx;
                assert(j % 2 == dx && j / 2 == dy);
                assert(!lit[scan_index(dots_width, cx, cy, j)]);
            }
        }
        if forall|dx: int, dy: int| 0 <= dx < 2 && 0 <= dy < 4 ==> !#[trigger] lit[plane_index(dots_width, cx, cy, dx, dy)] {
            assert forall|j: int| 0 <= j < 8 implies !#[trigger] lit[scan_index(dots_width, cx, cy, j)] by {
                assert(!lit[plane_index(dots_width, cx, cy, j % 2, j / 2)]);
            }
        }
    }
    if count > 0 {
        assert forall|c: int| #![trigger scan_sum(lit, rgb, dots_width, cx, cy, c, 8)] 0 <= c < 3 implies lo[c] <= scan_sum(lit, rgb, dots_width, cx, cy, c, 8) / count <= hi[c] by {
            let sum = scan_sum(lit, rgb, dots_width, cx, cy, c, 8);
            assert(lo[c] * count <= sum <= hi[c] * count);
            assert(lo[c] <= sum / count <= hi[c]) by (nonlinear_arith)
                requires lo[c] * count <= sum <= hi[c] * count, count > 0, lo[c] >= 0;
        }
        assert(lo[0] <= scan_sum(lit, rgb, dots_width, cx, cy, 0, 8) / count <= hi[0]);
        assert(lo[1] <= scan_sum(lit, rgb, dots_width, cx, cy, 1, 8) / count <= hi[1]);
        assert(lo[2] <= scan_sum(lit, rgb, dots_width, cx, cy, 2, 8) / count <= hi[2]);
    }
}

/// The text of the first `n` cells of row `cy`, and the colour last emitted.
/// A cell's colour is written only when colour is on, the cell has a lit dot,
/// and its colour differs from the one in effect.
pub open spec fn row_prefix(
    lit: Seq<bool>,
    rgb: Seq<u8>,
    cells_width: int,
    cy: int,
    mode: ColorMode,
    n: int,
) -> (Seq<char>, Option<(u8, u8, u8)>)
    decreases n,
{
    if n <= 0 {
        (seq![], None)
    } else {
        let (text, active) = row_prefix(lit, rgb, cells_width, cy, mode, n - 1);
        let colour = cell_colour(lit, rgb, cells_width * 2, n - 1, cy);
        let (text, active) = if !(mode is Plain) && colour is Some && active != colour {
            let c = colour.unwrap();
            (text + foreground_escape(mode, [c.0, c.1, c.2]), colour)
        } else {
            (text, active)
        };
        (text + seq![braille_char(scan_bits(lit, cells_width * 2, n - 1, cy, 8))], active)
    }
}

/// The full text of row `cy`, ending with a reset when any colour was set.
pub open spec fn row_line(lit: Seq<bool>, rgb: Seq<u8>, cells_width: int, cy: int, mode: ColorMode) -> Seq<char> {
    let (text, active) = row_prefix(lit, rgb, cells_width, cy, mode, cells_width);
    if active is Some {
        text + RESET@
    } else {
        text
    }
}

/// The first `rows` rows, separated by newlines.
pub open spec fn packed_rows(lit: Seq<bool>, rgb: Seq<u8>, cells_width: int, mode: ColorMode, rows: int) -> Seq<char>
    decreases rows,
{
    if rows <= 0 {
        seq![]
    } else if rows == 1 {
        row_line(lit, rgb, cells_width, 0, mode)
    } else {
        packed_rows(lit, rgb, cells_width, mode, rows - 1) + seq!['\n'] + row_line(lit, rgb, cells_width, rows - 1, mode)
    }
}

/// The mask and colour totals of one cell.
fn summarize_cell(lit: &[bool], rgb: &[u8], dots_width: usize, cx: usize, cy: usize) -> (summary: (u8, [u32; 3], u32))
    requires
        lit@.len() >= dots_width * (cy + 1) * 4,
        dots_width >= 2 * (cx + 1),
        rgb@.len() == lit@.len() * 3,
    ensures
        summary.1[0] <= 255 * summary.2,
        summary.1[1] <= 255 * summary.2,
        summary.1[2] <= 255 * summary.2,
        summary.0 == scan_bits(lit@, dots_width as int, cx as int, cy as int, 8),
        summary.2 == scan_count(lit@, dots_width as int, cx as int, cy as int, 8),
        summary.1[0] == scan_sum(lit@, rgb@, dots_width as int, cx as int, cy as int, 0, 8),
        summary.1[1] == scan_sum(lit@, rgb@, dots_width as int, cx as int, cy as int, 1, 8),
        summary.1[2] == scan_sum(lit@, rgb@, dots_width as int, cx as int, cy as int, 2, 8),
{
    let lit_len = lit.len();
    let rgb_len = rgb.len();
    let mut mask: u8 = 0;
    let mut sum: [u32; 3] = [0, 0, 0];
    let mut count: u32 = 0;
    let mut k: usize = 0;
    while k < 8
        invariant
            k <= 8,
            lit@.len() >= dots_width * (cy + 1) * 4,
            dots_width >= 2 * (cx + 1),
            rgb@.len() == lit@.len() * 3,
            lit_len == lit@.len(),
            rgb_len == rgb@.len(),
            mask == scan_bits(lit@, dots_width as int, cx as int, cy as int, k as int),
            count == scan_count(lit@, dots_width as int, cx as int, cy as int, k as int),
            count <= k,
            sum[0] == scan_sum(lit@, rgb@, dots_width as int, cx as int, cy as int, 0, k as int),
            sum[1] == scan_sum(lit@, rgb@, dots_width as int, cx as int, cy as int, 1, k as int),
            sum[2] == scan_sum(lit@, rgb@, dots_width as int, cx as int, cy as int, 2, k as int),
            sum[0] <= 255 * count,
            sum[1] <= 255 * count,
            sum[2] <= 255 * count,
        decreases 8 - k,
    {
        let dot_x: usize = k % 2;
        let dot_y: usize = k / 2;
        assert(((cy * 4 + dot_y) * dots_width + cx * 2 + dot_x) < dots_width * (cy + 1) * 4) by (nonlinear_arith)
            requires dot_y < 4, dot_x < 2, dots_width >= 2 * (cx + 1);
        assert(cy * 4 + dot_y <= (cy * 4 + dot_y) * dots_width) by (nonlinear_arith)
            requires dots_width >= 2;
        let index: usize = (cy * CELL_HEIGHT as usize + dot_y) * dots_width + cx * CELL_WIDTH as usize + dot_x;
        if lit[index] {
            mask = mask | braille::dot_bit_or_zero(dot_x as u32, dot_y as u32);
            let base: usize = index * 3;
            sum[0] = sum[0] + rgb[base] as u32;
            sum[1] = sum[1] + rgb[base + 1] as u32;
            sum[2] = sum[2] + rgb[base + 2] as u32;
            count = count + 1;
        } else {
            assert(mask | 0u8 == mask) by (bit_vector);
        }
        k = k + 1;
    }
    (mask, sum, count)
}

/// Turns a thresholded dot plane into the final string.
///
/// `lit` marks, row-major over a plane `2 * cells_width` dots wide and
/// `4 * cells_height` dots tall, the dots that are on; `rgb` holds the colour
/// of every dot. Rows are separated by `\n`. When colour is on, a cell's
/// colour is the average of its lit dots, an escape is written only when the
/// colour changes, and each row that set a colour ends with a reset.
pub fn pack_cells(lit: &[bool], rgb: &[u8], cells_width: u32, cells_height: u32, mode: ColorMode) -> (text: String)
    requires
        lit@.len() == (cells_width * 2) * (cells_height * 4),
        rgb@.len() == lit@.len() * 3,
    ensures
        text@ == packed_rows(lit@, rgb@, cells_width as int, mode, cells_height as int),
{
    let rgb_len = rgb.len();
    let lit_len = lit.len();
    let mut out = String::new();
    if cells_height == 0 {
        return out;
    }
    assert(cells_width * 2 <= (cells_width * 2) * (cells_height * 4)) by (nonlinear_arith)
        requires cells_height >= 1;
    let dots_width: usize = cells_width as usize * CELL_WIDTH as usize;
    let mut cell_y: usize = 0;
    assert(out@ =~= packed_rows(lit@, rgb@, cells_width as int, mode, 0));
    while cell_y < cells_height as usize
        invariant
            cell_y <= cells_height,
            dots_width == cells_width * 2,
            lit@.len() == (cells_width * 2) * (cells_height * 4),
            rgb@.len() == lit@.len() * 3,
            rgb_len == rgb@.len(),
            lit_len == lit@.len(),
            out@ == packed_rows(lit@, rgb@, cells_width as int, mode, cell_y as int),
        decreases cells_height - cell_y,
    {
        let ghost before = out@;
        if cell_y > 0 {
            out.push('\n');
        }
        let ghost start = out@;
        let mut active: Option<(u8, u8, u8)> = None;
        let mut cell_x: usize = 0;
        assert(out@ =~= start + row_prefix(lit@, rgb@, cells_width as int, cell_y as int, mode, 0).0);
        while cell_x < cells_width as usize
            invariant
                cell_x <= cells_width,
                cell_y < cells_height,
                dots_width == cells_width * 2,
                lit@.len() == (cells_width * 2) * (cells_height * 4),
                rgb@.len() == lit@.len() * 3,
                rgb_len == rgb@.len(),
                out@ == start + row_prefix(lit@, rgb@, cells_width as int, cell_y as int, mode, cell_x as int).0,
                active == row_prefix(lit@, rgb@, cells_width as int, cell_y as int, mode, cell_x as int).1,
            decreases cells_width - cell_x,
        {
            assert(lit@.len() >= dots_width * (cell_y + 1) * 4) by (nonlinear_arith)
                requires lit@.len() == dots_width * (cells_height * 4), cell_y < cells_height;
            let summary = summarize_cell(lit, rgb, dots_width, cell_x, cell_y);
            let (mask, sum, lit_count) = summary;
            let ghost colour = cell_colour(lit@, rgb@, dots_width as int, cell_x as int, cell_y as int);
            if mode.is_enabled() && lit_count > 0 {
                assert(sum[0] / lit_count <= 255 && sum[1] / lit_count <= 255 && sum[2] / lit_count <= 255) by (nonlinear_arith)
                    requires sum[0] <= 255 * lit_count, sum[1] <= 255 * lit_count, sum[2] <= 255 * lit_count, lit_count > 0;
                let average: (u8, u8, u8) = ((sum[0] / lit_count) as u8, (sum[1] / lit_count) as u8, (sum[2] / lit_count) as u8);
                let changed: bool = match active {
                    Some(current) => current.0 != average.0 || current.1 != average.1 || current.2 != average.2,
                    None => true,
                };
                if changed {
                    color::push_foreground(&mut out, mode, [average.0, average.1, average.2]);
                    active = Some(average);
                }
            }
            out.push(braille::char_for_mask(mask));
            proof {
                assert(out@ =~= start + row_prefix(lit@, rgb@, cells_width as int, cell_y as int, mode, cell_x as int + 1).0);
            }
            cell_x = cell_x + 1;
        }
        if active.is_some() {
            out.push_str(RESET);
        }
        proof {
            if cell_y == 0 {
                assert(out@ =~= packed_rows(lit@, rgb@, cells_width as int, mode, 1));
            } else {
                assert(out@ =~= packed_rows(lit@, rgb@, cells_width as int, mode, cell_y as int + 1));
            }
        }
        cell_y = cell_y + 1;
    }
    out
}
/// Whether `c` is a Braille character or a line break.
pub open spec fn braille_or_newline(c: char) -> bool {
    c == '\n' || braille::char_mask(c) is Some
}

proof fn lemma_braille_char_is_braille(mask: u8)
    ensures
        braille_or_newline(braille_char(mask)),
{
    braille::lemma_mask_round_trip(mask);
    assert((braille::braille_code(mask) as char) as u32 == braille::braille_code(mask));
}

proof fn lemma_plain_row_prefix(lit: Seq<bool>, rgb: Seq<u8>, cells_width: int, cy: int, n: int)
    ensures
        row_prefix(lit, rgb, cells_width, cy, ColorMode::Plain, n).1 is None,
        forall|i: int| 0 <= i < row_prefix(lit, rgb, cells_width, cy, ColorMode::Plain, n).0.len()
            ==> braille_or_newline(#[trigger] row_prefix(lit, rgb, cells_width, cy, ColorMode::Plain, n).0[i]),
    decreases n,
{
    if n > 0 {
        lemma_plain_row_prefix(lit, rgb, cells_width, cy, n - 1);
        lemma_braille_char_is_braille(scan_bits(lit, cells_width * 2, n - 1, cy, 8));
    }
}

/// Plain output holds only Braille characters and line breaks: no escape
/// sequence is ever written unless a colour mode asks for one.
pub proof fn lemma_plain_rows_are_braille(lit: Seq<bool>, rgb: Seq<u8>, cells_width: int, rows: int)
    ensures
        forall|i: int| 0 <= i < packed_rows(lit, rgb, cells_width, ColorMode::Plain, rows).len()
            ==> braille_or_newline(#[trigger] packed_rows(lit, rgb, cells_width, ColorMode::Plain, rows)[i]),
    decreases rows,
{
    if rows >= 1 {
        lemma_plain_row_prefix(lit, rgb, cells_width, rows - 1, cells_width);
        let line = row_line(lit, rgb, cells_width, rows - 1, ColorMode::Plain);
        assert(line == row_prefix(lit, rgb, cells_width, rows - 1, ColorMode::Plain, cells_width).0);
        if rows > 1 {
            lemma_plain_rows_are_braille(lit, rgb, cells_width, rows - 1);
            let before = packed_rows(lit, rgb, cells_width, ColorMode::Plain, rows - 1);
            let all = before + seq!['\n'] + line;
            assert forall|i: int| 0 <= i < all.len() implies braille_or_newline(#[trigger] all[i]) by {
                if i < before.len() {
                    assert(all[i] == before[i]);
                } else if i > before.len() {
                    assert(all[i] == line[i - before.len() - 1]);
                }
            }
        }
    }
}

/// The index of the first `m` in `s` at or after `from`, or `s.len()` when
/// there is none.
pub open spec fn first_m(s: Seq<char>, from: int) -> int
    decreases s.len() - from,
{
    if from < 0 || from >= s.len() {
        s.len() as int
    } else if s[from] == 'm' {
        from
    } else {
        first_m(s, from + 1)
    }
}

/// The first `m` at or after `from` lies there or later, or is the length.
pub proof fn lemma_first_m_bounds(s: Seq<char>, from: int)
    requires
        0 <= from,
    ensures
        from <= first_m(s, from) || first_m(s, from) == s.len(),
        first_m(s, from) <= s.len(),
    decreases s.len() - from,
{
    if from < s.len() && s[from] != 'm' {
        lemma_first_m_bounds(s, from + 1);
    }
}

/// `s` with every escape sequence, from an ESC through the next `m`,
/// deleted; an ESC with no `m` after it deletes the rest.
pub open spec fn strip_escapes(s: Seq<char>) -> Seq<char>
    decreases s.len(),
{
    if s.len() == 0 {
        seq![]
    } else if s[0] == '\x1b' {
        let k = first_m(s, 1);
        if k < s.len() {
            proof {
                lemma_first_m_bounds(s, 1);
            }
            strip_escapes(s.skip(k + 1))
        } else {
            seq![]
        }
    } else {
        seq![s[0]] + strip_escapes(s.drop_first())
    }
}

/// Every ESC of `s` has an `m` after it.
spec fn escapes_closed(s: Seq<char>) -> bool
    decreases s.len(),
{
    if s.len() == 0 {
        true
    } else if s[0] == '\x1b' {
        let k = first_m(s, 1);
        if k < s.len() {
            proof {
                lemma_first_m_bounds(s, 1);
            }
            escapes_closed(s.skip(k + 1))
        } else {
            false
        }
    } else {
        escapes_closed(s.drop_first())
    }
}

proof fn lemma_first_m_concat(a: Seq<char>, b: Seq<char>, from: int)
    requires
        0 <= from,
        first_m(a, from) < a.len(),
    ensures
        first_m(a + b, from) == first_m(a, from),
    decreases a.len() - from,
{
    if from < a.len() && a[from] != 'm' {
        lemma_first_m_concat(a, b, from + 1);
    }
}

/// Stripping distributes over a concatenation whose first part closes all
/// its escapes.
proof fn lemma_strip_concat(a: Seq<char>, b: Seq<char>)
    requires
        escapes_closed(a),
    ensures
        strip_escapes(a + b) == strip_escapes(a) + strip_escapes(b),
        escapes_closed(b) ==> escapes_closed(a + b),
    decreases a.len(),
{
    if a.len() == 0 {
        assert(a + b =~= b);
    } else if a[0] == '\x1b' {
        let k = first_m(a, 1);
        lemma_first_m_bounds(a, 1);
        lemma_first_m_concat(a, b, 1);
        assert((a + b)[0] == '\x1b');
        assert((a + b).skip(k + 1) =~= a.skip(k + 1) + b);
        lemma_strip_concat(a.skip(k + 1), b);
    } else {
        assert((a + b)[0] == a[0]);
        assert((a + b).drop_first() =~= a.drop_first() + b);
        lemma_strip_concat(a.drop_first(), b);
    }
}

/// A character other than ESC survives stripping.
proof fn lemma_strip_plain_char(c: char)
    requires
        c != '\x1b',
    ensures
        strip_escapes(seq![c]) == seq![c],
        escapes_closed(seq![c]),
{
    let e = Seq::<char>::empty();
    assert(strip_escapes(e) == e);
    assert(escapes_closed(e));
    assert(seq![c][0] == c);
    assert(seq![c].drop_first() =~= e);
    assert(seq![c] + e =~= seq![c]);
}

proof fn lemma_first_m_scan(s: Seq<char>, from: int)
    requires
        1 <= from <= s.len() - 1,
        s[s.len() - 1] == 'm',
        forall|i: int| 1 <= i < s.len() - 1 ==> s[i] != 'm',
    ensures
        first_m(s, from) == s.len() - 1,
    decreases s.len() - from,
{
    if from < s.len() - 1 {
        lemma_first_m_scan(s, from + 1);
    }
}

/// An escape sequence, an ESC through its only `m` at the end, strips to
/// nothing.
proof fn lemma_strip_escape(e: Seq<char>)
    requires
        e.len() >= 2,
        e[0] == '\x1b',
        e[e.len() - 1] == 'm',
        forall|i: int| 1 <= i < e.len() - 1 ==> e[i] != 'm',
    ensures
        strip_escapes(e) == Seq::<char>::empty(),
        escapes_closed(e),
{
    lemma_first_m_scan(e, 1);
    let empty = Seq::<char>::empty();
    assert(strip_escapes(empty) == empty);
    assert(escapes_closed(empty));
    assert(e.skip(e.len() as int) =~= empty);
}

/// Decimal numerals hold only digits.
proof fn lemma_decimal_digits(n: nat)
    ensures
        forall|i: int| 0 <= i < decimal(n).len() ==> '0' <= #[trigger] decimal(n)[i] <= '9',
    decreases n,
{
    if n >= 10 {
        lemma_decimal_digits(n / 10);
        let d = decimal(n / 10);
        let t = seq![crate::text::digit_char((n % 10) as int)];
        assert forall|i: int| 0 <= i < decimal(n).len() implies '0' <= #[trigger] decimal(n)[i] <= '9' by {
            if i < d.len() {
                assert(decimal(n)[i] == d[i]);
            } else {
                assert(decimal(n)[i] == t[i - d.len()]);
            }
        }
    }
}

/// A colour escape strips to nothing and closes itself.
proof fn lemma_strip_foreground(mode: ColorMode, rgb: [u8; 3])
    requires
        !(mode is Plain),
    ensures
        strip_escapes(foreground_escape(mode, rgb)) == Seq::<char>::empty(),
        escapes_closed(foreground_escape(mode, rgb)),
{
    reveal_strlit("\x1b[38;5;");
    reveal_strlit("\x1b[38;2;");
    reveal_strlit(";");
    reveal_strlit("m");
    let e = foreground_escape(mode, rgb);
    lemma_decimal_digits(color::ansi256_of(rgb[0], rgb[1], rgb[2]) as nat);
    lemma_decimal_digits(rgb[0] as nat);
    lemma_decimal_digits(rgb[1] as nat);
    lemma_decimal_digits(rgb[2] as nat);
    if mode is Ansi256 {
        let head = "\x1b[38;5;"@;
        let d = decimal(color::ansi256_of(rgb[0], rgb[1], rgb[2]) as nat);
        assert forall|i: int| 1 <= i < e.len() - 1 implies e[i] != 'm' by {
            if i < head.len() {
                assert(e[i] == head[i]);
            } else {
                assert(e[i] == d[i - head.len()]);
            }
        }
    } else {
        let head = "\x1b[38;2;"@;
        let (d0, d1, d2) = (decimal(rgb[0] as nat), decimal(rgb[1] as nat), decimal(rgb[2] as nat));
        assert forall|i: int| 1 <= i < e.len() - 1 implies e[i] != 'm' by {
            let p0 = head.len() as int;
            let p1 = p0 + d0.len();
            let p2 = p1 + 1 + d1.len();
            if i < p0 {
                assert(e[i] == head[i]);
            } else if i < p1 {
                assert(e[i] == d0[i - p0]);
            } else if i == p1 {
                assert(e[i] == ';');
            } else if i < p2 {
                assert(e[i] == d1[i - p1 - 1]);
            } else if i == p2 {
                assert(e[i] == ';');
            } else {
                assert(e[i] == d2[i - p2 - 1]);
            }
        }
    }
    lemma_strip_escape(e);
}

proof fn lemma_strip_row_prefix(lit: Seq<bool>, rgb: Seq<u8>, cells_width: int, cy: int, mode: ColorMode, n: int)
    ensures
        escapes_closed(row_prefix(lit, rgb, cells_width, cy, mode, n).0),
        strip_escapes(row_prefix(lit, rgb, cells_width, cy, mode, n).0)
            == row_prefix(lit, rgb, cells_width, cy, ColorMode::Plain, n).0,
    decreases n,
{
    if n <= 0 {
        assert(escapes_closed(Seq::<char>::empty()));
    } else {
        lemma_strip_row_prefix(lit, rgb, cells_width, cy, mode, n - 1);
        lemma_plain_row_prefix(lit, rgb, cells_width, cy, n - 1);
        let (text, active) = row_prefix(lit, rgb, cells_width, cy, mode, n - 1);
        let colour = cell_colour(lit, rgb, cells_width * 2, n - 1, cy);
        let ch = braille_char(scan_bits(lit, cells_width * 2, n - 1, cy, 8));
        lemma_braille_char_is_braille(scan_bits(lit, cells_width * 2, n - 1, cy, 8));
        braille::lemma_mask_round_trip(scan_bits(lit, cells_width * 2, n - 1, cy, 8));
        assert(ch != '\x1b') by {
            assert((braille::braille_code(scan_bits(lit, cells_width * 2, n - 1, cy, 8)) as char) as u32
                == braille::braille_code(scan_bits(lit, cells_width * 2, n - 1, cy, 8)));
        }
        lemma_strip_plain_char(ch);
        if !(mode is Plain) && colour is Some && active != colour {
            let c = colour.unwrap();
            let esc = foreground_escape(mode, [c.0, c.1, c.2]);
            lemma_strip_foreground(mode, [c.0, c.1, c.2]);
            lemma_strip_concat(text, esc);
            lemma_strip_concat(text + esc, seq![ch]);
            assert(strip_escapes(text + esc) =~= strip_escapes(text));
        } else {
            lemma_strip_concat(text, seq![ch]);
        }
    }
}

/// Deleting every escape sequence from coloured output leaves exactly the
/// plain output: colour only ever adds escapes (a colour before a cell, a
/// reset at the end of a coloured row) and never changes the text.
pub proof fn lemma_colour_strips_to_plain(lit: Seq<bool>, rgb: Seq<u8>, cells_width: int, mode: ColorMode, rows: int)
    ensures
        strip_escapes(packed_rows(lit, rgb, cells_width, mode, rows)) == packed_rows(lit, rgb, cells_width, ColorMode::Plain, rows),
{
    lemma_strip_rows(lit, rgb, cells_width, mode, rows);
}

proof fn lemma_strip_row_line(lit: Seq<bool>, rgb: Seq<u8>, cells_width: int, cy: int, mode: ColorMode)
    ensures
        escapes_closed(row_line(lit, rgb, cells_width, cy, mode)),
        strip_escapes(row_line(lit, rgb, cells_width, cy, mode)) == row_line(lit, rgb, cells_width, cy, ColorMode::Plain),
{
    lemma_strip_row_prefix(lit, rgb, cells_width, cy, mode, cells_width);
    lemma_plain_row_prefix(lit, rgb, cells_width, cy, cells_width);
    let (text, active) = row_prefix(lit, rgb, cells_width, cy, mode, cells_width);
    if active is Some {
        reveal_strlit("\x1b[0m");
        let reset = RESET@;
        assert(reset =~= seq!['\x1b', '[', '0', 'm']);
        lemma_strip_escape(reset);
        lemma_strip_concat(text, reset);
        assert(strip_escapes(text + reset) =~= strip_escapes(text));
    }
}

proof fn lemma_strip_rows(lit: Seq<bool>, rgb: Seq<u8>, cells_width: int, mode: ColorMode, rows: int)
    ensures
        escapes_closed(packed_rows(lit, rgb, cells_width, mode, rows)),
        strip_escapes(packed_rows(lit, rgb, cells_width, mode, rows)) == packed_rows(lit, rgb, cells_width, ColorMode::Plain, rows),
    decreases rows,
{
    if rows <= 0 {
        assert(escapes_closed(Seq::<char>::empty()));
    } else if rows == 1 {
        lemma_strip_row_line(lit, rgb, cells_width, 0, mode);
    } else {
        lemma_strip_rows(lit, rgb, cells_width, mode, rows - 1);
        lemma_strip_row_line(lit, rgb, cells_width, rows - 1, mode);
        let prev = packed_rows(lit, rgb, cells_width, mode, rows - 1);
        let line = row_line(lit, rgb, cells_width, rows - 1, mode);
        lemma_strip_plain_char('\n');
        lemma_strip_concat(prev, seq!['\n']);
        lemma_strip_concat(prev + seq!['\n'], line);
    }
}

} // verus!
