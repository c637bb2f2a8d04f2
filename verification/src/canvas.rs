//! A bitmap you draw on with Braille dots.
//!
//! [`Canvas`] is sized in **dots**, not characters: a 100×50 canvas is 50
//! characters wide and 13 characters tall. Storage is exactly one bit per dot:
//! the canvas keeps one `u8` per character cell, and that byte *is* the
//! Braille dot mask, so rendering is a walk over the buffer.

use vstd::prelude::*;

use crate::braille::{
    self, dot_index, dot_mask, in_cell, braille_char, CELL_HEIGHT, CELL_WIDTH,
};
use crate::error::Error;
use crate::text::{decimal, push_decimal};

verus! {

/// Largest canvas that will be allocated, in character cells (256 MiB).
pub const MAX_CANVAS_CELLS: u64 = 0x1000_0000;

/// Number of cells needed to hold `dots` dots, `per_cell` to a cell.
pub open spec fn cells_for(dots: int, per_cell: int) -> int {
    (dots + per_cell - 1) / per_cell
}

/// The message for a canvas of `width`×`height` dots that needs more than
/// [`MAX_CANVAS_CELLS`] character cells.
pub open spec fn canvas_size_message(width: u32, height: u32) -> Seq<char> {
    decimal(width as nat) + seq!['x'] + decimal(height as nat) + " dots needs "@
        + decimal((cells_for(width as int, 2) * cells_for(height as int, 4)) as nat) + " character cells, over the "@
        + decimal(MAX_CANVAS_CELLS as nat) + " cell limit"@
}

/// A fixed-size grid of Braille dots.
#[derive(Debug, Clone, PartialEq, Eq)]
pub struct Canvas {
    width: u32,
    height: u32,
    cells_width: u32,
    cells_height: u32,
    cells: Vec<u8>,
}

/// `(c | bit i)` has bit `j` set exactly when `i == j` or `c` has bit `j`.
proof fn lemma_or_bit(c: u8, i: u8, j: u8)
    requires
        i < 8,
        j < 8,
    ensures
        ((c | (1u8 << i)) & (1u8 << j) != 0) == (i == j || c & (1u8 << j) != 0),
{
    assert(((c | (1u8 << i)) & (1u8 << j) != 0) == (i == j || c & (1u8 << j) != 0)) by (bit_vector)
        requires i < 8, j < 8;
}

/// `(c & !bit i)` has bit `j` set exactly when `i != j` and `c` has bit `j`.
proof fn lemma_clear_bit(c: u8, i: u8, j: u8)
    requires
        i < 8,
        j < 8,
    ensures
        ((c & !(1u8 << i)) & (1u8 << j) != 0) == (i != j && c & (1u8 << j) != 0),
{
    assert(((c & !(1u8 << i)) & (1u8 << j) != 0) == (i != j && c & (1u8 << j) != 0)) by (bit_vector)
        requires i < 8, j < 8;
}

/// `(c ^ bit i)` flips bit `i` and keeps every other bit.
proof fn lemma_flip_bit(c: u8, i: u8, j: u8)
    requires
        i < 8,
        j < 8,
    ensures
        ((c ^ (1u8 << i)) & (1u8 << j) != 0) == (if i == j { c & (1u8 << j) == 0 } else { c & (1u8 << j) != 0 }),
{
    assert(((c ^ (1u8 << i)) & (1u8 << j) != 0) == (if i == j { c & (1u8 << j) == 0 } else { c & (1u8 << j) != 0 })) by (bit_vector)
        requires i < 8, j < 8;
}

/// A nonzero byte has some bit set.
proof fn lemma_nonzero_has_bit(c: u8)
    requires
        c != 0,
    ensures
        exists|j: u8| j < 8 && #[trigger] (c & (1u8 << j)) != 0,
{
    assert(c != 0 ==> (c & (1u8 << 0u8) != 0 || c & (1u8 << 1u8) != 0 || c & (1u8 << 2u8) != 0 || c & (1u8 << 3u8) != 0
        || c & (1u8 << 4u8) != 0 || c & (1u8 << 5u8) != 0 || c & (1u8 << 6u8) != 0 || c & (1u8 << 7u8) != 0)) by (bit_vector);
    if c & (1u8 << 0u8) != 0 { assert(c & (1u8 << 0u8) != 0); }
    else if c & (1u8 << 1u8) != 0 { assert(c & (1u8 << 1u8) != 0); }
    else if c & (1u8 << 2u8) != 0 { assert(c & (1u8 << 2u8) != 0); }
    else if c & (1u8 << 3u8) != 0 { assert(c & (1u8 << 3u8) != 0); }
    else if c & (1u8 << 4u8) != 0 { assert(c & (1u8 << 4u8) != 0); }
    else if c & (1u8 << 5u8) != 0 { assert(c & (1u8 << 5u8) != 0); }
    else if c & (1u8 << 6u8) != 0 { assert(c & (1u8 << 6u8) != 0); }
    else { assert(c & (1u8 << 7u8) != 0); }
}

/// Zero has no bit set.
proof fn lemma_zero_no_bit(j: u8)
    ensures
        (0u8 & (1u8 << j)) == 0,
{
    assert((0u8 & (1u8 << j)) == 0) by (bit_vector);
}

/// Distinct dots of a cell have distinct bit positions, and every position
/// below 8 belongs to a dot.
proof fn lemma_dot_index_bijective()
    ensures
        forall|x: int, y: int| in_cell(x, y) ==> #[trigger] dot_index(x, y) < 8,
        forall|x1: int, y1: int, x2: int, y2: int|
            in_cell(x1, y1) && in_cell(x2, y2) && #[trigger] dot_index(x1, y1) == #[trigger] dot_index(x2, y2)
                ==> x1 == x2 && y1 == y2,
        forall|j: int| 0 <= j < 8 ==> in_cell(#[trigger] dot_at(j).0, dot_at(j).1)
            && dot_index(dot_at(j).0, dot_at(j).1) == j,
{
}

/// The dot of a cell whose bit is bit `j`.
spec fn dot_at(j: int) -> (int, int) {
    if j < 3 {
        (0, j)
    } else if j < 6 {
        (1, j - 3)
    } else {
        (j - 6, 3)
    }
}

/// Cell `(cx, cy)` of a row-major grid `cw` cells wide lies inside a grid of
/// `ch` rows, and no two cells share an index.
proof fn lemma_cell_index(cw: int, ch: int, cx: int, cy: int)
    requires
        0 <= cx < cw,
        0 <= cy < ch,
    ensures
        0 <= cy * cw + cx < cw * ch,
        forall|cx2: int, cy2: int| 0 <= cx2 < cw && 0 <= cy2 && #[trigger] (cy2 * cw + cx2) == cy * cw + cx
            ==> cx2 == cx && cy2 == cy,
{
    assert(0 <= cy * cw + cx < cw * ch) by (nonlinear_arith)
        requires 0 <= cx < cw, 0 <= cy < ch;
    assert forall|cx2: int, cy2: int| 0 <= cx2 < cw && 0 <= cy2 && #[trigger] (cy2 * cw + cx2) == cy * cw + cx
        implies cx2 == cx && cy2 == cy by {
        if cy2 < cy {
            assert(cy2 * cw + cx2 < cy * cw) by (nonlinear_arith)
                requires 0 <= cx2 < cw, cy2 < cy, 0 <= cy2;
        } else if cy2 > cy {
            assert(cy2 * cw >= cy * cw + cw) by (nonlinear_arith)
                requires cy2 > cy, 0 <= cx < cw, 0 <= cy;
        }
    }
}

impl Canvas {
    /// Width of the canvas in dots.
    pub closed spec fn spec_width(&self) -> nat {
        self.width as nat
    }

    /// Height of the canvas in dots.
    pub closed spec fn spec_height(&self) -> nat {
        self.height as nat
    }

    /// Width of the canvas in character cells.
    pub closed spec fn spec_cells_width(&self) -> nat {
        self.cells_width as nat
    }

    /// Height of the canvas in character cells.
    pub closed spec fn spec_cells_height(&self) -> nat {
        self.cells_height as nat
    }

    /// The dot masks of the character cells, row-major.
    pub closed spec fn spec_masks(&self) -> Seq<u8> {
        self.cells@
    }

    /// Whether `(x, y)` lies inside the canvas.
    pub open spec fn in_canvas(&self, x: int, y: int) -> bool {
        0 <= x < self.spec_width() && 0 <= y < self.spec_height()
    }

    /// Index of the character cell that holds the dot `(x, y)`.
    pub open spec fn cell_of(&self, x: int, y: int) -> int {
        (y / 4) * self.spec_cells_width() + x / 2
    }

    /// Whether the dot `(x, y)` is set.
    pub open spec fn lit(&self, x: int, y: int) -> bool {
        self.in_canvas(x, y) && self.spec_masks()[self.cell_of(x, y)] & dot_mask(x % 2, y % 4) != 0
    }

    /// The canvas is consistent: the cell grid covers the dots exactly, fits
    /// the size limit, and no mask has a bit for a dot outside the canvas.
    pub closed spec fn wf(&self) -> bool {
        &&& self.cells_width == cells_for(self.width as int, 2)
        &&& self.cells_height == cells_for(self.height as int, 4)
        &&& self.cells@.len() == self.cells_width * self.cells_height
        &&& self.cells_width * self.cells_height <= MAX_CANVAS_CELLS
        &&& forall|cx: int, cy: int, lx: int, ly: int|
            0 <= cx < self.cells_width && 0 <= cy < self.cells_height && in_cell(lx, ly)
                && #[trigger] self.cells@[cy * self.cells_width + cx] & #[trigger] dot_mask(lx, ly) != 0
                ==> self.in_canvas(2 * cx + lx, 4 * cy + ly)
    }

    /// The grid sizes of a well-formed canvas.
    pub proof fn lemma_wf_dims(&self)
        requires
            self.wf(),
        ensures
            self.spec_cells_width() == cells_for(self.spec_width() as int, 2),
            self.spec_cells_height() == cells_for(self.spec_height() as int, 4),
            self.spec_masks().len() == self.spec_cells_width() * self.spec_cells_height(),
            self.spec_masks().len() <= MAX_CANVAS_CELLS,
    {
    }

    /// Every dot of the canvas belongs to a cell inside the buffer.
    proof fn lemma_cell_of_in_range(&self, x: int, y: int)
        requires
            self.wf(),
            self.in_canvas(x, y),
        ensures
            0 <= self.cell_of(x, y) < self.cells@.len(),
            self.cell_of(x, y) == (y / 4) * self.cells_width + x / 2,
            0 <= x / 2 < self.cells_width,
            0 <= y / 4 < self.cells_height,
    {
        lemma_cell_index(self.cells_width as int, self.cells_height as int, x / 2, y / 4);
    }

    /// Two dots share a cell exactly when their cell coordinates agree.
    proof fn lemma_same_cell(&self, x1: int, y1: int, x2: int, y2: int)
        requires
            self.wf(),
            self.in_canvas(x1, y1),
            self.in_canvas(x2, y2),
            self.cell_of(x1, y1) == self.cell_of(x2, y2),
        ensures
            x1 / 2 == x2 / 2,
            y1 / 4 == y2 / 4,
    {
        lemma_cell_index(self.cells_width as int, self.cells_height as int, x1 / 2, y1 / 4);
        lemma_cell_index(self.cells_width as int, self.cells_height as int, x2 / 2, y2 / 4);
    }
}

impl Canvas {
    /// Two canvases have the same dimensions.
    pub open spec fn same_size(&self, other: &Canvas) -> bool {
        &&& self.spec_width() == other.spec_width()
        &&& self.spec_height() == other.spec_height()
        &&& self.spec_cells_width() == other.spec_cells_width()
        &&& self.spec_cells_height() == other.spec_cells_height()
    }

    /// Two dots in the same cell are the same dot exactly when they use the
    /// same bit.
    proof fn lemma_same_cell_same_bit(&self, x: int, y: int, px: int, py: int)
        requires
            self.wf(),
            self.in_canvas(x, y),
            self.in_canvas(px, py),
            self.cell_of(px, py) == self.cell_of(x, y),
        ensures
            ((px, py) == (x, y)) == (dot_index(px % 2, py % 4) == dot_index(x % 2, y % 4)),
            dot_index(px % 2, py % 4) < 8,
            dot_index(x % 2, y % 4) < 8,
    {
        self.lemma_same_cell(x, y, px, py);
        lemma_dot_index_bijective();
        assert(in_cell(px % 2, py % 4));
        assert(in_cell(x % 2, y % 4));
    }

    /// Replacing the mask of the cell holding `(x, y)` by `v` keeps the canvas
    /// well formed when `v` only adds the bit of `(x, y)` to the old mask.
    proof fn lemma_update_wf(old: &Canvas, new: &Canvas, x: int, y: int, v: u8)
        requires
            old.wf(),
            old.in_canvas(x, y),
            new.width == old.width,
            new.height == old.height,
            new.cells_width == old.cells_width,
            new.cells_height == old.cells_height,
            new.cells@ == old.cells@.update(old.cell_of(x, y), v),
            forall|lx: int, ly: int| in_cell(lx, ly) && #[trigger] (v & dot_mask(lx, ly)) != 0
                ==> (old.cells@[old.cell_of(x, y)] & dot_mask(lx, ly) != 0 || (lx == x % 2 && ly == y % 4)),
        ensures
            new.wf(),
    {
        old.lemma_cell_of_in_range(x, y);
        let cw = old.cells_width as int;
        lemma_cell_index(cw, old.cells_height as int, x / 2, y / 4);
        assert forall|cx: int, cy: int, lx: int, ly: int|
            0 <= cx < new.cells_width && 0 <= cy < new.cells_height && in_cell(lx, ly)
                && #[trigger] new.cells@[cy * new.cells_width + cx] & #[trigger] dot_mask(lx, ly) != 0
            implies new.in_canvas(2 * cx + lx, 4 * cy + ly) by {
            lemma_cell_index(cw, old.cells_height as int, cx, cy);
            if cy * cw + cx == old.cell_of(x, y) {
                assert(cx == x / 2 && cy == y / 4);
                assert(v & dot_mask(lx, ly) != 0);
                if old.cells@[old.cell_of(x, y)] & dot_mask(lx, ly) != 0 {
                    assert(old.cells@[cy * old.cells_width + cx] & dot_mask(lx, ly) != 0);
                }
            } else {
                assert(old.cells@[cy * old.cells_width + cx] == new.cells@[cy * new.cells_width + cx]);
            }
        }
    }

    /// Reads of dots after replacing the mask of the cell holding `(x, y)`.
    proof fn lemma_update_lit(old: &Canvas, new: &Canvas, x: int, y: int, v: u8, px: int, py: int)
        requires
            old.wf(),
            old.in_canvas(x, y),
            new.width == old.width,
            new.height == old.height,
            new.cells_width == old.cells_width,
            new.cells_height == old.cells_height,
            new.cells@ == old.cells@.update(old.cell_of(x, y), v),
        ensures
            new.lit(px, py) == if old.in_canvas(px, py) && old.cell_of(px, py) == old.cell_of(x, y) {
                v & dot_mask(px % 2, py % 4) != 0
            } else {
                old.lit(px, py)
            },
    {
        old.lemma_cell_of_in_range(x, y);
        if old.in_canvas(px, py) {
            old.lemma_cell_of_in_range(px, py);
        }
    }
}

impl View for Canvas {
    type V = Set<(int, int)>;

    /// The set of dots that are on.
    open spec fn view(&self) -> Set<(int, int)> {
        Set::new(|p: (int, int)| self.lit(p.0, p.1))
    }
}


impl Canvas {
    /// Creates an empty canvas `width`×`height` dots in size.
    ///
    /// # Errors
    ///
    /// Returns [`Error::InvalidDimensions`] if the canvas would need more than
    /// [`MAX_CANVAS_CELLS`] character cells.
    pub fn try_new(width: u32, height: u32) -> (result: Result<Canvas, Error>)
        ensures
            result is Ok <==> cells_for(width as int, 2) * cells_for(height as int, 4) <= MAX_CANVAS_CELLS,
            result matches Ok(canvas) ==> {
                &&& canvas.wf()
                &&& canvas.spec_width() == width
                &&& canvas.spec_height() == height
                &&& canvas@ == Set::<(int, int)>::empty()
            },
            result matches Err(e) ==> e matches Error::InvalidDimensions(m)
                && m@ == canvas_size_message(width, height),
    {
        let cells_width: u32 = ((width as u64 + 1) / 2) as u32;
        let cells_height: u32 = ((height as u64 + 3) / 4) as u32;
        assert(cells_width * cells_height <= 0x8000_0000u64 * 0x4000_0000u64) by (nonlinear_arith)
            requires cells_width <= 0x8000_0000u64, cells_height <= 0x4000_0000u64;
        let cells: u64 = cells_width as u64 * cells_height as u64;
        if cells > MAX_CANVAS_CELLS {
            let mut message = String::new();
            push_decimal(&mut message, width as u64);
            message.push('x');
            push_decimal(&mut message, height as u64);
            message.push_str(" dots needs ");
            push_decimal(&mut message, cells);
            message.push_str(" character cells, over the ");
            push_decimal(&mut message, MAX_CANVAS_CELLS);
            message.push_str(" cell limit");
            assert(message@ =~= canvas_size_message(width, height));
            return Err(Error::invalid_dimensions(message));
        }
        let len: usize = cells as usize;
        let buffer: Vec<u8> = vec![0u8; len];
        let canvas = Canvas { width, height, cells_width, cells_height, cells: buffer };
        proof {
            assert forall|cx: int, cy: int, lx: int, ly: int|
                0 <= cx < canvas.cells_width && 0 <= cy < canvas.cells_height && in_cell(lx, ly)
                    && #[trigger] canvas.cells@[cy * canvas.cells_width + cx] & #[trigger] dot_mask(lx, ly) != 0
                implies canvas.in_canvas(2 * cx + lx, 4 * cy + ly) by {
                lemma_cell_index(cells_width as int, cells_height as int, cx, cy);
                lemma_zero_no_bit(dot_index(lx, ly) as u8);
            }
            assert forall|p: (int, int)| !canvas.lit(p.0, p.1) by {
                if canvas.in_canvas(p.0, p.1) {
                    canvas.lemma_cell_of_in_range(p.0, p.1);
                    lemma_zero_no_bit(dot_index(p.0 % 2, p.1 % 4) as u8);
                }
            }
            assert(canvas@ =~= Set::<(int, int)>::empty());
        }
        Ok(canvas)
    }

    /// Creates an empty canvas `width`×`height` dots in size. The size must
    /// fit [`MAX_CANVAS_CELLS`]; use [`Canvas::try_new`] to have that checked.
    pub fn new(width: u32, height: u32) -> (canvas: Canvas)
        requires
            cells_for(width as int, 2) * cells_for(height as int, 4) <= MAX_CANVAS_CELLS,
        ensures
            canvas.wf(),
            canvas.spec_width() == width,
            canvas.spec_height() == height,
            canvas@ == Set::<(int, int)>::empty(),
    {
        match Canvas::try_new(width, height) {
            Ok(canvas) => canvas,
            Err(_) => {
                assert(false);
                Canvas { width: 0, height: 0, cells_width: 0, cells_height: 0, cells: Vec::new() }
            },
        }
    }

    /// Canvas width in dots.
    pub fn width(&self) -> (w: u32)
        ensures
            w == self.spec_width(),
    {
        self.width
    }

    /// Canvas height in dots.
    pub fn height(&self) -> (h: u32)
        ensures
            h == self.spec_height(),
    {
        self.height
    }

    /// Rendered width in character cells.
    pub fn cells_width(&self) -> (w: u32)
        ensures
            w == self.spec_cells_width(),
    {
        self.cells_width
    }

    /// Rendered height in character cells (that is, in text rows).
    pub fn cells_height(&self) -> (h: u32)
        ensures
            h == self.spec_cells_height(),
    {
        self.cells_height
    }

    /// Whether `(x, y)` lies inside the canvas.
    pub fn in_bounds(&self, x: i32, y: i32) -> (inside: bool)
        ensures
            inside == self.in_canvas(x as int, y as int),
    {
        x >= 0 && y >= 0 && (x as u32) < self.width && (y as u32) < self.height
    }

    /// Index of the cell owning `(x, y)`, plus that dot's bit; `None` for
    /// out-of-bounds coordinates.
    fn locate(&self, x: i32, y: i32) -> (found: Option<(usize, u8)>)
        requires
            self.wf(),
        ensures
            found is Some == self.in_canvas(x as int, y as int),
            found matches Some((index, bit)) ==> {
                &&& index == self.cell_of(x as int, y as int)
                &&& index < self.cells@.len()
                &&& bit == dot_mask(x as int % 2, y as int % 4)
            },
    {
        if !self.in_bounds(x, y) {
            return None;
        }
        let xu: u32 = x as u32;
        let yu: u32 = y as u32;
        proof {
            self.lemma_cell_of_in_range(x as int, y as int);
        }
        let index: usize = (yu / CELL_HEIGHT) as usize * self.cells_width as usize + (xu / CELL_WIDTH) as usize;
        let bit = braille::dot_bit_or_zero(xu % CELL_WIDTH, yu % CELL_HEIGHT);
        Some((index, bit))
    }

    /// Turns the dot at `(x, y)` on. Out-of-range coordinates are ignored; the
    /// return value says whether the dot was inside the canvas.
    pub fn set(&mut self, x: i32, y: i32) -> (inside: bool)
        requires
            old(self).wf(),
        ensures
            final(self).wf(),
            final(self).same_size(old(self)),
            inside == old(self).in_canvas(x as int, y as int),
            final(self)@ == (if inside { old(self)@.insert((x as int, y as int)) } else { old(self)@ }),
    {
        match self.locate(x, y) {
            Some((index, bit)) => {
                let v: u8 = self.cells[index] | bit;
                self.cells.set(index, v);
                proof {
                    let (xi, yi) = (x as int, y as int);
                    let i = dot_index(xi % 2, yi % 4) as u8;
                    assert forall|lx: int, ly: int| in_cell(lx, ly) && #[trigger] (v & dot_mask(lx, ly)) != 0
                        implies (old(self).cells@[old(self).cell_of(xi, yi)] & dot_mask(lx, ly) != 0 || (lx == xi % 2 && ly == yi % 4)) by {
                        lemma_dot_index_bijective();
                        lemma_or_bit(old(self).cells@[index as int], i, dot_index(lx, ly) as u8);
                    }
                    Canvas::lemma_update_wf(old(self), self, xi, yi, v);
                    assert forall|p: (int, int)| self.lit(p.0, p.1) == (old(self).lit(p.0, p.1) || p == (xi, yi)) by {
                        Canvas::lemma_update_lit(old(self), self, xi, yi, v, p.0, p.1);
                        if old(self).in_canvas(p.0, p.1) && old(self).cell_of(p.0, p.1) == old(self).cell_of(xi, yi) {
                            old(self).lemma_same_cell_same_bit(xi, yi, p.0, p.1);
                            lemma_or_bit(old(self).cells@[index as int], i, dot_index(p.0 % 2, p.1 % 4) as u8);
                        }
                    }
                    assert(self@ =~= old(self)@.insert((xi, yi)));
                }
                true
            },
            None => false,
        }
    }
}


/// The mask of a cell whose first `cols` columns and `rows` rows of dots are
/// on.
pub open spec fn bounded_bits(cols: u32, rows: u32) -> u8 {
    ((if 0 < cols && 0 < rows { 0x01u8 } else { 0u8 }) | (if 0 < cols && 1 < rows { 0x02u8 } else { 0u8 })
        | (if 0 < cols && 2 < rows { 0x04u8 } else { 0u8 }) | (if 1 < cols && 0 < rows { 0x08u8 } else { 0u8 })
        | (if 1 < cols && 1 < rows { 0x10u8 } else { 0u8 }) | (if 1 < cols && 2 < rows { 0x20u8 } else { 0u8 })
        | (if 0 < cols && 3 < rows { 0x40u8 } else { 0u8 }) | (if 1 < cols && 3 < rows { 0x80u8 } else { 0u8 })) as u8
}

proof fn lemma_bounded_bits(cols: u32, rows: u32, lx: int, ly: int)
    requires
        in_cell(lx, ly),
    ensures
        (bounded_bits(cols, rows) & dot_mask(lx, ly) != 0) == (lx < cols && ly < rows),
{
    braille::lemma_dot_mask_values();
    let m = bounded_bits(cols, rows);
    assert((m & 0x01u8 != 0) == (0 < cols && 0 < rows)) by (bit_vector)
        requires m == bounded_bits(cols, rows);
    assert((m & 0x02u8 != 0) == (0 < cols && 1 < rows)) by (bit_vector)
        requires m == bounded_bits(cols, rows);
    assert((m & 0x04u8 != 0) == (0 < cols && 2 < rows)) by (bit_vector)
        requires m == bounded_bits(cols, rows);
    assert((m & 0x08u8 != 0) == (1 < cols && 0 < rows)) by (bit_vector)
        requires m == bounded_bits(cols, rows);
    assert((m & 0x10u8 != 0) == (1 < cols && 1 < rows)) by (bit_vector)
        requires m == bounded_bits(cols, rows);
    assert((m & 0x20u8 != 0) == (1 < cols && 2 < rows)) by (bit_vector)
        requires m == bounded_bits(cols, rows);
    assert((m & 0x40u8 != 0) == (0 < cols && 3 < rows)) by (bit_vector)
        requires m == bounded_bits(cols, rows);
    assert((m & 0x80u8 != 0) == (1 < cols && 3 < rows)) by (bit_vector)
        requires m == bounded_bits(cols, rows);
}

/// Mask covering the first `cols`×`rows` dots of a cell.
fn bounded_mask(cols: u32, rows: u32) -> (mask: u8)
    ensures
        mask == bounded_bits(cols, rows),
{
    let mut mask: u8 = 0;
    if 0 < cols && 0 < rows { mask = mask | 0x01; }
    if 0 < cols && 1 < rows { mask = mask | 0x02; }
    if 0 < cols && 2 < rows { mask = mask | 0x04; }
    if 1 < cols && 0 < rows { mask = mask | 0x08; }
    if 1 < cols && 1 < rows { mask = mask | 0x10; }
    if 1 < cols && 2 < rows { mask = mask | 0x20; }
    if 0 < cols && 3 < rows { mask = mask | 0x40; }
    if 1 < cols && 3 < rows { mask = mask | 0x80; }
    proof {
        braille::lemma_pack_steps(0 < cols && 0 < rows, 0 < cols && 1 < rows, 0 < cols && 2 < rows,
            1 < cols && 0 < rows, 1 < cols && 1 < rows, 1 < cols && 2 < rows, 0 < cols && 3 < rows, 1 < cols && 3 < rows);
    }
    mask
}

/// Number of bits set in `m`.
pub open spec fn popcount(m: u8) -> nat {
    (if m & 0x01u8 != 0 { 1nat } else { 0nat }) + (if m & 0x02u8 != 0 { 1nat } else { 0nat })
        + (if m & 0x04u8 != 0 { 1nat } else { 0nat }) + (if m & 0x08u8 != 0 { 1nat } else { 0nat })
        + (if m & 0x10u8 != 0 { 1nat } else { 0nat }) + (if m & 0x20u8 != 0 { 1nat } else { 0nat })
        + (if m & 0x40u8 != 0 { 1nat } else { 0nat }) + (if m & 0x80u8 != 0 { 1nat } else { 0nat })
}

/// Total number of bits set over a sequence of masks.
pub open spec fn total_popcount(masks: Seq<u8>) -> nat
    decreases masks.len(),
{
    if masks.len() == 0 {
        0
    } else {
        total_popcount(masks.drop_last()) + popcount(masks.last())
    }
}

/// Whether `m` has the bit of the dot with index `j`.
spec fn bit_dot(m: u8, j: int) -> bool {
    m & dot_mask(dot_at(j).0, dot_at(j).1) != 0
}

/// Number of bits of `m` among the dots with index below `j`.
spec fn bits_below(m: u8, j: nat) -> nat
    decreases j,
{
    if j == 0 {
        0
    } else {
        bits_below(m, (j - 1) as nat) + if bit_dot(m, j - 1) { 1nat } else { 0nat }
    }
}

proof fn lemma_bits_below_all(m: u8)
    ensures
        bits_below(m, 8) == popcount(m),
{
    braille::lemma_dot_mask_values();
    reveal_with_fuel(bits_below, 9);
}

/// The dots of cell `(cx, cy)` whose bits among the first `j` are set in `m`.
spec fn cell_dots(cx: int, cy: int, m: u8, j: nat) -> Set<(int, int)>
    decreases j,
{
    if j == 0 {
        Set::empty()
    } else {
        let prev = cell_dots(cx, cy, m, (j - 1) as nat);
        let d = dot_at(j - 1);
        if bit_dot(m, j - 1) { prev.insert((2 * cx + d.0, 4 * cy + d.1)) } else { prev }
    }
}

/// Whether `p` is a dot of cell `(cx, cy)` with index below `j` and its bit
/// set in `m`.
spec fn in_cell_dots(cx: int, cy: int, m: u8, j: int, p: (int, int)) -> bool {
    let (a, b) = (p.0 - 2 * cx, p.1 - 4 * cy);
    in_cell(a, b) && dot_index(a, b) < j && m & dot_mask(a, b) != 0
}

proof fn lemma_cell_dots(cx: int, cy: int, m: u8, j: nat)
    requires
        j <= 8,
    ensures
        cell_dots(cx, cy, m, j).finite(),
        cell_dots(cx, cy, m, j).len() == bits_below(m, j),
        forall|p: (int, int)| #[trigger] cell_dots(cx, cy, m, j).contains(p) <==> in_cell_dots(cx, cy, m, j as int, p),
    decreases j,
{
    lemma_dot_index_bijective();
    if j == 0 {
        assert forall|p: (int, int)| !#[trigger] in_cell_dots(cx, cy, m, 0, p) by {
        }
    } else {
        let i = (j - 1) as nat;
        lemma_cell_dots(cx, cy, m, i);
        let prev = cell_dots(cx, cy, m, i);
        let d = dot_at(i as int);
        let q = (2 * cx + d.0, 4 * cy + d.1);
        assert(in_cell(d.0, d.1) && dot_index(d.0, d.1) == i);
        assert(!prev.contains(q));
        assert forall|p: (int, int)| #[trigger] cell_dots(cx, cy, m, j).contains(p) <==> in_cell_dots(cx, cy, m, j as int, p) by {
            let (a, b) = (p.0 - 2 * cx, p.1 - 4 * cy);
            if in_cell(a, b) && dot_index(a, b) == i {
                assert(a == d.0 && b == d.1);
            }
        }
    }
}

/// The dots `(x, y)` with `0 <= x < w` and `0 <= y < h`.
spec fn grid(w: int, h: int) -> Set<(int, int)> {
    Set::new(|p: (int, int)| 0 <= p.0 < w && 0 <= p.1 < h)
}

/// The dots `(x, y)` of row `y` with `0 <= x < w`.
spec fn grid_row(w: int, y: int) -> Set<(int, int)> {
    Set::new(|p: (int, int)| 0 <= p.0 < w && p.1 == y)
}

proof fn lemma_grid_row_len(w: nat, y: int)
    ensures
        grid_row(w as int, y).finite(),
        grid_row(w as int, y).len() == w,
    decreases w,
{
    if w == 0 {
        assert(grid_row(0, y) =~= Set::<(int, int)>::empty());
    } else {
        let v = (w - 1) as nat;
        lemma_grid_row_len(v, y);
        assert(grid_row(w as int, y) =~= grid_row(v as int, y).insert((v as int, y)));
    }
}

proof fn lemma_grid_len(w: nat, h: nat)
    ensures
        grid(w as int, h as int).finite(),
        grid(w as int, h as int).len() == w * h,
    decreases h,
{
    if h == 0 {
        assert(grid(w as int, 0) =~= Set::<(int, int)>::empty());
    } else {
        let g = (h - 1) as nat;
        lemma_grid_len(w, g);
        lemma_grid_row_len(w, g as int);
        assert(grid(w as int, h as int) =~= grid(w as int, g as int) + grid_row(w as int, g as int));
        assert(grid(w as int, g as int).disjoint(grid_row(w as int, g as int)));
        vstd::set_lib::lemma_set_disjoint_lens(grid(w as int, g as int), grid_row(w as int, g as int));
        assert(w * g + w == w * h) by (nonlinear_arith)
            requires g + 1 == h;
    }
}

/// Only the zero byte has no bit set.
proof fn lemma_popcount_zero(m: u8)
    ensures
        (popcount(m) == 0) == (m == 0),
        popcount(m) <= 8,
{
    assert((m & 0x01u8 == 0 && m & 0x02u8 == 0 && m & 0x04u8 == 0 && m & 0x08u8 == 0
        && m & 0x10u8 == 0 && m & 0x20u8 == 0 && m & 0x40u8 == 0 && m & 0x80u8 == 0) == (m == 0)) by (bit_vector);
}

/// Number of bits set in `m`.
fn mask_popcount(m: u8) -> (count: u32)
    ensures
        count == popcount(m),
{
    let mut count: u32 = 0;
    if m & 0x01 != 0 { count = count + 1; }
    if m & 0x02 != 0 { count = count + 1; }
    if m & 0x04 != 0 { count = count + 1; }
    if m & 0x08 != 0 { count = count + 1; }
    if m & 0x10 != 0 { count = count + 1; }
    if m & 0x20 != 0 { count = count + 1; }
    if m & 0x40 != 0 { count = count + 1; }
    if m & 0x80 != 0 { count = count + 1; }
    count
}

/// The dots after flipping `p`: nothing changes when `p` is off the canvas
/// (`inside` false), otherwise `p` leaves the set if it was in and joins it
/// if it was not.
pub open spec fn toggled(dots: Set<(int, int)>, p: (int, int), inside: bool) -> Set<(int, int)> {
    if !inside {
        dots
    } else if dots.contains(p) {
        dots.remove(p)
    } else {
        dots.insert(p)
    }
}

/// Toggling the same dot twice restores the dots that were on.
pub proof fn lemma_toggle_twice(dots: Set<(int, int)>, p: (int, int), inside: bool)
    ensures
        toggled(toggled(dots, p, inside), p, inside) == dots,
{
    if inside {
        if dots.contains(p) {
            assert(dots.remove(p).insert(p) =~= dots);
        } else {
            assert(dots.insert(p).remove(p) =~= dots);
        }
    }
}

impl Canvas {
    /// Turns the dot at `(x, y)` off. Out-of-range coordinates are ignored.
    pub fn unset(&mut self, x: i32, y: i32) -> (inside: bool)
        requires
            old(self).wf(),
        ensures
            final(self).wf(),
            final(self).same_size(old(self)),
            inside == old(self).in_canvas(x as int, y as int),
            final(self)@ == old(self)@.remove((x as int, y as int)),
    {
        match self.locate(x, y) {
            Some((index, bit)) => {
                let v: u8 = self.cells[index] & !bit;
                self.cells.set(index, v);
                proof {
                    let (xi, yi) = (x as int, y as int);
                    let i = dot_index(xi % 2, yi % 4) as u8;
                    assert forall|lx: int, ly: int| in_cell(lx, ly) && #[trigger] (v & dot_mask(lx, ly)) != 0
                        implies (old(self).cells@[old(self).cell_of(xi, yi)] & dot_mask(lx, ly) != 0 || (lx == xi % 2 && ly == yi % 4)) by {
                        lemma_dot_index_bijective();
                        lemma_clear_bit(old(self).cells@[index as int], i, dot_index(lx, ly) as u8);
                    }
                    Canvas::lemma_update_wf(old(self), self, xi, yi, v);
                    assert forall|p: (int, int)| self.lit(p.0, p.1) == (old(self).lit(p.0, p.1) && p != (xi, yi)) by {
                        Canvas::lemma_update_lit(old(self), self, xi, yi, v, p.0, p.1);
                        if old(self).in_canvas(p.0, p.1) && old(self).cell_of(p.0, p.1) == old(self).cell_of(xi, yi) {
                            old(self).lemma_same_cell_same_bit(xi, yi, p.0, p.1);
                            lemma_clear_bit(old(self).cells@[index as int], i, dot_index(p.0 % 2, p.1 % 4) as u8);
                        }
                    }
                    assert(self@ =~= old(self)@.remove((xi, yi)));
                }
                true
            },
            None => {
                assert(self@ =~= old(self)@.remove((x as int, y as int)));
                false
            },
        }
    }

    /// Flips the dot at `(x, y)`. Out-of-range coordinates are ignored.
    pub fn toggle(&mut self, x: i32, y: i32) -> (inside: bool)
        requires
            old(self).wf(),
        ensures
            final(self).wf(),
            final(self).same_size(old(self)),
            inside == old(self).in_canvas(x as int, y as int),
            final(self)@ == toggled(old(self)@, (x as int, y as int), inside),
    {
        match self.locate(x, y) {
            Some((index, bit)) => {
                let v: u8 = self.cells[index] ^ bit;
                self.cells.set(index, v);
                proof {
                    let (xi, yi) = (x as int, y as int);
                    let i = dot_index(xi % 2, yi % 4) as u8;
                    assert forall|lx: int, ly: int| in_cell(lx, ly) && #[trigger] (v & dot_mask(lx, ly)) != 0
                        implies (old(self).cells@[old(self).cell_of(xi, yi)] & dot_mask(lx, ly) != 0 || (lx == xi % 2 && ly == yi % 4)) by {
                        lemma_dot_index_bijective();
                        lemma_flip_bit(old(self).cells@[index as int], i, dot_index(lx, ly) as u8);
                    }
                    Canvas::lemma_update_wf(old(self), self, xi, yi, v);
                    assert forall|p: (int, int)| self.lit(p.0, p.1) == (if p == (xi, yi) { !old(self).lit(p.0, p.1) } else { old(self).lit(p.0, p.1) }) by {
                        Canvas::lemma_update_lit(old(self), self, xi, yi, v, p.0, p.1);
                        if old(self).in_canvas(p.0, p.1) && old(self).cell_of(p.0, p.1) == old(self).cell_of(xi, yi) {
                            old(self).lemma_same_cell_same_bit(xi, yi, p.0, p.1);
                            lemma_flip_bit(old(self).cells@[index as int], i, dot_index(p.0 % 2, p.1 % 4) as u8);
                        }
                    }
                    if old(self)@.contains((xi, yi)) {
                        assert(self@ =~= old(self)@.remove((xi, yi)));
                    } else {
                        assert(self@ =~= old(self)@.insert((xi, yi)));
                    }
                }
                true
            },
            None => false,
        }
    }

    /// Sets or clears the dot at `(x, y)` depending on `value`.
    pub fn put(&mut self, x: i32, y: i32, value: bool) -> (inside: bool)
        requires
            old(self).wf(),
        ensures
            final(self).wf(),
            final(self).same_size(old(self)),
            inside == old(self).in_canvas(x as int, y as int),
            final(self)@ == (if !value {
                old(self)@.remove((x as int, y as int))
            } else if inside {
                old(self)@.insert((x as int, y as int))
            } else {
                old(self)@
            }),
    {
        if value {
            self.set(x, y)
        } else {
            self.unset(x, y)
        }
    }

    /// Reads the dot at `(x, y)`. Out-of-range coordinates read as `false`.
    pub fn get(&self, x: i32, y: i32) -> (on: bool)
        requires
            self.wf(),
        ensures
            on == self@.contains((x as int, y as int)),
    {
        match self.locate(x, y) {
            Some((index, bit)) => self.cells[index] & bit != 0,
            None => false,
        }
    }

    /// Clears every dot.
    pub fn clear(&mut self)
        requires
            old(self).wf(),
        ensures
            final(self).wf(),
            final(self).same_size(old(self)),
            final(self)@ == Set::<(int, int)>::empty(),
    {
        let len = self.cells.len();
        let mut i: usize = 0;
        while i < len
            invariant
                i <= len,
                len == self.cells@.len(),
                self.width == old(self).width,
                self.height == old(self).height,
                self.cells_width == old(self).cells_width,
                self.cells_height == old(self).cells_height,
                old(self).wf(),
                len == old(self).cells@.len(),
                forall|k: int| 0 <= k < i ==> self.cells@[k] == 0u8,
            decreases len - i,
        {
            self.cells.set(i, 0);
            i = i + 1;
        }
        proof {
            assert forall|cx: int, cy: int, lx: int, ly: int|
                0 <= cx < self.cells_width && 0 <= cy < self.cells_height && in_cell(lx, ly)
                    && #[trigger] self.cells@[cy * self.cells_width + cx] & #[trigger] dot_mask(lx, ly) != 0
                implies self.in_canvas(2 * cx + lx, 4 * cy + ly) by {
                lemma_cell_index(self.cells_width as int, self.cells_height as int, cx, cy);
                lemma_zero_no_bit(dot_index(lx, ly) as u8);
            }
            assert forall|p: (int, int)| !self.lit(p.0, p.1) by {
                if self.in_canvas(p.0, p.1) {
                    self.lemma_cell_of_in_range(p.0, p.1);
                    lemma_zero_no_bit(dot_index(p.0 % 2, p.1 % 4) as u8);
                }
            }
            assert(self@ =~= Set::<(int, int)>::empty());
        }
    }

    /// The mask a full cell `(cx, cy)` of this canvas holds: every dot of the
    /// cell that lies inside the canvas.
    pub open spec fn full_mask(&self, cx: int, cy: int) -> u8 {
        bounded_bits(
            if self.spec_width() - 2 * cx < 2 { (self.spec_width() - 2 * cx) as u32 } else { 2u32 },
            if self.spec_height() - 4 * cy < 4 { (self.spec_height() - 4 * cy) as u32 } else { 4u32 },
        )
    }

    /// Sets every dot inside the canvas. Dots that belong to a partially used
    /// edge cell stay off, so the rendered output never spills past the canvas.
    pub fn fill(&mut self)
        requires
            old(self).wf(),
        ensures
            final(self).wf(),
            final(self).same_size(old(self)),
            final(self)@ == Set::new(|p: (int, int)| old(self).in_canvas(p.0, p.1)),
    {
        let cw = self.cells_width;
        let ch = self.cells_height;
        let mut cy: u32 = 0;
        while cy < ch
            invariant
                cy <= ch,
                cw == self.cells_width,
                ch == self.cells_height,
                self.width == old(self).width,
                self.height == old(self).height,
                self.cells_width == old(self).cells_width,
                self.cells_height == old(self).cells_height,
                old(self).wf(),
                self.cells@.len() == old(self).cells@.len(),
                forall|cx2: int, cy2: int| 0 <= cx2 < cw && 0 <= cy2 < cy
                    ==> #[trigger] self.cells@[cy2 * cw + cx2] == self.full_mask(cx2, cy2),
            decreases ch - cy,
        {
            assert(4 * cy < self.height) by (nonlinear_arith)
                requires cy < ch, ch == (self.height + 3) / 4;
            let rest_rows: u32 = self.height - cy * CELL_HEIGHT;
            let rows: u32 = if rest_rows < CELL_HEIGHT { rest_rows } else { CELL_HEIGHT };
            let mut cx: u32 = 0;
            while cx < cw
                invariant
                    cx <= cw,
                    cy < ch,
                    cw == self.cells_width,
                    ch == self.cells_height,
                    4 * cy < self.height,
                    rows == (if self.height - 4 * cy < 4 { (self.height - 4 * cy) as u32 } else { 4u32 }),
                    self.width == old(self).width,
                    self.height == old(self).height,
                    self.cells_width == old(self).cells_width,
                    self.cells_height == old(self).cells_height,
                    old(self).wf(),
                    self.cells@.len() == old(self).cells@.len(),
                    forall|cx2: int, cy2: int| 0 <= cx2 < cw && 0 <= cy2 < cy
                        ==> #[trigger] self.cells@[cy2 * cw + cx2] == self.full_mask(cx2, cy2),
                    forall|cx2: int| 0 <= cx2 < cx ==> #[trigger] self.cells@[cy * cw + cx2] == self.full_mask(cx2, cy as int),
                decreases cw - cx,
            {
                assert(2 * cx < self.width) by (nonlinear_arith)
                    requires cx < cw, cw == (self.width + 1) / 2;
                let rest_cols: u32 = self.width - cx * CELL_WIDTH;
                let cols: u32 = if rest_cols < CELL_WIDTH { rest_cols } else { CELL_WIDTH };
                proof {
                    lemma_cell_index(cw as int, ch as int, cx as int, cy as int);
                }
                let index: usize = cy as usize * cw as usize + cx as usize;
                let mask = bounded_mask(cols, rows);
                let ghost before = self.cells@;
                self.cells.set(index, mask);
                proof {
                    assert forall|cx2: int, cy2: int| 0 <= cx2 < cw && 0 <= cy2 < cy
                        implies #[trigger] self.cells@[cy2 * cw + cx2] == self.full_mask(cx2, cy2) by {
                        lemma_cell_index(cw as int, ch as int, cx2, cy2);
                        assert(before[cy2 * cw + cx2] == self.full_mask(cx2, cy2));
                    }
                    assert forall|cx2: int| 0 <= cx2 < cx + 1 implies #[trigger] self.cells@[cy * cw + cx2] == self.full_mask(cx2, cy as int) by {
                        lemma_cell_index(cw as int, ch as int, cx2, cy as int);
                        if cx2 < cx {
                            assert(before[cy * cw + cx2] == self.full_mask(cx2, cy as int));
                        }
                    }
                }
                cx = cx + 1;
            }
            cy = cy + 1;
        }
        proof {
            assert forall|cx: int, cy: int, lx: int, ly: int|
                0 <= cx < self.cells_width && 0 <= cy < self.cells_height && in_cell(lx, ly)
                    && #[trigger] self.cells@[cy * self.cells_width + cx] & #[trigger] dot_mask(lx, ly) != 0
                implies self.in_canvas(2 * cx + lx, 4 * cy + ly) by {
                assert(self.cells@[cy * cw + cx] == self.full_mask(cx, cy));
                lemma_bounded_bits(
                    if self.spec_width() - 2 * cx < 2 { (self.spec_width() - 2 * cx) as u32 } else { 2u32 },
                    if self.spec_height() - 4 * cy < 4 { (self.spec_height() - 4 * cy) as u32 } else { 4u32 },
                    lx, ly);
            }
            assert forall|p: (int, int)| self.lit(p.0, p.1) == old(self).in_canvas(p.0, p.1) by {
                if self.in_canvas(p.0, p.1) {
                    self.lemma_cell_of_in_range(p.0, p.1);
                    let (cx, cy) = (p.0 / 2, p.1 / 4);
                    assert(self.cells@[cy * cw + cx] == self.full_mask(cx, cy));
                    lemma_bounded_bits(
                        if self.spec_width() - 2 * cx < 2 { (self.spec_width() - 2 * cx) as u32 } else { 2u32 },
                        if self.spec_height() - 4 * cy < 4 { (self.spec_height() - 4 * cy) as u32 } else { 4u32 },
                        p.0 % 2, p.1 % 4);
                }
            }
            assert(self@ =~= Set::new(|p: (int, int)| old(self).in_canvas(p.0, p.1)));
        }
    }

    /// A filled canvas has exactly `width × height` dots on: the dots that
    /// `fill` leaves on are finite and that many.
    pub proof fn lemma_filled_dot_count(&self)
        ensures
            Set::new(|p: (int, int)| self.in_canvas(p.0, p.1)).finite(),
            Set::new(|p: (int, int)| self.in_canvas(p.0, p.1)).len() == self.spec_width() * self.spec_height(),
    {
        lemma_grid_len(self.spec_width(), self.spec_height());
        assert(Set::new(|p: (int, int)| self.in_canvas(p.0, p.1))
            =~= grid(self.spec_width() as int, self.spec_height() as int));
    }

    /// Number of dots currently set: the total number of bits set over all
    /// cell masks.
    pub fn count(&self) -> (count: u32)
        requires
            self.wf(),
        ensures
            count == total_popcount(self.spec_masks()),
            count == self@.len(),
    {
        proof {
            self.lemma_count_matches_dots();
        }
        let len = self.cells.len();
        let mut total: u32 = 0;
        let mut i: usize = 0;
        while i < len
            invariant
                i <= len,
                len == self.cells@.len(),
                len <= MAX_CANVAS_CELLS,
                total == total_popcount(self.cells@.take(i as int)),
                total <= 8 * i,
            decreases len - i,
        {
            proof {
                lemma_popcount_zero(self.cells@[i as int]);
                assert(self.cells@.take(i as int + 1).drop_last() =~= self.cells@.take(i as int));
            }
            total = total + mask_popcount(self.cells[i]);
            i = i + 1;
        }
        assert(self.cells@.take(len as int) =~= self.cells@);
        total
    }

    /// The dots that are on and sit in one of the first `k` cells.
    spec fn dots_before(&self, k: int) -> Set<(int, int)> {
        Set::new(|p: (int, int)| self.lit(p.0, p.1) && self.cell_of(p.0, p.1) < k)
    }

    proof fn lemma_dots_before(&self, k: int)
        requires
            self.wf(),
            0 <= k <= self.cells@.len(),
        ensures
            self.dots_before(k).finite(),
            self.dots_before(k).len() == total_popcount(self.cells@.take(k)),
        decreases k,
    {
        let cw = self.cells_width as int;
        let ch = self.cells_height as int;
        if k == 0 {
            assert forall|p: (int, int)| !#[trigger] self.dots_before(0).contains(p) by {
                if self.lit(p.0, p.1) {
                    self.lemma_cell_of_in_range(p.0, p.1);
                }
            }
            assert(self.dots_before(0) =~= Set::<(int, int)>::empty());
        } else {
            let i = k - 1;
            self.lemma_dots_before(i);
            assert(cw > 0) by (nonlinear_arith)
                requires 0 <= i < cw * ch, 0 <= ch;
            let cx = i % cw;
            let cy = i / cw;
            assert(i == cy * cw + cx && 0 <= cx < cw && 0 <= cy < ch) by (nonlinear_arith)
                requires 0 <= i < cw * ch, cw > 0, cx == i % cw, cy == i / cw;
            let m = self.cells@[i];
            lemma_cell_dots(cx, cy, m, 8);
            lemma_bits_below_all(m);
            lemma_dot_index_bijective();
            let c = cell_dots(cx, cy, m, 8);
            let before = self.dots_before(i);
            assert forall|p: (int, int)| #[trigger] self.dots_before(k).contains(p) <==> before.contains(p) || c.contains(p) by {
                let (a, b) = (p.0 - 2 * cx, p.1 - 4 * cy);
                if self.dots_before(k).contains(p) && !before.contains(p) {
                    self.lemma_cell_of_in_range(p.0, p.1);
                    lemma_cell_index(cw, ch, p.0 / 2, p.1 / 4);
                    assert(p.0 / 2 == cx && p.1 / 4 == cy);
                    assert(a == p.0 % 2 && b == p.1 % 4);
                    assert(in_cell(a, b));
                }
                if c.contains(p) {
                    assert(in_cell(a, b) && m & dot_mask(a, b) != 0);
                    assert(self.cells@[cy * self.cells_width + cx] & dot_mask(a, b) != 0);
                    assert(self.in_canvas(2 * cx + a, 4 * cy + b));
                    assert(p.0 / 2 == cx && p.0 % 2 == a && p.1 / 4 == cy && p.1 % 4 == b);
                    assert(self.cell_of(p.0, p.1) == i);
                }
            }
            assert(self.dots_before(k) =~= before + c);
            assert(before.disjoint(c)) by {
                assert forall|p: (int, int)| before.contains(p) implies !c.contains(p) by {
                    if c.contains(p) {
                        let (a, b) = (p.0 - 2 * cx, p.1 - 4 * cy);
                        assert(p.0 / 2 == cx && p.1 / 4 == cy);
                    }
                }
            }
            vstd::set_lib::lemma_set_disjoint_lens(before, c);
            assert(self.cells@.take(k).drop_last() =~= self.cells@.take(i));
        }
    }

    /// The number of dots that are on is the total number of bits set over
    /// the cell masks; in particular the set of dots is finite.
    pub proof fn lemma_count_matches_dots(&self)
        requires
            self.wf(),
        ensures
            self@.finite(),
            self@.len() == total_popcount(self.spec_masks()),
    {
        let len = self.cells@.len() as int;
        self.lemma_dots_before(len);
        assert forall|p: (int, int)| #[trigger] self@.contains(p) <==> self.dots_before(len).contains(p) by {
            if self.lit(p.0, p.1) {
                self.lemma_cell_of_in_range(p.0, p.1);
            }
        }
        assert(self@ =~= self.dots_before(len));
        assert(self.cells@.take(len) =~= self.cells@);
    }

    /// Whether no dot is set.
    pub fn is_empty(&self) -> (empty: bool)
        requires
            self.wf(),
        ensures
            empty == (self@ == Set::<(int, int)>::empty()),
            empty == (forall|i: int| 0 <= i < self.spec_masks().len() ==> #[trigger] self.spec_masks()[i] == 0u8),
    {
        let len = self.cells.len();
        let mut i: usize = 0;
        while i < len
            invariant
                i <= len,
                len == self.cells@.len(),
                self.wf(),
                forall|k: int| 0 <= k < i ==> #[trigger] self.cells@[k] == 0u8,
            decreases len - i,
        {
            if self.cells[i] != 0 {
                proof {
                    self.lemma_nonzero_cell_has_dot(i as int);
                    assert(self.spec_masks()[i as int] != 0u8);
                }
                return false;
            }
            i = i + 1;
        }
        proof {
            assert forall|p: (int, int)| !self.lit(p.0, p.1) by {
                if self.in_canvas(p.0, p.1) {
                    self.lemma_cell_of_in_range(p.0, p.1);
                    lemma_zero_no_bit(dot_index(p.0 % 2, p.1 % 4) as u8);
                }
            }
            assert(self@ =~= Set::<(int, int)>::empty());
        }
        true
    }

    /// A cell with a nonzero mask holds a dot that is on.
    proof fn lemma_nonzero_cell_has_dot(&self, i: int)
        requires
            self.wf(),
            0 <= i < self.cells@.len(),
            self.cells@[i] != 0,
        ensures
            self@ != Set::<(int, int)>::empty(),
    {
        let cw = self.cells_width as int;
        let ch = self.cells_height as int;
        assert(cw > 0) by (nonlinear_arith)
            requires 0 <= i < cw * ch, 0 <= ch;
        let cx = i % cw;
        let cy = i / cw;
        assert(i == cy * cw + cx && 0 <= cx < cw && 0 <= cy < ch) by (nonlinear_arith)
            requires 0 <= i < cw * ch, cw > 0, cx == i % cw, cy == i / cw;
        lemma_nonzero_has_bit(self.cells@[i]);
        let j = choose|j: u8| j < 8 && #[trigger] (self.cells@[i] & (1u8 << j)) != 0;
        lemma_dot_index_bijective();
        let (lx, ly) = dot_at(j as int);
        assert(dot_mask(lx, ly) == 1u8 << j);
        assert(self.cells@[cy * self.cells_width + cx] & dot_mask(lx, ly) != 0);
        let (x, y) = (2 * cx + lx, 4 * cy + ly);
        assert(self.in_canvas(x, y));
        assert(x / 2 == cx && x % 2 == lx && y / 4 == cy && y % 4 == ly);
        assert(self.lit(x, y));
        assert(self@.contains((x, y)));
    }

    /// The raw Braille dot mask of the character cell at `(cell_x, cell_y)`.
    pub fn cell_mask(&self, cell_x: u32, cell_y: u32) -> (mask: Option<u8>)
        requires
            self.wf(),
        ensures
            mask == (if cell_x < self.spec_cells_width() && cell_y < self.spec_cells_height() {
                Some(self.spec_masks()[cell_y * self.spec_cells_width() + cell_x])
            } else {
                None::<u8>
            }),
    {
        if cell_x >= self.cells_width || cell_y >= self.cells_height {
            return None;
        }
        proof {
            lemma_cell_index(self.cells_width as int, self.cells_height as int, cell_x as int, cell_y as int);
        }
        let index: usize = cell_y as usize * self.cells_width as usize + cell_x as usize;
        Some(self.cells[index])
    }

    /// The whole dot-mask buffer, row-major over character cells.
    pub fn masks(&self) -> (masks: &[u8])
        ensures
            masks@ == self.spec_masks(),
    {
        self.cells.as_slice()
    }
}

/// One step of a coordinate toward `target`.
pub open spec fn toward(v: int, target: int) -> int {
    if v < target { v + 1 } else { v - 1 }
}

/// Absolute value.
pub open spec fn abs(v: int) -> int {
    if v < 0 { -v } else { v }
}

/// The dots Bresenham's walk visits from `(x, y)` with error term `err`
/// toward `(x1, y1)`, where `dx = |x1 - x0|` and `dy = -|y1 - y0|` for the
/// original endpoints. The error term tracks twice the distance to the ideal
/// line, so no division is needed.
pub open spec fn line_walk(x: int, y: int, err: int, x1: int, y1: int, dx: int, dy: int) -> Set<(int, int)>
    decreases abs(x1 - x) + abs(y1 - y),
{
    let here = set![(x, y)];
    let doubled = 2 * err;
    let step_x = doubled >= dy;
    let step_y = doubled <= dx;
    if (x == x1 && y == y1) || (step_x && x == x1) || (step_y && y == y1) || !(step_x || step_y) {
        here
    } else {
        let nx = if step_x { toward(x, x1) } else { x };
        let ny = if step_y { toward(y, y1) } else { y };
        let nerr = err + (if step_x { dy } else { 0 }) + (if step_y { dx } else { 0 });
        here + line_walk(nx, ny, nerr, x1, y1, dx, dy)
    }
}

/// The dots of the Bresenham line from `(x0, y0)` to `(x1, y1)`.
pub open spec fn line_points(x0: int, y0: int, x1: int, y1: int) -> Set<(int, int)> {
    let dx = abs(x1 - x0);
    let dy = -abs(y1 - y0);
    line_walk(x0, y0, dx + dy, x1, y1, dx, dy)
}

/// A horizontal walk visits every dot between the ends.
proof fn lemma_horizontal_walk(x: int, y: int, x1: int, dx: int)
    requires
        x <= x1,
        dx >= 0,
        dx == 0 ==> x == x1,
    ensures
        line_walk(x, y, dx, x1, y, dx, 0) == Set::new(|p: (int, int)| x <= p.0 <= x1 && p.1 == y),
    decreases x1 - x,
{
    if x == x1 {
        assert(line_walk(x, y, dx, x1, y, dx, 0) =~= Set::new(|p: (int, int)| x <= p.0 <= x1 && p.1 == y));
    } else {
        lemma_horizontal_walk(x + 1, y, x1, dx);
        assert(line_walk(x, y, dx, x1, y, dx, 0) =~= Set::new(|p: (int, int)| x <= p.0 <= x1 && p.1 == y));
    }
}

/// A vertical walk visits every dot between the ends.
proof fn lemma_vertical_walk(x: int, y: int, y1: int, dy: int)
    requires
        y <= y1,
        dy <= 0,
        dy == 0 ==> y == y1,
    ensures
        line_walk(x, y, dy, x, y1, 0, dy) == Set::new(|p: (int, int)| p.0 == x && y <= p.1 <= y1),
    decreases y1 - y,
{
    if y == y1 {
        assert(line_walk(x, y, dy, x, y1, 0, dy) =~= Set::new(|p: (int, int)| p.0 == x && y <= p.1 <= y1));
    } else {
        lemma_vertical_walk(x, y + 1, y1, dy);
        assert(line_walk(x, y, dy, x, y1, 0, dy) =~= Set::new(|p: (int, int)| p.0 == x && y <= p.1 <= y1));
    }
}

/// A horizontal line covers exactly the dots between its ends.
pub proof fn lemma_horizontal_line(x0: int, x1: int, y: int)
    requires
        x0 <= x1,
    ensures
        line_points(x0, y, x1, y) == Set::new(|p: (int, int)| x0 <= p.0 <= x1 && p.1 == y),
{
    lemma_horizontal_walk(x0, y, x1, x1 - x0);
}

/// A vertical line covers exactly the dots between its ends.
pub proof fn lemma_vertical_line(x: int, y0: int, y1: int)
    requires
        y0 <= y1,
    ensures
        line_points(x, y0, x, y1) == Set::new(|p: (int, int)| p.0 == x && y0 <= p.1 <= y1),
{
    lemma_vertical_walk(x, y0, y1, -(y1 - y0));
}

/// Every dot a walk visits lies in the box spanned by its current position
/// and its target.
proof fn lemma_walk_in_box(x: int, y: int, err: int, x1: int, y1: int, dx: int, dy: int)
    ensures
        forall|p: (int, int)| #[trigger] line_walk(x, y, err, x1, y1, dx, dy).contains(p)
            ==> (if x <= x1 { x <= p.0 <= x1 } else { x1 <= p.0 <= x })
                && (if y <= y1 { y <= p.1 <= y1 } else { y1 <= p.1 <= y }),
    decreases abs(x1 - x) + abs(y1 - y),
{
    let doubled = 2 * err;
    let step_x = doubled >= dy;
    let step_y = doubled <= dx;
    if (x == x1 && y == y1) || (step_x && x == x1) || (step_y && y == y1) || !(step_x || step_y) {
        assert(line_walk(x, y, err, x1, y1, dx, dy) == set![(x, y)]);
    } else {
        let nx = if step_x { toward(x, x1) } else { x };
        let ny = if step_y { toward(y, y1) } else { y };
        let nerr = err + (if step_x { dy } else { 0 }) + (if step_y { dx } else { 0 });
        lemma_walk_in_box(nx, ny, nerr, x1, y1, dx, dy);
        assert(line_walk(x, y, err, x1, y1, dx, dy) == set![(x, y)] + line_walk(nx, ny, nerr, x1, y1, dx, dy));
    }
}

/// A line never leaves the box spanned by its two ends, so drawing never
/// wraps around the canvas.
pub proof fn lemma_line_in_box(x0: int, y0: int, x1: int, y1: int, p: (int, int))
    requires
        line_points(x0, y0, x1, y1).contains(p),
    ensures
        (if x0 <= x1 { x0 <= p.0 <= x1 } else { x1 <= p.0 <= x0 }),
        (if y0 <= y1 { y0 <= p.1 <= y1 } else { y1 <= p.1 <= y0 }),
{
    let dx = abs(x1 - x0);
    let dy = -abs(y1 - y0);
    lemma_walk_in_box(x0, y0, dx + dy, x1, y1, dx, dy);
}

/// A line always includes its starting dot.
pub proof fn lemma_line_starts_at_origin(x0: int, y0: int, x1: int, y1: int)
    ensures
        line_points(x0, y0, x1, y1).contains((x0, y0)),
{
}

proof fn lemma_walk_reaches_end(x: int, y: int, err: int, x1: int, y1: int, dx: int, dy: int)
    requires
        dx >= 0,
        dy <= 0,
        abs(x1 - x) <= dx,
        abs(y1 - y) <= -dy,
        err == dx + dy - abs(x1 - x) * dy - abs(y1 - y) * dx,
    ensures
        line_walk(x, y, err, x1, y1, dx, dy).contains((x1, y1)),
    decreases abs(x1 - x) + abs(y1 - y),
{
    let a = abs(x1 - x);
    let b = abs(y1 - y);
    let doubled = 2 * err;
    let step_x = doubled >= dy;
    let step_y = doubled <= dx;
    if x == x1 && y == y1 {
    } else {
        // The walk never stops short: it steps along an axis only while that
        // axis still has distance to cover, and it always steps.
        assert(step_x || step_y) by (nonlinear_arith)
            requires
                err == dx + dy - a * dy - b * dx,
                step_x == (2 * err >= dy),
                step_y == (2 * err <= dx),
                dx >= 0,
                dy <= 0;
        assert(!(step_x && a == 0) || b == 0) by (nonlinear_arith)
            requires
                err == dx + dy - a * dy - b * dx,
                step_x == (2 * err >= dy),
                0 <= b <= -dy,
                dx >= 0,
                dy <= 0;
        assert(!(step_y && b == 0) || a == 0) by (nonlinear_arith)
            requires
                err == dx + dy - a * dy - b * dx,
                step_y == (2 * err <= dx),
                0 <= a <= dx,
                dx >= 0,
                dy <= 0;
        let nx = if step_x { toward(x, x1) } else { x };
        let ny = if step_y { toward(y, y1) } else { y };
        let nerr = err + (if step_x { dy } else { 0 }) + (if step_y { dx } else { 0 });
        let na = abs(x1 - nx);
        let nb = abs(y1 - ny);
        assert(na == (if step_x { a - 1 } else { a }));
        assert(nb == (if step_y { b - 1 } else { b }));
        assert(nerr == dx + dy - na * dy - nb * dx) by (nonlinear_arith)
            requires
                err == dx + dy - a * dy - b * dx,
                nerr == err + (if step_x { dy } else { 0 }) + (if step_y { dx } else { 0 }),
                na == (if step_x { a - 1 } else { a }),
                nb == (if step_y { b - 1 } else { b });
        lemma_walk_reaches_end(nx, ny, nerr, x1, y1, dx, dy);
        assert(line_walk(x, y, err, x1, y1, dx, dy) == set![(x, y)] + line_walk(nx, ny, nerr, x1, y1, dx, dy));
    }
}

/// A line always includes its end dot, as it includes its start dot: the
/// walk never stops short of `(x1, y1)`.
pub proof fn lemma_line_reaches_end(x0: int, y0: int, x1: int, y1: int)
    ensures
        line_points(x0, y0, x1, y1).contains((x1, y1)),
{
    let dx = abs(x1 - x0);
    let dy = -abs(y1 - y0);
    assert(dx + dy == dx + dy - dx * dy - (-dy) * dx) by (nonlinear_arith);
    lemma_walk_reaches_end(x0, y0, dx + dy, x1, y1, dx, dy);
}

/// The outline of the rectangle with corners `(left, top)` and
/// `(right, bottom)`.
pub open spec fn outline(left: int, top: int, right: int, bottom: int) -> Set<(int, int)> {
    Set::new(|p: (int, int)|
        (left <= p.0 <= right && (p.1 == top || p.1 == bottom)) || (top <= p.1 <= bottom && (p.0 == left || p.0 == right)))
}

/// The dots of the rectangle with corners `(left, top)` and `(right, bottom)`.
pub open spec fn rectangle_area(left: int, top: int, right: int, bottom: int) -> Set<(int, int)> {
    Set::new(|p: (int, int)| left <= p.0 <= right && top <= p.1 <= bottom)
}

impl Canvas {
    /// The dots of `s` that lie inside the canvas.
    pub open spec fn clip(&self, s: Set<(int, int)>) -> Set<(int, int)> {
        s.filter(|p: (int, int)| self.in_canvas(p.0, p.1))
    }

    /// Every dot that is on lies inside the canvas.
    pub proof fn lemma_view_inside(&self)
        ensures
            forall|p: (int, int)| #[trigger] self@.contains(p) ==> self.in_canvas(p.0, p.1),
    {
    }

    /// Draws a line from `(x0, y0)` to `(x1, y1)` using Bresenham's algorithm.
    /// Parts of the line outside the canvas are clipped away.
    pub fn line(&mut self, x0: i32, y0: i32, x1: i32, y1: i32)
        requires
            old(self).wf(),
        ensures
            final(self).wf(),
            final(self).same_size(old(self)),
            final(self)@ == old(self)@ + old(self).clip(line_points(x0 as int, y0 as int, x1 as int, y1 as int)),
    {
        self.plot_line(x0, y0, x1, y1, true);
    }

    /// Like [`Canvas::line`], but clears the dots it walks over.
    pub fn unset_line(&mut self, x0: i32, y0: i32, x1: i32, y1: i32)
        requires
            old(self).wf(),
        ensures
            final(self).wf(),
            final(self).same_size(old(self)),
            final(self)@ == old(self)@ - line_points(x0 as int, y0 as int, x1 as int, y1 as int),
    {
        self.plot_line(x0, y0, x1, y1, false);
    }

    fn plot_line(&mut self, x0: i32, y0: i32, x1: i32, y1: i32, value: bool)
        requires
            old(self).wf(),
        ensures
            final(self).wf(),
            final(self).same_size(old(self)),
            value ==> final(self)@ == old(self)@ + old(self).clip(line_points(x0 as int, y0 as int, x1 as int, y1 as int)),
            !value ==> final(self)@ == old(self)@ - line_points(x0 as int, y0 as int, x1 as int, y1 as int),
    {
        let ghost all = line_points(x0 as int, y0 as int, x1 as int, y1 as int);
        let ghost start = *old(self);
        let (ax0, ay0, ax1, ay1) = (x0 as i64, y0 as i64, x1 as i64, y1 as i64);
        let dx: i64 = if ax1 >= ax0 { ax1 - ax0 } else { ax0 - ax1 };
        let dy: i64 = if ay1 >= ay0 { ay0 - ay1 } else { ay1 - ay0 };
        let step_x: i64 = if ax0 < ax1 { 1 } else { -1 };
        let step_y: i64 = if ay0 < ay1 { 1 } else { -1 };
        let mut error: i64 = dx + dy;
        let mut x: i64 = ax0;
        let mut y: i64 = ay0;
        proof {
            start.lemma_view_inside();
            if value {
                assert(start@ + start.clip(all) =~= self@ + self.clip(line_walk(x as int, y as int, error as int, x1 as int, y1 as int, dx as int, dy as int)));
            } else {
                assert(start@ - all =~= self@ - line_walk(x as int, y as int, error as int, x1 as int, y1 as int, dx as int, dy as int));
            }
        }
        loop
            invariant_except_break
                value ==> start@ + start.clip(all)
                    == self@ + self.clip(line_walk(x as int, y as int, error as int, x1 as int, y1 as int, dx as int, dy as int)),
                !value ==> start@ - all
                    == self@ - line_walk(x as int, y as int, error as int, x1 as int, y1 as int, dx as int, dy as int),
            invariant
                self.wf(),
                self.same_size(&start),
                start.wf(),
                start == *old(self),
                all == line_points(x0 as int, y0 as int, x1 as int, y1 as int),
                dx == abs(x1 - x0),
                dy == -abs(y1 - y0),
                ax1 == x1 as i64,
                ay1 == y1 as i64,
                step_x == (if x0 < x1 { 1i64 } else { -1i64 }),
                step_y == (if y0 < y1 { 1i64 } else { -1i64 }),
                if x0 <= x1 { x0 <= x <= x1 } else { x1 <= x <= x0 },
                if y0 <= y1 { y0 <= y <= y1 } else { y1 <= y <= y0 },
                2 * dy <= error <= 2 * dx,
            ensures
                self.wf(),
                self.same_size(&start),
                value ==> self@ == start@ + start.clip(all),
                !value ==> self@ == start@ - all,
            decreases abs(x1 - x) + abs(y1 - y),
        {
            let ghost before = *self;
            let ghost walk = line_walk(x as int, y as int, error as int, x1 as int, y1 as int, dx as int, dy as int);
            let ghost px = x as int;
            let ghost py = y as int;
            let ghost perr = error as int;
            assert(walk == line_walk(px, py, perr, x1 as int, y1 as int, dx as int, dy as int));
            self.put(x as i32, y as i32, value);
            proof {
                before.lemma_view_inside();
                self.lemma_view_inside();
            }
            if x == ax1 && y == ay1 {
                proof {
                    assert(walk =~= set![(px, py)]);
                    if value {
                        assert(self@ + self.clip(set![(px, py)]) =~= self@);
                    } else {
                        assert(before@ - walk =~= self@);
                    }
                }
                break;
            }
            let doubled: i64 = 2 * error;
            if doubled >= dy {
                if x == ax1 {
                    proof {
                        assert(walk =~= set![(px, py)]);
                        if value {
                            assert(self@ + self.clip(set![(px, py)]) =~= self@);
                        } else {
                            assert(before@ - walk =~= self@);
                        }
                    }
                    break;
                }
                error = error + dy;
                x = x + step_x;
            }
            if doubled <= dx {
                if y == ay1 {
                    proof {
                        assert(walk =~= set![(px, py)]);
                        if value {
                            assert(self@ + self.clip(set![(px, py)]) =~= self@);
                        } else {
                            assert(before@ - walk =~= self@);
                        }
                    }
                    break;
                }
                error = error + dx;
                y = y + step_y;
            }
            proof {
                let rest = line_walk(x as int, y as int, error as int, x1 as int, y1 as int, dx as int, dy as int);
                assert(walk == set![(px, py)] + rest);
                if value {
                    assert(before@ + before.clip(walk) =~= self@ + self.clip(rest));
                } else {
                    assert(before@ - walk =~= self@ - rest);
                }
            }
        }
    }

    /// Draws the outline of the rectangle whose corners are `(x0, y0)` and
    /// `(x1, y1)` (both inclusive).
    pub fn rectangle(&mut self, x0: i32, y0: i32, x1: i32, y1: i32)
        requires
            old(self).wf(),
        ensures
            final(self).wf(),
            final(self).same_size(old(self)),
            final(self)@ == old(self)@ + old(self).clip(outline(
                if x0 <= x1 { x0 as int } else { x1 as int },
                if y0 <= y1 { y0 as int } else { y1 as int },
                if x0 <= x1 { x1 as int } else { x0 as int },
                if y0 <= y1 { y1 as int } else { y0 as int },
            )),
    {
        let left = if x0 <= x1 { x0 } else { x1 };
        let right = if x0 <= x1 { x1 } else { x0 };
        let top = if y0 <= y1 { y0 } else { y1 };
        let bottom = if y0 <= y1 { y1 } else { y0 };
        self.line(left, top, right, top);
        self.line(left, bottom, right, bottom);
        self.line(left, top, left, bottom);
        self.line(right, top, right, bottom);
        proof {
            let (l, t, r, b) = (left as int, top as int, right as int, bottom as int);
            lemma_horizontal_line(l, r, t);
            lemma_horizontal_line(l, r, b);
            lemma_vertical_line(l, t, b);
            lemma_vertical_line(r, t, b);
            assert(self@ =~= old(self)@ + old(self).clip(outline(l, t, r, b)));
        }
    }
}

/// The eight points symmetric to `(x, y)` around `(cx, cy)` under the
/// octant reflections of a circle.
pub open spec fn octant_points(cx: int, cy: int, x: int, y: int) -> Set<(int, int)> {
    set![
        (cx + x, cy + y), (cx + y, cy + x), (cx - y, cy + x), (cx - x, cy + y),
        (cx - x, cy - y), (cx - y, cy - x), (cx + y, cy - x), (cx + x, cy - y),
    ]
}

/// The dots the midpoint circle walk visits from octant position `(x, y)`
/// with decision term `err`.
pub open spec fn circle_walk(cx: int, cy: int, x: int, y: int, err: int) -> Set<(int, int)>
    decreases x - y + 2,
{
    if x < y {
        Set::empty()
    } else {
        let ny = y + 1;
        let next = if err < 0 {
            circle_walk(cx, cy, x, ny, err + 2 * ny + 1)
        } else {
            circle_walk(cx, cy, x - 1, ny, err + 2 * (ny - (x - 1)) + 1)
        };
        octant_points(cx, cy, x, y) + next
    }
}

/// The dots of the midpoint circle of `radius` around `(cx, cy)`.
pub open spec fn circle_points(cx: int, cy: int, radius: int) -> Set<(int, int)> {
    circle_walk(cx, cy, radius, 0, 1 - radius)
}

proof fn lemma_circle_walk_band(cx: int, cy: int, r: int, x: int, y: int, err: int, p: (int, int))
    requires
        0 <= y,
        x <= r,
        err == (y + 1) * (y + 1) + x * x - x - r * r,
        x >= y ==> -x <= x * x + y * y - r * r <= x,
        circle_walk(cx, cy, x, y, err).contains(p),
    ensures
        r * r - r <= (p.0 - cx) * (p.0 - cx) + (p.1 - cy) * (p.1 - cy) <= r * r + r,
    decreases x - y + 2,
{
    let ny = y + 1;
    let d = x * x + y * y - r * r;
    assert((y + 1) * (y + 1) == y * y + 2 * y + 1) by (nonlinear_arith);
    if octant_points(cx, cy, x, y).contains(p) {
        let (dx, dy) = (p.0 - cx, p.1 - cy);
        assert(dx * dx + dy * dy == x * x + y * y) by (nonlinear_arith)
            requires
                (dx == x && dy == y) || (dx == y && dy == x) || (dx == -y && dy == x) || (dx == -x && dy == y)
                    || (dx == -x && dy == -y) || (dx == -y && dy == -x) || (dx == y && dy == -x) || (dx == x && dy == -y);
    } else if err < 0 {
        let nerr = err + 2 * ny + 1;
        assert(nerr == (ny + 1) * (ny + 1) + x * x - x - r * r) by (nonlinear_arith)
            requires nerr == err + 2 * ny + 1, err == (y + 1) * (y + 1) + x * x - x - r * r, ny == y + 1;
        assert(x * x + ny * ny - r * r == err + x) by (nonlinear_arith)
            requires err == (y + 1) * (y + 1) + x * x - x - r * r, ny == y + 1;
        lemma_circle_walk_band(cx, cy, r, x, ny, nerr, p);
    } else {
        let nx = x - 1;
        let nerr = err + 2 * (ny - nx) + 1;
        assert(nerr == (ny + 1) * (ny + 1) + nx * nx - nx - r * r) by (nonlinear_arith)
            requires nerr == err + 2 * (ny - nx) + 1, err == (y + 1) * (y + 1) + x * x - x - r * r, ny == y + 1,
                nx == x - 1;
        assert(nx * nx + ny * ny - r * r == err + x - 2 * x + 1) by (nonlinear_arith)
            requires err == (y + 1) * (y + 1) + x * x - x - r * r, ny == y + 1, nx == x - 1;
        assert(nx >= ny ==> -nx <= nx * nx + ny * ny - r * r <= nx) by (nonlinear_arith)
            requires err >= 0, err == (y + 1) * (y + 1) + x * x - x - r * r, ny == y + 1, nx == x - 1,
                d == x * x + y * y - r * r, -x <= d <= x, x >= y, y >= 0;
        lemma_circle_walk_band(cx, cy, r, nx, ny, nerr, p);
    }
    let (dx, dy) = (p.0 - cx, p.1 - cy);
    if octant_points(cx, cy, x, y).contains(p) {
        assert(r * r - r <= x * x + y * y <= r * r + r) by (nonlinear_arith)
            requires -x <= x * x + y * y - r * r <= x, 0 <= y <= x, x <= r;
    }
}

/// Every dot of the circle of `radius` around `(cx, cy)` lies at a squared
/// distance within `radius` of `radius²`, so within one dot of the true
/// circle.
pub proof fn lemma_circle_band(cx: int, cy: int, radius: int, p: (int, int))
    requires
        0 <= radius,
        circle_points(cx, cy, radius).contains(p),
    ensures
        radius * radius - radius <= (p.0 - cx) * (p.0 - cx) + (p.1 - cy) * (p.1 - cy) <= radius * radius + radius,
{
    assert((0 + 1) * (0 + 1) + radius * radius - radius - radius * radius == 1 - radius) by (nonlinear_arith);
    lemma_circle_walk_band(cx, cy, radius, radius, 0, 1 - radius, p);
}

/// Reflecting a dot in the horizontal line through `cy`.
pub open spec fn flip_vertical(cy: int, p: (int, int)) -> (int, int) {
    (p.0, 2 * cy - p.1)
}

/// Reflecting a dot in the vertical line through `cx`.
pub open spec fn flip_horizontal(cx: int, p: (int, int)) -> (int, int) {
    (2 * cx - p.0, p.1)
}

proof fn lemma_circle_walk_symmetric(cx: int, cy: int, x: int, y: int, err: int)
    ensures
        forall|p: (int, int)| #[trigger] circle_walk(cx, cy, x, y, err).contains(p)
            ==> circle_walk(cx, cy, x, y, err).contains(flip_vertical(cy, p))
                && circle_walk(cx, cy, x, y, err).contains(flip_horizontal(cx, p)),
    decreases x - y + 2,
{
    if x >= y {
        let ny = y + 1;
        let (nx, nerr) = if err < 0 { (x, err + 2 * ny + 1) } else { (x - 1, err + 2 * (ny - (x - 1)) + 1) };
        lemma_circle_walk_symmetric(cx, cy, nx, ny, nerr);
        let oct = octant_points(cx, cy, x, y);
        assert(circle_walk(cx, cy, x, y, err) == oct + circle_walk(cx, cy, nx, ny, nerr));
        assert forall|p: (int, int)| oct.contains(p) implies oct.contains(flip_vertical(cy, p))
            && oct.contains(flip_horizontal(cx, p)) by {
        }
    }
}

/// A circle is symmetric: reflecting any of its dots in the horizontal or
/// the vertical line through the centre gives another of its dots. It
/// passes through the four dots at distance `radius` straight above, below,
/// left and right of the centre.
pub proof fn lemma_circle_symmetric(cx: int, cy: int, radius: int)
    requires
        0 <= radius,
    ensures
        forall|p: (int, int)| #[trigger] circle_points(cx, cy, radius).contains(p)
            ==> circle_points(cx, cy, radius).contains(flip_vertical(cy, p))
                && circle_points(cx, cy, radius).contains(flip_horizontal(cx, p)),
        circle_points(cx, cy, radius).contains((cx, cy - radius)),
        circle_points(cx, cy, radius).contains((cx, cy + radius)),
        circle_points(cx, cy, radius).contains((cx - radius, cy)),
        circle_points(cx, cy, radius).contains((cx + radius, cy)),
{
    lemma_circle_walk_symmetric(cx, cy, radius, 0, 1 - radius);
    let ny = 1int;
    let err = 1 - radius;
    let (nx, nerr) = if err < 0 { (radius, err + 2 * ny + 1) } else { (radius - 1, err + 2 * (ny - (radius - 1)) + 1) };
    let oct = octant_points(cx, cy, radius, 0);
    assert(circle_points(cx, cy, radius) == oct + circle_walk(cx, cy, nx, ny, nerr));
    assert(oct.contains((cx + 0, cy - radius)));
    assert(oct.contains((cx + 0, cy + radius)));
    assert(oct.contains((cx - radius, cy + 0)));
    assert(oct.contains((cx + radius, cy + 0)));
}

/// The dots at distance at most `radius` from `(cx, cy)`.
pub open spec fn disc(cx: int, cy: int, radius: int) -> Set<(int, int)> {
    Set::new(|p: (int, int)| (p.0 - cx) * (p.0 - cx) + (p.1 - cy) * (p.1 - cy) <= radius * radius)
}

/// Size of the midpoint circle's decision term along the walk.
proof fn lemma_circle_term_bounds(x: int, y: int, r: int)
    requires
        -1 <= x <= r,
        0 <= y <= x + 2,
        r < 0x8000_0000,
    ensures
        -0x4000_0000_0000_0000 <= (y + 1) * (y + 1) + x * x - x - r * r <= 0x4000_0004_0000_0000,
{
    assert(-0x4000_0000_0000_0000 <= (y + 1) * (y + 1) + x * x - x - r * r <= 0x4000_0004_0000_0000) by (nonlinear_arith)
        requires -1 <= x <= r, 0 <= y <= x + 2, r < 0x8000_0000;
}

/// The largest `s` with `s * s <= n`.
fn isqrt(n: u64) -> (root: u64)
    requires
        n < 0x4000_0000_0000_0000,
    ensures
        root * root <= n < (root + 1) * (root + 1),
{
    let mut low: u64 = 0;
    let mut high: u64 = 0x8000_0000;
    while high - low > 1
        invariant
            low < high <= 0x8000_0000,
            low * low <= n,
            n < high * high,
        decreases high - low,
    {
        let mid: u64 = low + (high - low) / 2;
        assert(mid * mid <= 0x8000_0000u64 * 0x8000_0000u64) by (nonlinear_arith)
            requires mid < 0x8000_0000u64;
        if mid * mid <= n {
            low = mid;
        } else {
            high = mid;
        }
    }
    assert(high == low + 1);
    low
}

impl Canvas {
    /// The dots of a well-formed canvas have coordinates in the `i32` range.
    proof fn lemma_dots_fit_i32(&self, x: int, y: int)
        requires
            self.wf(),
            self.in_canvas(x, y),
        ensures
            x <= i32::MAX,
            y <= i32::MAX,
    {
        let cw = self.cells_width as int;
        let ch = self.cells_height as int;
        assert(cw >= 1 && ch >= 1);
        assert(cw <= cw * ch && ch <= cw * ch) by (nonlinear_arith)
            requires cw >= 1, ch >= 1;
    }

    /// A canvas with dots has both sides at most `2^30` dots long.
    proof fn lemma_sides_bounded(&self)
        requires
            self.wf(),
            self.spec_width() >= 1,
            self.spec_height() >= 1,
        ensures
            self.spec_width() <= 0x4000_0000,
            self.spec_height() <= 0x4000_0000,
    {
        let cw = self.cells_width as int;
        let ch = self.cells_height as int;
        assert(cw <= cw * ch && ch <= cw * ch) by (nonlinear_arith)
            requires cw >= 1, ch >= 1;
    }

    /// Sets the dot at `(x, y)` given as wide coordinates; coordinates outside
    /// the `i32` range lie outside every canvas.
    fn set_wide(&mut self, x: i64, y: i64)
        requires
            old(self).wf(),
        ensures
            final(self).wf(),
            final(self).same_size(old(self)),
            final(self)@ == old(self)@ + old(self).clip(set![(x as int, y as int)]),
    {
        if x >= i32::MIN as i64 && x <= i32::MAX as i64 && y >= i32::MIN as i64 && y <= i32::MAX as i64 {
            self.set(x as i32, y as i32);
            assert(self@ =~= old(self)@ + old(self).clip(set![(x as int, y as int)]));
        } else {
            proof {
                if old(self).in_canvas(x as int, y as int) {
                    old(self).lemma_dots_fit_i32(x as int, y as int);
                }
            }
            assert(self@ =~= old(self)@ + old(self).clip(set![(x as int, y as int)]));
        }
    }

    /// Fills the rectangle whose corners are `(x0, y0)` and `(x1, y1)` (both
    /// inclusive), clipped to the canvas.
    pub fn filled_rectangle(&mut self, x0: i32, y0: i32, x1: i32, y1: i32)
        requires
            old(self).wf(),
        ensures
            final(self).wf(),
            final(self).same_size(old(self)),
            final(self)@ == old(self)@ + old(self).clip(rectangle_area(
                if x0 <= x1 { x0 as int } else { x1 as int },
                if y0 <= y1 { y0 as int } else { y1 as int },
                if x0 <= x1 { x1 as int } else { x0 as int },
                if y0 <= y1 { y1 as int } else { y0 as int },
            )),
    {
        let ghost area = rectangle_area(
            if x0 <= x1 { x0 as int } else { x1 as int },
            if y0 <= y1 { y0 as int } else { y1 as int },
            if x0 <= x1 { x1 as int } else { x0 as int },
            if y0 <= y1 { y1 as int } else { y0 as int },
        );
        let ghost start = *old(self);
        let left_raw: i64 = if x0 <= x1 { x0 as i64 } else { x1 as i64 };
        let right_raw: i64 = if x0 <= x1 { x1 as i64 } else { x0 as i64 };
        let top_raw: i64 = if y0 <= y1 { y0 as i64 } else { y1 as i64 };
        let bottom_raw: i64 = if y0 <= y1 { y1 as i64 } else { y0 as i64 };
        // Clamp before iterating so a rectangle far outside the canvas does not
        // cost a billion no-op writes.
        let left: i64 = if left_raw < 0 { 0 } else { left_raw };
        let top: i64 = if top_raw < 0 { 0 } else { top_raw };
        let last_x: i64 = self.width as i64 - 1;
        let last_y: i64 = self.height as i64 - 1;
        let right: i64 = if right_raw < last_x { right_raw } else { last_x };
        let bottom: i64 = if bottom_raw < last_y { bottom_raw } else { last_y };
        let ghost clamped = rectangle_area(left as int, top as int, right as int, bottom as int);
        assert(start.clip(area) =~= clamped);
        if top > bottom || left > right {
            assert(self@ =~= start@ + clamped);
            return;
        }
        let mut y: i64 = top;
        while y <= bottom
            invariant
                self.wf(),
                self.same_size(&start),
                start.wf(),
                0 <= left <= right,
                0 <= top <= y,
                y <= bottom + 1,
                right <= self.spec_width() - 1,
                bottom <= self.spec_height() - 1,
                right <= i32::MAX,
                bottom <= i32::MAX,
                self@ == start@ + rectangle_area(left as int, top as int, right as int, y as int - 1),
            decreases bottom - y + 1,
        {
            let mut x: i64 = left;
            while x <= right
                invariant
                    self.wf(),
                    self.same_size(&start),
                    start.wf(),
                    0 <= left <= x,
                    x <= right + 1,
                    0 <= top <= y <= bottom,
                    right <= self.spec_width() - 1,
                    bottom <= self.spec_height() - 1,
                    right <= i32::MAX,
                    bottom <= i32::MAX,
                    self@ == start@ + rectangle_area(left as int, top as int, right as int, y as int - 1)
                        + rectangle_area(left as int, y as int, x as int - 1, y as int),
                decreases right - x + 1,
            {
                self.set(x as i32, y as i32);
                assert(self@ =~= start@ + rectangle_area(left as int, top as int, right as int, y as int - 1)
                    + rectangle_area(left as int, y as int, x as int, y as int));
                x = x + 1;
            }
            assert(self@ =~= start@ + rectangle_area(left as int, top as int, right as int, y as int));
            y = y + 1;
        }
        assert(self@ =~= start@ + clamped);
    }

    /// Draws a circle outline of `radius` dots centred on `(cx, cy)` using the
    /// midpoint algorithm. A negative radius draws nothing.
    pub fn circle(&mut self, cx: i32, cy: i32, radius: i32)
        requires
            old(self).wf(),
        ensures
            final(self).wf(),
            final(self).same_size(old(self)),
            final(self)@ == (if radius < 0 {
                old(self)@
            } else {
                old(self)@ + old(self).clip(circle_points(cx as int, cy as int, radius as int))
            }),
    {
        if radius < 0 {
            return;
        }
        let ghost start = *old(self);
        let ghost all = circle_points(cx as int, cy as int, radius as int);
        let (wcx, wcy) = (cx as i64, cy as i64);
        let mut x: i64 = radius as i64;
        let mut y: i64 = 0;
        let mut error: i64 = 1 - radius as i64;
        assert(start@ + start.clip(all) =~= self@ + self.clip(circle_walk(cx as int, cy as int, x as int, y as int, error as int)));
        while x >= y
            invariant
                self.wf(),
                self.same_size(&start),
                start.wf(),
                wcx == cx as i64,
                wcy == cy as i64,
                0 <= y,
                y <= x + 2,
                x <= radius,
                0 <= radius,
                x >= -1,
                error == (y + 1) * (y + 1) + x * x - x - radius * radius,
                start@ + start.clip(all)
                    == self@ + self.clip(circle_walk(cx as int, cy as int, x as int, y as int, error as int)),
            decreases x - y + 2,
        {
            let ghost walk = circle_walk(cx as int, cy as int, x as int, y as int, error as int);
            let ghost before = *self;
            self.set_wide(wcx + x, wcy + y);
            self.set_wide(wcx + y, wcy + x);
            self.set_wide(wcx - y, wcy + x);
            self.set_wide(wcx - x, wcy + y);
            self.set_wide(wcx - x, wcy - y);
            self.set_wide(wcx - y, wcy - x);
            self.set_wide(wcx + y, wcy - x);
            self.set_wide(wcx + x, wcy - y);
            let ghost (ox, oy, oerr) = (x as int, y as int, error as int);
            proof {
                lemma_circle_term_bounds(x as int, y as int, radius as int);
                lemma_circle_term_bounds(x as int, y + 1, radius as int);
                lemma_circle_term_bounds(x - 1, y + 1, radius as int);
            }
            y = y + 1;
            if error < 0 {
                assert(error + 2 * y + 1 == (y + 1) * (y + 1) + x * x - x - radius * radius) by (nonlinear_arith)
                    requires error == y * y + x * x - x - radius * radius;
                error = error + 2 * y + 1;
            } else {
                x = x - 1;
                assert(error + 2 * (y - x) + 1 == (y + 1) * (y + 1) + x * x - x - radius * radius) by (nonlinear_arith)
                    requires error == y * y + (x + 1) * (x + 1) - (x + 1) - radius * radius;
                error = error + 2 * (y - x) + 1;
            }
            proof {
                let rest = circle_walk(cx as int, cy as int, x as int, y as int, error as int);
                assert(walk == octant_points(cx as int, cy as int, ox, oy) + rest);
                assert(before@ + before.clip(walk) =~= self@ + self.clip(rest));
            }
        }
        assert(circle_walk(cx as int, cy as int, x as int, y as int, error as int) =~= Set::<(int, int)>::empty());
        assert(self@ =~= start@ + start.clip(all));
    }

    /// Fills a disc of `radius` dots centred on `(cx, cy)`: every dot at
    /// distance at most `radius`. A negative radius draws nothing.
    pub fn filled_circle(&mut self, cx: i32, cy: i32, radius: i32)
        requires
            old(self).wf(),
        ensures
            final(self).wf(),
            final(self).same_size(old(self)),
            final(self)@ == (if radius < 0 {
                old(self)@
            } else {
                old(self)@ + old(self).clip(disc(cx as int, cy as int, radius as int))
            }),
    {
        if radius < 0 {
            return;
        }
        let ghost start = *old(self);
        if self.width == 0 || self.height == 0 {
            assert(self@ =~= start@ + start.clip(disc(cx as int, cy as int, radius as int)));
            return;
        }
        proof {
            self.lemma_sides_bounded();
        }
        let (wcx, wcy, r) = (cx as i64, cy as i64, radius as i64);
        let last_x: i64 = self.width as i64 - 1;
        let last_y: i64 = self.height as i64 - 1;
        let top: i64 = if wcy - r < 0 { 0 } else { wcy - r };
        let bottom: i64 = if wcy + r < last_y { wcy + r } else { last_y };
        assert(r * r < 0x4000_0000_0000_0000) by (nonlinear_arith)
            requires 0 <= r < 0x8000_0000;
        let radius_squared: i64 = r * r;
        let ghost target = start.clip(disc(cx as int, cy as int, radius as int));
        if top > bottom {
            assert forall|p: (int, int)| !target.contains(p) by {
                if target.contains(p) {
                    assert((p.0 - cx) * (p.0 - cx) >= 0) by (nonlinear_arith);
                    if p.1 > cy + r {
                        assert((p.1 - cy) * (p.1 - cy) > r * r) by (nonlinear_arith)
                            requires p.1 - cy > r, r >= 0;
                    }
                    if p.1 < cy - r {
                        assert((p.1 - cy) * (p.1 - cy) > r * r) by (nonlinear_arith)
                            requires cy - p.1 > r, r >= 0;
                    }
                }
            }
            assert(self@ =~= start@ + target);
            return;
        }
        assert forall|p: (int, int)| target.contains(p) implies p.1 >= top by {
            assert((p.0 - cx) * (p.0 - cx) >= 0) by (nonlinear_arith);
            if p.1 < cy - r {
                assert((p.1 - cy) * (p.1 - cy) > r * r) by (nonlinear_arith)
                    requires cy - p.1 > r, r >= 0;
            }
        }
        assert(self@ =~= start@ + target.filter(|p: (int, int)| p.1 < top));
        let mut y: i64 = top;
        while y <= bottom
            invariant
                self.wf(),
                self.same_size(&start),
                start.wf(),
                wcx == cx as i64,
                wcy == cy as i64,
                r == radius as i64,
                0 <= r < 0x8000_0000,
                radius_squared == r * r,
                r * r < 0x4000_0000_0000_0000,
                last_x == self.spec_width() - 1,
                self.spec_width() <= 0x4000_0000,
                self.spec_height() <= 0x4000_0000,
                0 <= top <= y,
                top >= wcy - r,
                bottom <= wcy + r,
                y <= bottom + 1,
                bottom <= self.spec_height() - 1,
                target == start.clip(disc(cx as int, cy as int, radius as int)),
                self@ == start@ + target.filter(|p: (int, int)| p.1 < y),
            decreases bottom - y + 1,
        {
            let dy: i64 = y - wcy;
            assert(dy * dy <= r * r) by (nonlinear_arith)
                requires -r <= dy <= r;
            assert(0 <= dy * dy) by (nonlinear_arith);
            let remaining: u64 = (radius_squared - dy * dy) as u64;
            let root: u64 = isqrt(remaining);
            assert(root < 0x8000_0000) by (nonlinear_arith)
                requires root * root <= remaining, remaining < 0x4000_0000_0000_0000u64;
            let span: i64 = root as i64;
            assert(span <= r) by (nonlinear_arith)
                requires span * span <= r * r - dy * dy, 0 <= span, 0 <= r, dy * dy >= 0;
            let left: i64 = if wcx - span < 0 { 0 } else { wcx - span };
            let right: i64 = if wcx + span < last_x { wcx + span } else { last_x };
            let mut x: i64 = left;
            while x <= right
                invariant
                    self.wf(),
                    self.same_size(&start),
                    start.wf(),
                    0 <= left <= x,
                    x <= right + 1 || x == left,
                    right <= last_x,
                    last_x == self.spec_width() - 1,
                    right <= i32::MAX,
                    0 <= y <= self.spec_height() - 1,
                    y <= i32::MAX,
                    self@ == start@ + target.filter(|p: (int, int)| p.1 < y)
                        + rectangle_area(left as int, y as int, x as int - 1, y as int),
                decreases right - x + 1,
            {
                self.set(x as i32, y as i32);
                assert(self@ =~= start@ + target.filter(|p: (int, int)| p.1 < y)
                    + rectangle_area(left as int, y as int, x as int, y as int));
                x = x + 1;
            }
            assert forall|p: (int, int)| p.1 == y implies (#[trigger] target.contains(p) <==> left <= p.0 <= right) by {
                let d = p.0 - cx;
                if -span <= d <= span {
                    assert(d * d <= span * span) by (nonlinear_arith)
                        requires -span <= d <= span, 0 <= span;
                } else {
                    assert(d * d >= (span + 1) * (span + 1)) by (nonlinear_arith)
                        requires d > span || d < -span, 0 <= span;
                }
            }
            assert(self@ =~= start@ + target.filter(|p: (int, int)| p.1 < y + 1));
            y = y + 1;
        }
        assert forall|p: (int, int)| target.contains(p) implies p.1 < y by {
            assert((p.0 - cx) * (p.0 - cx) >= 0) by (nonlinear_arith);
            assert((p.1 - cy) * (p.1 - cy) <= r * r);
            if p.1 > cy + r {
                assert((p.1 - cy) * (p.1 - cy) > r * r) by (nonlinear_arith)
                    requires p.1 - cy > r, r >= 0;
            }
        }
        assert(self@ =~= start@ + target);
    }
}

/// The characters of row `row` of a grid `cw` cells wide.
pub open spec fn row_text(masks: Seq<u8>, cw: int, row: int) -> Seq<char> {
    Seq::new(cw as nat, |i: int| braille_char(masks[row * cw + i]))
}

/// The first `rows` rows of a grid `cw` cells wide, separated by newlines.
pub open spec fn rows_text(masks: Seq<u8>, cw: int, rows: int) -> Seq<char>
    decreases rows,
{
    if rows <= 0 {
        seq![]
    } else if rows == 1 {
        row_text(masks, cw, 0)
    } else {
        rows_text(masks, cw, rows - 1) + seq!['\n'] + row_text(masks, cw, rows - 1)
    }
}

/// Position, in rendered text `cells_width` cells wide, of cell `column` of
/// line `row`: each line holds its cells and then a line break.
pub open spec fn text_index(cells_width: int, row: int, column: int) -> int {
    row * (cells_width + 1) + column
}

proof fn lemma_rows_text_layout(masks: Seq<u8>, cw: int, rows: int)
    requires
        cw >= 0,
        rows >= 1,
    ensures
        rows_text(masks, cw, rows).len() == rows * (cw + 1) - 1,
        forall|r: int, i: int| 0 <= r < rows && 0 <= i < cw
            ==> #[trigger] rows_text(masks, cw, rows)[text_index(cw, r, i)] == braille_char(masks[r * cw + i]),
        forall|r: int| 0 <= r < rows - 1 ==> #[trigger] rows_text(masks, cw, rows)[text_index(cw, r, cw)] == '\n',
    decreases rows,
{
    if rows == 1 {
        assert forall|r: int, i: int| 0 <= r < rows && 0 <= i < cw
            implies #[trigger] rows_text(masks, cw, rows)[text_index(cw, r, i)] == braille_char(masks[r * cw + i]) by {
            assert(text_index(cw, r, i) == i);
        }
    } else {
        lemma_rows_text_layout(masks, cw, rows - 1);
        let prev = rows_text(masks, cw, rows - 1);
        let line = row_text(masks, cw, rows - 1);
        let all = rows_text(masks, cw, rows);
        assert(all == prev + seq!['\n'] + line);
        assert(prev.len() == (rows - 1) * (cw + 1) - 1);
        assert(rows * (cw + 1) - 1 == prev.len() + 1 + cw) by (nonlinear_arith)
            requires prev.len() == (rows - 1) * (cw + 1) - 1;
        assert forall|r: int, i: int| 0 <= r < rows && 0 <= i < cw
            implies #[trigger] all[text_index(cw, r, i)] == braille_char(masks[r * cw + i]) by {
            if r < rows - 1 {
                assert(text_index(cw, r, i) < prev.len()) by (nonlinear_arith)
                    requires 0 <= r < rows - 1, 0 <= i < cw, prev.len() == (rows - 1) * (cw + 1) - 1,
                        text_index(cw, r, i) == r * (cw + 1) + i;
                assert(all[text_index(cw, r, i)] == prev[text_index(cw, r, i)]);
            } else {
                assert(text_index(cw, r, i) == prev.len() + 1 + i) by (nonlinear_arith)
                    requires r == rows - 1, prev.len() == (rows - 1) * (cw + 1) - 1,
                        text_index(cw, r, i) == r * (cw + 1) + i;
                assert(all[text_index(cw, r, i)] == line[i]);
            }
        }
        assert forall|r: int| 0 <= r < rows - 1 implies #[trigger] all[text_index(cw, r, cw)] == '\n' by {
            if r < rows - 2 {
                assert(text_index(cw, r, cw) < prev.len()) by (nonlinear_arith)
                    requires 0 <= r < rows - 2, prev.len() == (rows - 1) * (cw + 1) - 1,
                        text_index(cw, r, cw) == r * (cw + 1) + cw;
                assert(all[text_index(cw, r, cw)] == prev[text_index(cw, r, cw)]);
            } else {
                assert(text_index(cw, r, cw) == prev.len()) by (nonlinear_arith)
                    requires r == rows - 2, prev.len() == (rows - 1) * (cw + 1) - 1,
                        text_index(cw, r, cw) == r * (cw + 1) + cw;
            }
        }
    }
}

impl Canvas {
    /// The rendered text of the canvas: one line of Braille characters per
    /// row of cells, separated by `\n`, with no trailing newline; empty when
    /// the canvas has no cells.
    pub open spec fn text(&self) -> Seq<char> {
        if self.spec_masks().len() == 0 {
            seq![]
        } else {
            rows_text(self.spec_masks(), self.spec_cells_width() as int, self.spec_cells_height() as int)
        }
    }

    /// The rendered text lays the cells out in reading order: line `r` holds
    /// the characters of cells `0..cells_width` of row `r`, left to right,
    /// each the Braille character whose dot bits are exactly the dots of that
    /// cell that are on, and lines are separated by single line breaks.
    pub proof fn lemma_text_layout(&self)
        requires
            self.wf(),
        ensures
            self.spec_masks().len() > 0 ==> self.text().len()
                == self.spec_cells_height() * (self.spec_cells_width() + 1) - 1,
            forall|r: int, i: int| 0 <= r < self.spec_cells_height() && 0 <= i < self.spec_cells_width()
                ==> #[trigger] self.text()[text_index(self.spec_cells_width() as int, r, i)]
                    == braille_char(self.spec_masks()[r * self.spec_cells_width() + i]),
            forall|r: int| self.spec_masks().len() > 0 && 0 <= r < self.spec_cells_height() - 1
                ==> #[trigger] self.text()[text_index(self.spec_cells_width() as int, r, self.spec_cells_width() as int)]
                    == '\n',
            forall|r: int, i: int, lx: int, ly: int|
                0 <= r < self.spec_cells_height() && 0 <= i < self.spec_cells_width() && in_cell(lx, ly)
                ==> (#[trigger] self.spec_masks()[r * self.spec_cells_width() + i] & #[trigger] dot_mask(lx, ly) != 0)
                    == self@.contains((2 * i + lx, 4 * r + ly)),
    {
        let cw = self.cells_width as int;
        let ch = self.cells_height as int;
        if self.cells@.len() > 0 {
            assert(ch >= 1) by (nonlinear_arith)
                requires self.cells@.len() == cw * ch, self.cells@.len() > 0, cw >= 0, ch >= 0;
            lemma_rows_text_layout(self.cells@, cw, ch);
            assert(self.text() == rows_text(self.cells@, cw, ch));
            assert forall|r: int, i: int| 0 <= r < ch && 0 <= i < cw
                implies #[trigger] self.text()[text_index(cw, r, i)] == braille_char(self.spec_masks()[r * cw + i]) by {
                assert(rows_text(self.cells@, cw, ch)[text_index(cw, r, i)] == braille_char(self.cells@[r * cw + i]));
            }
            assert forall|r: int| 0 <= r < ch - 1 implies #[trigger] self.text()[text_index(cw, r, cw)] == '\n' by {
                assert(rows_text(self.cells@, cw, ch)[text_index(cw, r, cw)] == '\n');
            }
        } else {
            assert(cw == 0 || ch == 0) by (nonlinear_arith)
                requires self.cells@.len() == cw * ch, self.cells@.len() == 0, cw >= 0, ch >= 0;
        }
        assert forall|r: int, i: int, lx: int, ly: int|
            0 <= r < ch && 0 <= i < cw && in_cell(lx, ly)
            implies (#[trigger] self.spec_masks()[r * self.spec_cells_width() + i] & #[trigger] dot_mask(lx, ly) != 0)
                == self@.contains((2 * i + lx, 4 * r + ly)) by {
            let (x, y) = (2 * i + lx, 4 * r + ly);
            assert(x / 2 == i && x % 2 == lx && y / 4 == r && y % 4 == ly);
            assert(self.cell_of(x, y) == r * cw + i);
            if self.cells@[r * self.cells_width + i] & dot_mask(lx, ly) != 0 {
                assert(self.in_canvas(x, y));
            }
        }
    }


    pub fn render(&self) -> (text: String)
        requires
            self.wf(),
        ensures
            text@ == self.text(),
    {
        let mut out = String::new();
        self.render_into(&mut out);
        assert(out@ =~= self.text());
        out
    }

    /// Renders the canvas by appending to an existing buffer. Reuse the buffer
    /// across frames to keep an animation allocation-free.
    pub fn render_into(&self, out: &mut String)
        requires
            self.wf(),
        ensures
            final(out)@ == old(out)@ + self.text(),
    {
        if self.cells.len() == 0 {
            assert(old(out)@ + self.text() =~= old(out)@);
            return;
        }
        let cw = self.cells_width;
        let ch = self.cells_height;
        let ghost masks = self.cells@;
        let ghost start = old(out)@;
        let mut row: u32 = 0;
        assert(start + rows_text(masks, cw as int, 0) =~= start);
        while row < ch
            invariant
                0 <= row <= ch,
                self.wf(),
                cw == self.cells_width,
                ch == self.cells_height,
                masks == self.cells@,
                masks.len() == cw * ch,
                masks.len() <= MAX_CANVAS_CELLS,
                masks.len() > 0,
                out@ == start + rows_text(masks, cw as int, row as int),
            decreases ch - row,
        {
            let ghost before = out@;
            if row > 0 {
                out.push('\n');
            }
            let ghost prefix = out@;
            let mut column: u32 = 0;
            while column < cw
                invariant
                    0 <= column <= cw,
                    row < ch,
                    cw == self.cells_width,
                    ch == self.cells_height,
                    masks == self.cells@,
                    masks.len() == cw * ch,
                    masks.len() <= MAX_CANVAS_CELLS,
                    out@ == prefix + row_text(masks, cw as int, row as int).take(column as int),
                decreases cw - column,
            {
                proof {
                    lemma_cell_index(cw as int, ch as int, column as int, row as int);
                }
                let index: usize = row as usize * cw as usize + column as usize;
                let c = braille::char_for_mask(self.cells[index]);
                out.push(c);
                assert(row_text(masks, cw as int, row as int).take(column as int + 1)
                    =~= row_text(masks, cw as int, row as int).take(column as int).push(c));
                column = column + 1;
            }
            assert(row_text(masks, cw as int, row as int).take(cw as int) =~= row_text(masks, cw as int, row as int));
            if row == 0 {
                assert(out@ =~= start + rows_text(masks, cw as int, 1));
            } else {
                assert(out@ =~= start + rows_text(masks, cw as int, row as int + 1));
            }
            row = row + 1;
        }
    }
}
} // verus!
