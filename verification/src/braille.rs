//! Unicode Braille cell encoding.
//!
//! A Braille character from the `Braille Patterns` block (`U+2800..=U+28FF`)
//! encodes a 2×4 grid of dots. Each dot maps to one bit of an 8-bit mask, and
//! the character is simply `U+2800 + mask`:
//!
//! ```text
//!         x=0    x=1
//! y=0     dot1   dot4      0x01  0x08
//! y=1     dot2   dot5      0x02  0x10
//! y=2     dot3   dot6      0x04  0x20
//! y=3     dot7   dot8      0x40  0x80
//! ```

use vstd::prelude::*;

verus! {

/// First code point of the Unicode `Braille Patterns` block.
pub const BRAILLE_BASE: u32 = 0x2800;

/// Number of dot columns in one Braille cell.
pub const CELL_WIDTH: u32 = 2;

/// Number of dot rows in one Braille cell.
pub const CELL_HEIGHT: u32 = 4;

/// Number of dots in one Braille cell.
pub const DOTS_PER_CELL: u32 = CELL_WIDTH * CELL_HEIGHT;

/// The empty Braille pattern, `U+2800`. It is not a space: it occupies a full
/// cell in most terminals, which keeps rendered output rectangular.
pub const BLANK: char = '\u{2800}';

/// Bit value of every dot, indexed by the standard dot number minus one.
pub const DOT_NUMBER_BITS: [u8; 8] = [0x01, 0x02, 0x04, 0x08, 0x10, 0x20, 0x40, 0x80];

/// Position of the bit for the dot at `(x, y)` of a cell, following the
/// historical dot numbering (dots 1–3 down the left column, 4–6 down the right
/// column, then 7 and 8 along the bottom row).
pub open spec fn dot_index(x: int, y: int) -> nat {
    if y == 3 {
        (6 + x) as nat
    } else if x == 0 {
        y as nat
    } else {
        (3 + y) as nat
    }
}

/// Whether `(x, y)` names a dot of a 2×4 cell.
pub open spec fn in_cell(x: int, y: int) -> bool {
    0 <= x < CELL_WIDTH && 0 <= y < CELL_HEIGHT
}

/// The bit of the dot at `(x, y)` inside a cell.
pub open spec fn dot_mask(x: int, y: int) -> u8 {
    (1u8 << (dot_index(x, y) as u8)) as u8
}

/// The bit of the standard dot number `dot` (`1..=8`).
pub open spec fn dot_number_mask(dot: int) -> u8 {
    (1u8 << ((dot - 1) as u8)) as u8
}

/// The mask whose set bits are exactly the dots that are `true` in `dots`,
/// indexed as `dots[y][x]`.
pub open spec fn mask_of(dots: [[bool; 2]; 4]) -> u8 {
    ((if dots[0][0] { 0x01u8 } else { 0u8 }) | (if dots[1][0] { 0x02u8 } else { 0u8 }) | (if dots[2][0] { 0x04u8 } else { 0u8 })
        | (if dots[0][1] { 0x08u8 } else { 0u8 }) | (if dots[1][1] { 0x10u8 } else { 0u8 }) | (if dots[2][1] { 0x20u8 } else { 0u8 })
        | (if dots[3][0] { 0x40u8 } else { 0u8 }) | (if dots[3][1] { 0x80u8 } else { 0u8 })) as u8
}

pub(crate) proof fn lemma_dot_mask_values()
    ensures
        dot_mask(0, 0) == 0x01u8,
        dot_mask(0, 1) == 0x02u8,
        dot_mask(0, 2) == 0x04u8,
        dot_mask(1, 0) == 0x08u8,
        dot_mask(1, 1) == 0x10u8,
        dot_mask(1, 2) == 0x20u8,
        dot_mask(0, 3) == 0x40u8,
        dot_mask(1, 3) == 0x80u8,
{
    assert(1u8 << 0u8 == 0x01u8) by (bit_vector);
    assert(1u8 << 1u8 == 0x02u8) by (bit_vector);
    assert(1u8 << 2u8 == 0x04u8) by (bit_vector);
    assert(1u8 << 3u8 == 0x08u8) by (bit_vector);
    assert(1u8 << 4u8 == 0x10u8) by (bit_vector);
    assert(1u8 << 5u8 == 0x20u8) by (bit_vector);
    assert(1u8 << 6u8 == 0x40u8) by (bit_vector);
    assert(1u8 << 7u8 == 0x80u8) by (bit_vector);
}

/// Returns the bit for the dot at `(x, y)` inside a cell, or `None` when the
/// coordinates fall outside the 2×4 grid.
pub fn dot_bit(x: u32, y: u32) -> (bit: Option<u8>)
    ensures
        bit == (if in_cell(x as int, y as int) { Some(dot_mask(x as int, y as int)) } else { None::<u8> }),
{
    proof {
        lemma_dot_mask_values();
    }
    if x < CELL_WIDTH && y < CELL_HEIGHT {
        let bit: u8 = if y == 3 {
            if x == 0 { 0x40 } else { 0x80 }
        } else if x == 0 {
            if y == 0 { 0x01 } else if y == 1 { 0x02 } else { 0x04 }
        } else {
            if y == 0 { 0x08 } else if y == 1 { 0x10 } else { 0x20 }
        };
        Some(bit)
    } else {
        None
    }
}


/// Returns the bit for the dot at `(x, y)`, or `0` when out of range.
pub fn dot_bit_or_zero(x: u32, y: u32) -> (bit: u8)
    ensures
        bit == (if in_cell(x as int, y as int) { dot_mask(x as int, y as int) } else { 0u8 }),
{
    match dot_bit(x, y) {
        Some(bit) => bit,
        None => 0,
    }
}

/// Returns the bit for a dot given by its standard Braille dot number
/// (`1..=8`), or `None` for any other number.
pub fn dot_number_bit(dot: u32) -> (bit: Option<u8>)
    ensures
        bit == (if 1 <= dot <= DOTS_PER_CELL { Some(dot_number_mask(dot as int)) } else { None::<u8> }),
{
    match dot.checked_sub(1) {
        Some(index) => {
            if index < DOTS_PER_CELL {
                let shift: u8 = index as u8;
                Some(1u8 << shift)
            } else {
                None
            }
        },
        None => None,
    }
}

/// The code point of the Braille character of a dot mask: `U+2800 + mask`.
pub open spec fn braille_code(mask: u8) -> u32 {
    (BRAILLE_BASE + mask) as u32
}

/// The Braille character of a dot mask.
pub open spec fn braille_char(mask: u8) -> char {
    braille_code(mask) as char
}

/// A character is determined by its code point.
pub proof fn lemma_char_code(c: char)
    ensures
        c == (c as u32) as char,
{
}

/// The dot mask of a character, when it lies in `U+2800..=U+28FF`.
pub open spec fn char_mask(c: char) -> Option<u8> {
    if BRAILLE_BASE <= (c as u32) <= BRAILLE_BASE + 0xFF {
        Some(((c as u32) - BRAILLE_BASE) as u8)
    } else {
        None
    }
}

/// Maps a dot mask to its Braille character. Every one of the 256 masks maps
/// to a distinct character in `U+2800..=U+28FF`.
pub fn char_for_mask(mask: u8) -> (c: char)
    ensures
        c as u32 == braille_code(mask),
        c == braille_char(mask),
{
    let code: u32 = BRAILLE_BASE + mask as u32;
    let c = match core::char::from_u32(code) {
        Some(c) => c,
        None => BLANK,
    };
    proof {
        lemma_char_code(c);
    }
    c
}

/// Returns the dot mask of a Braille character, or `None` if the character is
/// outside `U+2800..=U+28FF`.
pub fn mask_for_char(c: char) -> (mask: Option<u8>)
    ensures
        mask == char_mask(c),
{
    let code: u32 = c as u32;
    match code.checked_sub(BRAILLE_BASE) {
        Some(offset) => {
            if offset <= 0xFF {
                Some(offset as u8)
            } else {
                None
            }
        },
        None => None,
    }
}

/// Whether the 2×4 block `dots` (indexed `dots[y][x]`) holds exactly the dots
/// whose bits are set in `mask`.
pub open spec fn dots_match(dots: [[bool; 2]; 4], mask: u8) -> bool {
    forall|x: int, y: int| #![trigger dots[y][x]] in_cell(x, y) ==> dots[y][x] == (mask & dot_mask(x, y) != 0)
}

/// Packs a 2×4 block of booleans, indexed `dots[y][x]`, into a dot mask.
pub fn pack(dots: &[[bool; 2]; 4]) -> (mask: u8)
    ensures
        mask == mask_of(*dots),
{
    let row0 = dots[0];
    let row1 = dots[1];
    let row2 = dots[2];
    let row3 = dots[3];
    let mut mask: u8 = 0;
    if row0[0] { mask = mask | 0x01; }
    if row1[0] { mask = mask | 0x02; }
    if row2[0] { mask = mask | 0x04; }
    if row0[1] { mask = mask | 0x08; }
    if row1[1] { mask = mask | 0x10; }
    if row2[1] { mask = mask | 0x20; }
    if row3[0] { mask = mask | 0x40; }
    if row3[1] { mask = mask | 0x80; }
    proof {
        lemma_pack_steps(row0[0], row1[0], row2[0], row0[1], row1[1], row2[1], row3[0], row3[1]);
    }
    mask
}

pub(crate) proof fn lemma_pack_steps(a: bool, b: bool, c: bool, d: bool, e: bool, f: bool, g: bool, h: bool)
    ensures
        ({
            let m0 = 0u8;
            let m1 = if a { m0 | 0x01u8 } else { m0 };
            let m2 = if b { m1 | 0x02u8 } else { m1 };
            let m3 = if c { m2 | 0x04u8 } else { m2 };
            let m4 = if d { m3 | 0x08u8 } else { m3 };
            let m5 = if e { m4 | 0x10u8 } else { m4 };
            let m6 = if f { m5 | 0x20u8 } else { m5 };
            let m7 = if g { m6 | 0x40u8 } else { m6 };
            let m8 = if h { m7 | 0x80u8 } else { m7 };
            m8 == (if a { 0x01u8 } else { 0u8 }) | (if b { 0x02u8 } else { 0u8 }) | (if c { 0x04u8 } else { 0u8 })
                | (if d { 0x08u8 } else { 0u8 }) | (if e { 0x10u8 } else { 0u8 }) | (if f { 0x20u8 } else { 0u8 })
                | (if g { 0x40u8 } else { 0u8 }) | (if h { 0x80u8 } else { 0u8 })
        }),
{
    assert(({
            let m0 = 0u8;
            let m1 = if a { m0 | 0x01u8 } else { m0 };
            let m2 = if b { m1 | 0x02u8 } else { m1 };
            let m3 = if c { m2 | 0x04u8 } else { m2 };
            let m4 = if d { m3 | 0x08u8 } else { m3 };
            let m5 = if e { m4 | 0x10u8 } else { m4 };
            let m6 = if f { m5 | 0x20u8 } else { m5 };
            let m7 = if g { m6 | 0x40u8 } else { m6 };
            let m8 = if h { m7 | 0x80u8 } else { m7 };
            m8 == (if a { 0x01u8 } else { 0u8 }) | (if b { 0x02u8 } else { 0u8 }) | (if c { 0x04u8 } else { 0u8 })
                | (if d { 0x08u8 } else { 0u8 }) | (if e { 0x10u8 } else { 0u8 }) | (if f { 0x20u8 } else { 0u8 })
                | (if g { 0x40u8 } else { 0u8 }) | (if h { 0x80u8 } else { 0u8 })
        })) by (bit_vector);
}

/// Unpacks a dot mask into a 2×4 block of booleans indexed as `dots[y][x]`.
pub fn unpack(mask: u8) -> (dots: [[bool; 2]; 4])
    ensures
        dots_match(dots, mask),
{
    proof {
        lemma_dot_mask_values();
    }
    let dots = [
        [mask & 0x01 != 0, mask & 0x08 != 0],
        [mask & 0x02 != 0, mask & 0x10 != 0],
        [mask & 0x04 != 0, mask & 0x20 != 0],
        [mask & 0x40 != 0, mask & 0x80 != 0],
    ];
    assert(dots_match(dots, mask));
    dots
}


/// Every mask maps into the Braille block, and reading the mask back from its
/// character gives the mask again.
pub proof fn lemma_mask_round_trip(mask: u8)
    ensures
        BRAILLE_BASE <= braille_code(mask) <= BRAILLE_BASE + 0xFF,
        forall|c: char| c as u32 == braille_code(mask) ==> char_mask(c) == Some(mask),
{
}

/// A character that has a mask is the Braille character of that mask.
pub proof fn lemma_char_round_trip(c: char)
    ensures
        char_mask(c) matches Some(mask) ==> braille_code(mask) == c as u32,
{
}

/// Distinct masks map to distinct characters.
pub proof fn lemma_codes_distinct(a: u8, b: u8)
    requires
        a != b,
    ensures
        braille_code(a) != braille_code(b),
{
}

/// Packing an unpacked mask gives the mask back: `pack(&unpack(m)) == m`.
pub proof fn lemma_pack_unpack(dots: [[bool; 2]; 4], mask: u8)
    requires
        dots_match(dots, mask),
    ensures
        mask_of(dots) == mask,
{
    lemma_dot_mask_values();
    let (a, b, c, d) = (dots[0][0], dots[1][0], dots[2][0], dots[0][1]);
    let (e, f, g, h) = (dots[1][1], dots[2][1], dots[3][0], dots[3][1]);
    assert(a == (mask & 0x01 != 0) && b == (mask & 0x02 != 0) && c == (mask & 0x04 != 0) && d == (mask & 0x08 != 0));
    assert(e == (mask & 0x10 != 0) && f == (mask & 0x20 != 0) && g == (mask & 0x40 != 0) && h == (mask & 0x80 != 0));
    assert(
        (a == (mask & 0x01 != 0) && b == (mask & 0x02 != 0) && c == (mask & 0x04 != 0) && d == (mask & 0x08 != 0)
        && e == (mask & 0x10 != 0) && f == (mask & 0x20 != 0) && g == (mask & 0x40 != 0) && h == (mask & 0x80 != 0))
        ==> ((if a { 0x01u8 } else { 0u8 }) | (if b { 0x02u8 } else { 0u8 }) | (if c { 0x04u8 } else { 0u8 })
            | (if d { 0x08u8 } else { 0u8 }) | (if e { 0x10u8 } else { 0u8 }) | (if f { 0x20u8 } else { 0u8 })
            | (if g { 0x40u8 } else { 0u8 }) | (if h { 0x80u8 } else { 0u8 })) == mask
    ) by (bit_vector);
}

/// Unpacking a packed block gives the block back: `unpack(pack(&d)) == d`.
pub proof fn lemma_unpack_pack(dots: [[bool; 2]; 4], other: [[bool; 2]; 4])
    requires
        dots_match(other, mask_of(dots)),
    ensures
        forall|x: int, y: int| in_cell(x, y) ==> #[trigger] other[y][x] == dots[y][x],
{
    lemma_dot_mask_values();
    let (a, b, c, d) = (dots[0][0], dots[1][0], dots[2][0], dots[0][1]);
    let (e, f, g, h) = (dots[1][1], dots[2][1], dots[3][0], dots[3][1]);
    let m = mask_of(dots);
    assert(m == (if a { 0x01u8 } else { 0u8 }) | (if b { 0x02u8 } else { 0u8 }) | (if c { 0x04u8 } else { 0u8 })
            | (if d { 0x08u8 } else { 0u8 }) | (if e { 0x10u8 } else { 0u8 }) | (if f { 0x20u8 } else { 0u8 })
            | (if g { 0x40u8 } else { 0u8 }) | (if h { 0x80u8 } else { 0u8 }));
    assert(m == (if a { 0x01u8 } else { 0u8 }) | (if b { 0x02u8 } else { 0u8 }) | (if c { 0x04u8 } else { 0u8 })
            | (if d { 0x08u8 } else { 0u8 }) | (if e { 0x10u8 } else { 0u8 }) | (if f { 0x20u8 } else { 0u8 })
            | (if g { 0x40u8 } else { 0u8 }) | (if h { 0x80u8 } else { 0u8 })
        ==> (a == (m & 0x01 != 0) && b == (m & 0x02 != 0) && c == (m & 0x04 != 0) && d == (m & 0x08 != 0)
        && e == (m & 0x10 != 0) && f == (m & 0x20 != 0) && g == (m & 0x40 != 0) && h == (m & 0x80 != 0))) by (bit_vector);
    assert forall|x: int, y: int| in_cell(x, y) implies #[trigger] other[y][x] == dots[y][x] by {
        assert(other[y][x] == (m & dot_mask(x, y) != 0));
    }
}

/// The standard dot numbers name the documented positions: dots 1–3 run down
/// the left column, 4–6 down the right column, 7 and 8 along the bottom row.
pub proof fn lemma_dot_numbers_match_positions(x: int, y: int)
    requires
        in_cell(x, y),
    ensures
        dot_number_mask(dot_index(x, y) as int + 1) == dot_mask(x, y),
        1 <= dot_index(x, y) + 1 <= DOTS_PER_CELL,
{
}

} // verus!
