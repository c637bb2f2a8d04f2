//! Luminance and ANSI colour helpers.
//!
//! Nothing here emits an escape sequence unless [`ColorMode`] asks for one.
//!
//! Luminance is the Rec. 709 weighting `0.2126 R + 0.7152 G + 0.0722 B`
//! evaluated in IEEE-754 single precision, as terminal-art tools do. This
//! module evaluates it exactly on the fixed-point grid of `2^-27`, where every
//! single-precision value that can arise from 8-bit channels is an integer, so
//! the grey level picked for the 256-colour palette is bit-for-bit the one the
//! floating-point formula gives.

use vstd::prelude::*;

use crate::options::ColorMode;
use crate::text::{decimal, digit, push_decimal};

verus! {

/// ANSI sequence that resets all attributes.
pub const RESET: &'static str = "\x1b[0m";

/// One unit of the fixed-point grid is `2^-27`.
pub const UNIT: u64 = 0x800_0000;

/// `0.2126` rounded to single precision, in grid units.
pub const RED_WEIGHT: u64 = 28534688;

/// `0.7152` rounded to single precision, in grid units.
pub const GREEN_WEIGHT: u64 = 95992520;

/// `0.0722` rounded to single precision, in grid units.
pub const BLUE_WEIGHT: u64 = 9690520;

/// The spacing of single-precision values around the grid value `n`: the
/// significand has 24 bits.
pub open spec fn f32_spacing(n: nat) -> nat
    decreases n,
{
    if n < 0x100_0000 {
        1
    } else {
        2 * f32_spacing(n / 2)
    }
}

/// `n` rounded to a multiple of `unit`, ties to the even multiple.
pub open spec fn round_half_even(n: nat, unit: nat) -> nat {
    let q = n / unit;
    let r = n % unit;
    if 2 * r < unit {
        q * unit
    } else if 2 * r > unit {
        (q + 1) * unit
    } else if q % 2 == 0 {
        q * unit
    } else {
        (q + 1) * unit
    }
}

/// The single-precision value nearest the grid value `n`, ties to even.
pub open spec fn f32_round(n: nat) -> nat {
    round_half_even(n, f32_spacing(n))
}

/// Rec. 709 luminance of an sRGB triple in grid units, evaluated as
/// `(0.2126 * r + 0.7152 * g) + 0.0722 * b` in single precision.
pub open spec fn luminance_units(r: u8, g: u8, b: u8) -> nat {
    f32_round(
        f32_round(f32_round((RED_WEIGHT * r) as nat) + f32_round((GREEN_WEIGHT * g) as nat))
            + f32_round((BLUE_WEIGHT * b) as nat),
    )
}

/// Luminance rounded half away from zero to a whole level, clamped to 255.
pub open spec fn grey_level(r: u8, g: u8, b: u8) -> nat {
    let level = (luminance_units(r, g, b) + (UNIT / 2) as nat) / (UNIT as nat);
    if level > 255 { 255 } else { level }
}

/// Rounds the grid value `n` to single precision.
fn round_to_f32(n: u64) -> (rounded: u64)
    requires
        n < 0x100_0000_0000,
    ensures
        rounded == f32_round(n as nat),
        rounded <= 2 * n + 1,
{
    let mut unit: u64 = 1;
    let mut rest: u64 = n;
    while rest >= 0x100_0000
        invariant
            1 <= unit <= n + 1,
            rest == n / unit,
            f32_spacing(n as nat) == unit * f32_spacing(rest as nat),
            n < 0x100_0000_0000,
        decreases rest,
    {
        proof {
            vstd::arithmetic::div_mod::lemma_div_denominator(n as int, unit as int, 2);
            assert(unit * 2 <= n + 1) by (nonlinear_arith)
                requires rest == n / unit, rest >= 0x100_0000, unit >= 1;
            assert(unit * f32_spacing(rest as nat) == (unit * 2) * f32_spacing((rest / 2) as nat)) by (nonlinear_arith)
                requires f32_spacing(rest as nat) == 2 * f32_spacing((rest / 2) as nat);
        }
        rest = rest / 2;
        unit = unit * 2;
    }
    assert(f32_spacing(rest as nat) == 1);
    assert(f32_spacing(n as nat) == unit) by (nonlinear_arith)
        requires f32_spacing(n as nat) == unit * f32_spacing(rest as nat), f32_spacing(rest as nat) == 1;
    let q: u64 = n / unit;
    let r: u64 = n % unit;
    assert(q * unit <= n) by (nonlinear_arith)
        requires q == n / unit, unit >= 1;
    assert((q + 1) * unit <= 2 * n + 1) by (nonlinear_arith)
        requires q == n / unit, unit >= 1, unit <= n + 1;
    if 2 * r < unit {
        q * unit
    } else if 2 * r > unit {
        (q + 1) * unit
    } else if q % 2 == 0 {
        q * unit
    } else {
        (q + 1) * unit
    }
}

/// Rec. 709 luminance of an sRGB triple in grid units of `2^-27`, exactly as
/// single precision computes it.
pub fn luminance_fixed(r: u8, g: u8, b: u8) -> (units: u64)
    ensures
        units == luminance_units(r, g, b),
        units < 0x100_0000_0000,
{
    let red = round_to_f32(RED_WEIGHT * r as u64);
    let green = round_to_f32(GREEN_WEIGHT * g as u64);
    let blue = round_to_f32(BLUE_WEIGHT * b as u64);
    let partial = round_to_f32(red + green);
    round_to_f32(partial + blue)
}

/// Luminance rounded to the nearest whole level in `0..=255`.
pub fn grey_of(r: u8, g: u8, b: u8) -> (level: u8)
    ensures
        level == grey_level(r, g, b),
{
    let units = luminance_fixed(r, g, b);
    let level: u64 = (units + UNIT / 2) / UNIT;
    if level > 255 { 255 } else { level as u8 }
}

/// The six levels of the xterm 6×6×6 colour cube.
pub open spec fn cube_level(index: int) -> u8 {
    if index == 0 {
        0
    } else if index == 1 {
        95
    } else if index == 2 {
        135
    } else if index == 3 {
        175
    } else if index == 4 {
        215
    } else {
        255
    }
}

/// Distance between two channel values.
pub open spec fn channel_distance(a: int, b: int) -> int {
    if a < b { b - a } else { a - b }
}

/// The cube level nearest `value`; on a tie the lower level wins.
pub open spec fn nearest_cube_index(value: u8) -> int {
    if value <= 47 {
        0
    } else if value <= 115 {
        1
    } else if value <= 155 {
        2
    } else if value <= 195 {
        3
    } else if value <= 235 {
        4
    } else {
        5
    }
}

fn cube_level_at(index: usize) -> (level: u8)
    requires
        index < 6,
    ensures
        level == cube_level(index as int),
{
    if index == 0 {
        0
    } else if index == 1 {
        95
    } else if index == 2 {
        135
    } else if index == 3 {
        175
    } else if index == 4 {
        215
    } else {
        255
    }
}

/// Index of the nearest colour-cube level for one channel: the first level at
/// the smallest distance.
fn cube_index(value: u8) -> (best: usize)
    ensures
        best < 6,
        forall|j: int| 0 <= j < 6 ==> channel_distance(value as int, cube_level(best as int) as int)
            <= channel_distance(value as int, #[trigger] cube_level(j) as int),
        forall|j: int| 0 <= j < best ==> channel_distance(value as int, cube_level(best as int) as int)
            < channel_distance(value as int, #[trigger] cube_level(j) as int),
        best == nearest_cube_index(value),
{
    let mut best: usize = 0;
    let mut best_distance: u16 = u16::MAX;
    let mut index: usize = 0;
    while index < 6
        invariant
            index <= 6,
            best < 6,
            index == 0 ==> best_distance == u16::MAX,
            index > 0 ==> best < index && best_distance == channel_distance(value as int, cube_level(best as int) as int),
            forall|j: int| 0 <= j < index ==> best_distance <= channel_distance(value as int, #[trigger] cube_level(j) as int),
            forall|j: int| 0 <= j < best ==> best_distance < channel_distance(value as int, #[trigger] cube_level(j) as int),
        decreases 6 - index,
    {
        let level = cube_level_at(index);
        let distance: u16 = if value < level { (level - value) as u16 } else { (value - level) as u16 };
        if distance < best_distance {
            best_distance = distance;
            best = index;
        }
        index = index + 1;
    }
    proof {
        let v = value as int;
        assert(channel_distance(v, cube_level(0) as int) == v);
        assert(channel_distance(v, cube_level(1) as int) == channel_distance(v, 95));
        assert(channel_distance(v, cube_level(2) as int) == channel_distance(v, 135));
        assert(channel_distance(v, cube_level(3) as int) == channel_distance(v, 175));
        assert(channel_distance(v, cube_level(4) as int) == channel_distance(v, 215));
        assert(channel_distance(v, cube_level(5) as int) == channel_distance(v, 255));
    }
    best
}

/// Squared Euclidean distance between two colours.
pub open spec fn colour_distance(a: [u8; 3], b: [u8; 3]) -> int {
    channel_distance(a[0] as int, b[0] as int) * channel_distance(a[0] as int, b[0] as int)
        + channel_distance(a[1] as int, b[1] as int) * channel_distance(a[1] as int, b[1] as int)
        + channel_distance(a[2] as int, b[2] as int) * channel_distance(a[2] as int, b[2] as int)
}

fn squared_distance(a: [u8; 3], b: [u8; 3]) -> (total: u32)
    ensures
        total == colour_distance(a, b),
{
    let mut total: u32 = 0;
    let mut channel: usize = 0;
    while channel < 3
        invariant
            channel <= 3,
            total == (if channel > 0 { channel_distance(a[0] as int, b[0] as int) * channel_distance(a[0] as int, b[0] as int) } else { 0 })
                + (if channel > 1 { channel_distance(a[1] as int, b[1] as int) * channel_distance(a[1] as int, b[1] as int) } else { 0 })
                + (if channel > 2 { channel_distance(a[2] as int, b[2] as int) * channel_distance(a[2] as int, b[2] as int) } else { 0 }),
            total <= 65025 * channel,
        decreases 3 - channel,
    {
        let x = a[channel];
        let y = b[channel];
        let delta: u32 = if x < y { (y - x) as u32 } else { (x - y) as u32 };
        assert(delta * delta <= 65025) by (nonlinear_arith)
            requires delta <= 255;
        total = total + delta * delta;
        channel = channel + 1;
    }
    total
}

/// The RGB value of xterm-256 palette entry `index` in `16..=255`: entries
/// 16–231 are the 6×6×6 cube `16 + 36r + 6g + b`, entries 232–255 the grey
/// ramp `8 + 10k`.
pub open spec fn palette_rgb(index: int) -> [u8; 3] {
    if index >= 232 {
        let v = (8 + 10 * (index - 232)) as u8;
        [v, v, v]
    } else {
        let i = index - 16;
        [cube_level(i / 36), cube_level((i / 6) % 6), cube_level(i % 6)]
    }
}

/// Squared distance from `rgb` to palette entry `index`.
pub open spec fn palette_distance(rgb: [u8; 3], index: int) -> int {
    colour_distance(rgb, palette_rgb(index))
}

/// Whether `index` is the palette entry in `16..=255` closest to `rgb`, the
/// lowest index winning a tie.
pub open spec fn is_closest_entry(rgb: [u8; 3], index: int) -> bool {
    &&& 16 <= index <= 255
    &&& forall|j: int| 16 <= j <= 255 ==> palette_distance(rgb, index) <= #[trigger] palette_distance(rgb, j)
    &&& forall|j: int| 16 <= j < index ==> palette_distance(rgb, index) < #[trigger] palette_distance(rgb, j)
}

/// The closest xterm-256 palette entry to an RGB triple, looking only at the
/// 6×6×6 colour cube (16–231) and the 24-step grey ramp (232–255); on a tie
/// the lowest index wins.
pub open spec fn ansi256_of(r: u8, g: u8, b: u8) -> u8 {
    choose|i: u8| is_closest_entry([r, g, b], i as int)
}

/// At most one entry is the closest one.
proof fn lemma_closest_unique(rgb: [u8; 3], i: int, j: int)
    requires
        is_closest_entry(rgb, i),
        is_closest_entry(rgb, j),
    ensures
        i == j,
{
    if i < j {
        assert(palette_distance(rgb, j) < palette_distance(rgb, i));
        assert(palette_distance(rgb, i) <= palette_distance(rgb, j));
    } else if j < i {
        assert(palette_distance(rgb, i) < palette_distance(rgb, j));
        assert(palette_distance(rgb, j) <= palette_distance(rgb, i));
    }
}

/// A cube entry is the cube of its three channel indices.
proof fn lemma_cube_entry(a: int, b: int, c: int)
    requires
        0 <= a < 6,
        0 <= b < 6,
        0 <= c < 6,
    ensures
        palette_rgb(16 + 36 * a + 6 * b + c) == [cube_level(a), cube_level(b), cube_level(c)],
        16 <= 16 + 36 * a + 6 * b + c < 232,
{
    let i = 36 * a + 6 * b + c;
    assert(i / 36 == a && (i / 6) % 6 == b && i % 6 == c) by (nonlinear_arith)
        requires i == 36 * a + 6 * b + c, 0 <= a < 6, 0 <= b < 6, 0 <= c < 6;
}

/// Every cube entry splits into three channel indices.
proof fn lemma_cube_split(j: int)
    requires
        16 <= j < 232,
    ensures
        j == 16 + 36 * ((j - 16) / 36) + 6 * (((j - 16) / 6) % 6) + (j - 16) % 6,
        0 <= (j - 16) / 36 < 6,
        0 <= ((j - 16) / 6) % 6 < 6,
        0 <= (j - 16) % 6 < 6,
{
    let i = j - 16;
    assert(i == 36 * (i / 36) + 6 * ((i / 6) % 6) + i % 6 && 0 <= i / 36 < 6) by (nonlinear_arith)
        requires 0 <= i < 216;
}

/// A smaller channel distance gives a smaller square.
proof fn lemma_square_monotone(x: int, y: int)
    requires
        0 <= x <= y,
    ensures
        x * x <= y * y,
        x < y ==> x * x < y * y,
{
    assert(x * x <= y * y && (x < y ==> x * x < y * y)) by (nonlinear_arith)
        requires 0 <= x <= y;
}

/// The grey-ramp step nearest `rgb`: the first step at the smallest
/// distance.
fn nearest_grey_step(rgb: [u8; 3]) -> (step: (u8, u32))
    ensures
        step.0 < 24,
        step.1 == palette_distance(rgb, 232 + step.0),
        forall|k: int| 0 <= k < 24 ==> step.1 <= #[trigger] palette_distance(rgb, 232 + k),
        forall|k: int| 0 <= k < step.0 ==> step.1 < #[trigger] palette_distance(rgb, 232 + k),
{
    let mut best: u8 = 0;
    let mut best_distance: u32 = squared_distance(rgb, [8, 8, 8]);
    let mut k: u8 = 1;
    while k < 24
        invariant
            1 <= k <= 24,
            best < k,
            best_distance == palette_distance(rgb, 232 + best),
            forall|j: int| 0 <= j < k ==> best_distance <= #[trigger] palette_distance(rgb, 232 + j),
            forall|j: int| 0 <= j < best ==> best_distance < #[trigger] palette_distance(rgb, 232 + j),
        decreases 24 - k,
    {
        let v: u8 = 8 + 10 * k;
        let distance = squared_distance(rgb, [v, v, v]);
        assert(palette_rgb(232 + k as int) == [v, v, v]);
        if distance < best_distance {
            best_distance = distance;
            best = k;
        }
        k = k + 1;
    }
    (best, best_distance)
}

/// Maps an RGB triple onto the closest xterm-256 palette entry. Only the
/// colour cube (16–231) and the grey ramp (232–255) are considered; the 16
/// system colours are skipped because their RGB values depend on the theme.
/// On a tie the lowest index wins.
pub fn ansi256_index(r: u8, g: u8, b: u8) -> (index: u8)
    ensures
        is_closest_entry([r, g, b], index as int),
        index == ansi256_of(r, g, b),
        16 <= index,
{
    let rgb: [u8; 3] = [r, g, b];
    let (ri, gi, bi) = (cube_index(r), cube_index(g), cube_index(b));
    let cube_rgb = [cube_level_at(ri), cube_level_at(gi), cube_level_at(bi)];
    let cube_error = squared_distance(rgb, cube_rgb);
    let cube_code: usize = 16 + 36 * ri + 6 * gi + bi;
    let (step, grey_error) = nearest_grey_step(rgb);
    proof {
        lemma_cube_entry(ri as int, gi as int, bi as int);
        assert(cube_error == palette_distance(rgb, cube_code as int));
        // Every cube entry is at least as far as the per-channel nearest one,
        // and strictly farther when its index is lower.
        assert forall|j: int| 16 <= j < 232 implies cube_error <= #[trigger] palette_distance(rgb, j)
            && (j < cube_code ==> cube_error < palette_distance(rgb, j)) by {
            lemma_cube_split(j);
            let (a, bb, c) = ((j - 16) / 36, ((j - 16) / 6) % 6, (j - 16) % 6);
            lemma_cube_entry(a, bb, c);
            let (d0, d1, d2) = (
                channel_distance(r as int, cube_level(ri as int) as int),
                channel_distance(g as int, cube_level(gi as int) as int),
                channel_distance(b as int, cube_level(bi as int) as int),
            );
            let (e0, e1, e2) = (
                channel_distance(r as int, cube_level(a) as int),
                channel_distance(g as int, cube_level(bb) as int),
                channel_distance(b as int, cube_level(c) as int),
            );
            assert(d0 <= e0 && d1 <= e1 && d2 <= e2);
            assert(0 <= d0 && 0 <= d1 && 0 <= d2);
            lemma_square_monotone(d0, e0);
            lemma_square_monotone(d1, e1);
            lemma_square_monotone(d2, e2);
            if j < cube_code {
                if a < ri {
                    assert(d0 < e0);
                } else if a == ri && bb < gi {
                    assert(d1 < e1);
                } else {
                    assert(a == ri && bb == gi && c < bi);
                    assert(d2 < e2);
                }
            }
        }
        assert forall|j: int| 232 <= j <= 255 implies grey_error <= #[trigger] palette_distance(rgb, j)
            && (j < 232 + step ==> grey_error < palette_distance(rgb, j)) by {
            assert(palette_distance(rgb, 232 + (j - 232)) == palette_distance(rgb, j));
        }
    }
    if grey_error < cube_error {
        let index: u8 = 232 + step;
        proof {
            assert forall|j: int| 16 <= j <= 255 implies palette_distance(rgb, index as int) <= #[trigger] palette_distance(rgb, j) by {
                if j >= 232 {
                    assert(grey_error <= palette_distance(rgb, j));
                } else {
                    assert(cube_error <= palette_distance(rgb, j));
                }
            }
            assert forall|j: int| 16 <= j < index implies palette_distance(rgb, index as int) < #[trigger] palette_distance(rgb, j) by {
                if j >= 232 {
                    assert(grey_error < palette_distance(rgb, j));
                } else {
                    assert(cube_error <= palette_distance(rgb, j));
                }
            }
            lemma_ansi256_choice(rgb, index as int);
        }
        index
    } else {
        let index: u8 = cube_code as u8;
        proof {
            assert forall|j: int| 16 <= j <= 255 implies palette_distance(rgb, index as int) <= #[trigger] palette_distance(rgb, j) by {
                if j >= 232 {
                    assert(grey_error <= palette_distance(rgb, j));
                } else {
                    assert(cube_error <= palette_distance(rgb, j));
                }
            }
            assert forall|j: int| 16 <= j < index implies palette_distance(rgb, index as int) < #[trigger] palette_distance(rgb, j) by {
                assert(cube_error < palette_distance(rgb, j));
            }
            lemma_ansi256_choice(rgb, index as int);
        }
        index
    }
}

/// The closest entry, once found, is the one `ansi256_of` names.
proof fn lemma_ansi256_choice(rgb: [u8; 3], index: int)
    requires
        is_closest_entry(rgb, index),
    ensures
        ansi256_of(rgb[0], rgb[1], rgb[2]) == index,
{
    let i = index as u8;
    assert(is_closest_entry([rgb[0], rgb[1], rgb[2]], i as int)) by {
        assert([rgb[0], rgb[1], rgb[2]] =~= rgb);
    }
    let c = ansi256_of(rgb[0], rgb[1], rgb[2]);
    assert(is_closest_entry([rgb[0], rgb[1], rgb[2]], c as int));
    lemma_closest_unique([rgb[0], rgb[1], rgb[2]], c as int, index);
}

/// The palette index chosen is the closest entry of the cube or the grey
/// ramp, so it lies in `16..=255`.
pub proof fn lemma_ansi256_in_palette(r: u8, g: u8, b: u8)
    ensures
        16 <= ansi256_of(r, g, b) <= 255,
        is_closest_entry([r, g, b], ansi256_of(r, g, b) as int),
{
    let best = lemma_best_up_to([r, g, b], 255);
    lemma_ansi256_choice([r, g, b], best);
}

/// An entry of `16..=k` closest to `rgb` among those, the lowest on a tie.
proof fn lemma_best_up_to(rgb: [u8; 3], k: int) -> (best: int)
    requires
        16 <= k <= 255,
    ensures
        16 <= best <= k,
        forall|j: int| 16 <= j <= k ==> palette_distance(rgb, best) <= #[trigger] palette_distance(rgb, j),
        forall|j: int| 16 <= j < best ==> palette_distance(rgb, best) < #[trigger] palette_distance(rgb, j),
    decreases k,
{
    if k == 16 {
        16
    } else {
        let before = lemma_best_up_to(rgb, k - 1);
        if palette_distance(rgb, k) < palette_distance(rgb, before) {
            k
        } else {
            before
        }
    }
}

/// Appends the decimal form of `value` without going through `format!`.
pub fn push_u8_decimal(out: &mut String, value: u8)
    ensures
        final(out)@ == old(out)@ + decimal(value as nat),
{
    if value >= 100 {
        out.push(digit(value / 100));
    }
    if value >= 10 {
        out.push(digit((value / 10) % 10));
    }
    out.push(digit(value % 10));
    proof {
        let v = value as nat;
        if v >= 100 {
            assert(decimal(v / 100) == seq![crate::text::digit_char((v / 100) as int)]);
            assert(decimal(v / 10) == decimal(v / 100) + seq![crate::text::digit_char(((v / 10) % 10) as int)]);
        } else if v >= 10 {
            assert(decimal(v / 10) == seq![crate::text::digit_char((v / 10) as int)]);
        }
        assert(final(out)@ =~= old(out)@ + decimal(v));
    }
}

/// The foreground escape sequence for `rgb` in `mode`; empty for plain output.
pub open spec fn foreground_escape(mode: ColorMode, rgb: [u8; 3]) -> Seq<char> {
    match mode {
        ColorMode::Plain => seq![],
        ColorMode::Ansi256 => "\x1b[38;5;"@ + decimal(ansi256_of(rgb[0], rgb[1], rgb[2]) as nat) + "m"@,
        ColorMode::TrueColor => "\x1b[38;2;"@ + decimal(rgb[0] as nat) + ";"@ + decimal(rgb[1] as nat) + ";"@
            + decimal(rgb[2] as nat) + "m"@,
    }
}

/// Appends the foreground escape sequence for `rgb` in the given mode. Writes
/// nothing for [`ColorMode::Plain`].
pub fn push_foreground(out: &mut String, mode: ColorMode, rgb: [u8; 3])
    ensures
        final(out)@ == old(out)@ + foreground_escape(mode, rgb),
{
    match mode {
        ColorMode::Plain => {
            assert(old(out)@ + foreground_escape(mode, rgb) =~= old(out)@);
        },
        ColorMode::Ansi256 => {
            out.push_str("\x1b[38;5;");
            push_u8_decimal(out, ansi256_index(rgb[0], rgb[1], rgb[2]));
            out.push('m');
            proof {
                reveal_strlit("m");
            }
            assert(final(out)@ =~= old(out)@ + foreground_escape(mode, rgb));
        },
        ColorMode::TrueColor => {
            out.push_str("\x1b[38;2;");
            push_u8_decimal(out, rgb[0]);
            out.push(';');
            push_u8_decimal(out, rgb[1]);
            out.push(';');
            push_u8_decimal(out, rgb[2]);
            out.push('m');
            proof {
                reveal_strlit("m");
                reveal_strlit(";");
            }
            assert(final(out)@ =~= old(out)@ + foreground_escape(mode, rgb));
        },
    }
}

/// Upper bound on the characters one foreground escape can take, used for
/// sizing the output buffer up front.
pub open spec fn escape_budget_of(mode: ColorMode) -> nat {
    match mode {
        ColorMode::Plain => 0,
        ColorMode::Ansi256 => 11,
        ColorMode::TrueColor => 19,
    }
}

/// Upper bound on the bytes one foreground escape can take.
pub fn escape_budget(mode: ColorMode) -> (budget: usize)
    ensures
        budget == escape_budget_of(mode),
{
    match mode {
        ColorMode::Plain => 0,
        ColorMode::Ansi256 => 11,
        ColorMode::TrueColor => 19,
    }
}

/// A byte has at most three decimal digits.
proof fn lemma_decimal_len(v: nat)
    requires
        v <= 255,
    ensures
        1 <= decimal(v).len() <= 3,
{
    if v >= 10 {
        assert(decimal(v) == decimal(v / 10) + seq![crate::text::digit_char((v % 10) as int)]);
        if v / 10 >= 10 {
            assert(decimal(v / 10) == decimal(v / 10 / 10) + seq![crate::text::digit_char(((v / 10) % 10) as int)]);
            assert(decimal(v / 10 / 10).len() == 1);
        }
    }
}

/// Every foreground escape fits the budget reserved for its mode.
pub proof fn lemma_escape_within_budget(mode: ColorMode, rgb: [u8; 3])
    ensures
        foreground_escape(mode, rgb).len() <= escape_budget_of(mode),
{
    reveal_strlit("\x1b[38;5;");
    reveal_strlit("\x1b[38;2;");
    reveal_strlit("m");
    reveal_strlit(";");
    lemma_decimal_len(rgb[0] as nat);
    lemma_decimal_len(rgb[1] as nat);
    lemma_decimal_len(rgb[2] as nat);
    lemma_decimal_len(ansi256_of(rgb[0], rgb[1], rgb[2]) as nat);
}

} // verus!
