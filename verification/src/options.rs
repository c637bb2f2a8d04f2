//! Knobs for the image renderer.

use vstd::prelude::*;
use vstd::string::StrSliceExecFns;

use crate::error::Error;
use crate::trusted::{debug_quoted, debug_text};
use crate::text::{
    ascii_lower, chars_are, chars_of, digit_value, digits_value, is_space, parse_byte, parse_byte_at, string_of, to_ascii_lower,
    trim_bounds, trim_end, trim_start, trimmed,
};

verus! {

/// Width, in character cells, used when neither a width nor a height is given.
pub const DEFAULT_WIDTH: u32 = 80;

/// Default luminance cut-off: pixels at or above it become dots.
pub const DEFAULT_THRESHOLD: u8 = 128;

/// Upper bound on the size of a render, in character cells (2^22 cells).
pub const MAX_OUTPUT_CELLS: u64 = 4_194_304;

/// Error-diffusion / ordered dithering algorithm.
#[derive(Debug, Clone, Copy, PartialEq, Eq, Hash, Structural)]
#[non_exhaustive]
pub enum Dither {
    /// Plain thresholding, no error diffusion.
    Plain,
    /// Floyd–Steinberg error diffusion (7/16, 3/16, 5/16, 1/16).
    FloydSteinberg,
}

/// How colour is emitted.
#[derive(Debug, Clone, Copy, PartialEq, Eq, Hash, Structural)]
#[non_exhaustive]
pub enum ColorMode {
    /// Plain Unicode, no escape sequences. The default for the library.
    Plain,
    /// 256-colour ANSI foreground (`ESC [ 38;5;N m`).
    Ansi256,
    /// 24-bit ANSI foreground (`ESC [ 38;2;R;G;B m`).
    TrueColor,
}

/// Colour composited under transparent pixels.
#[derive(Debug, Clone, Copy, PartialEq, Eq, Hash, Structural)]
#[non_exhaustive]
pub enum Background {
    /// Opaque black, `#000000`. The default.
    Black,
    /// Opaque white, `#FFFFFF`.
    White,
    /// An arbitrary opaque colour.
    Rgb(u8, u8, u8),
}

/// How the image is mapped onto the requested output box.
#[derive(Debug, Clone, Copy, PartialEq, Eq, Hash, Structural)]
#[non_exhaustive]
pub enum Fit {
    /// Scale to fit inside the box, preserving the aspect ratio. Default.
    Contain,
    /// Scale to cover the box, preserving the aspect ratio, then centre-crop.
    Fill,
    /// Scale to exactly the box, ignoring the aspect ratio.
    Stretch,
}

/// The name of a dithering algorithm.
pub open spec fn dither_name(dither: Dither) -> Seq<char> {
    match dither {
        Dither::Plain => "none"@,
        Dither::FloydSteinberg => "floyd-steinberg"@,
    }
}

/// The name of a colour mode.
pub open spec fn color_mode_name(mode: ColorMode) -> Seq<char> {
    match mode {
        ColorMode::Plain => "none"@,
        ColorMode::Ansi256 => "ansi256"@,
        ColorMode::TrueColor => "truecolor"@,
    }
}

/// The name of a fit mode.
pub open spec fn fit_name(fit: Fit) -> Seq<char> {
    match fit {
        Fit::Contain => "contain"@,
        Fit::Fill => "fill"@,
        Fit::Stretch => "stretch"@,
    }
}

/// The RGB bytes of a background.
pub open spec fn background_rgb(background: Background) -> [u8; 3] {
    match background {
        Background::Black => [0u8, 0u8, 0u8],
        Background::White => [255u8, 255u8, 255u8],
        Background::Rgb(r, g, b) => [r, g, b],
    }
}

impl Dither {
    /// Lowercase, hyphenated name (`"none"`, `"floyd-steinberg"`).
    pub fn as_str(self) -> (name: &'static str)
        ensures
            name@ == dither_name(self),
    {
        match self {
            Dither::Plain => "none",
            Dither::FloydSteinberg => "floyd-steinberg",
        }
    }

    /// Every algorithm, in declaration order.
    pub const ALL: [Dither; 2] = [Dither::Plain, Dither::FloydSteinberg];
}

impl ColorMode {
    /// Lowercase name (`"none"`, `"ansi256"`, `"truecolor"`).
    pub fn as_str(self) -> (name: &'static str)
        ensures
            name@ == color_mode_name(self),
    {
        match self {
            ColorMode::Plain => "none",
            ColorMode::Ansi256 => "ansi256",
            ColorMode::TrueColor => "truecolor",
        }
    }

    /// Whether output will contain ANSI escape sequences.
    pub fn is_enabled(self) -> (enabled: bool)
        ensures
            enabled == !(self is Plain),
    {
        !matches!(self, ColorMode::Plain)
    }

    /// Every mode, in declaration order.
    pub const ALL: [ColorMode; 3] = [ColorMode::Plain, ColorMode::Ansi256, ColorMode::TrueColor];
}

impl Background {
    /// The composited colour as RGB bytes.
    pub fn rgb(self) -> (rgb: [u8; 3])
        ensures
            rgb == background_rgb(self),
    {
        match self {
            Background::Black => [0, 0, 0],
            Background::White => [255, 255, 255],
            Background::Rgb(r, g, b) => [r, g, b],
        }
    }
}

impl Fit {
    /// Lowercase name (`"contain"`, `"fill"`, `"stretch"`).
    pub fn as_str(self) -> (name: &'static str)
        ensures
            name@ == fit_name(self),
    {
        match self {
            Fit::Contain => "contain",
            Fit::Fill => "fill",
            Fit::Stretch => "stretch",
        }
    }

    /// Every mode, in declaration order.
    pub const ALL: [Fit; 3] = [Fit::Contain, Fit::Fill, Fit::Stretch];
}

impl Default for Dither {
    fn default() -> (dither: Dither)
        ensures
            dither == Dither::Plain,
    {
        Dither::Plain
    }
}

impl Default for ColorMode {
    fn default() -> (mode: ColorMode)
        ensures
            mode == ColorMode::Plain,
    {
        ColorMode::Plain
    }
}

impl Default for Background {
    fn default() -> (background: Background)
        ensures
            background == Background::Black,
    {
        Background::Black
    }
}

impl Default for Fit {
    fn default() -> (fit: Fit)
        ensures
            fit == Fit::Contain,
    {
        Fit::Contain
    }
}


/// Checks the requested output size: a width or height, when given, must be
/// at least one cell.
///
/// # Errors
///
/// [`Error::InvalidOptions`] naming the first dimension that is zero.
pub fn validate_size(width: Option<u32>, height: Option<u32>) -> (checked: Result<(), Error>)
    ensures
        checked is Ok <==> (width != Some(0u32) && height != Some(0u32)),
        checked matches Err(e) ==> e matches Error::InvalidOptions(m) && m@ == (if width == Some(0u32) {
            "width must be greater than zero"@
        } else {
            "height must be greater than zero"@
        }),
{
    if width == Some(0u32) {
        let mut message = String::new();
        message.push_str("width must be greater than zero");
        assert(message@ =~= "width must be greater than zero"@);
        return Err(Error::invalid_options(message));
    }
    if height == Some(0u32) {
        let mut message = String::new();
        message.push_str("height must be greater than zero");
        assert(message@ =~= "height must be greater than zero"@);
        return Err(Error::invalid_options(message));
    }
    Ok(())
}

/// A character of a mode name after normalisation: ASCII capitals lowered
/// and `_` read as `-`.
pub open spec fn name_char(c: char) -> char {
    if ascii_lower(c) == '_' { '-' } else { ascii_lower(c) }
}

/// A mode name as it is matched: surrounding whitespace removed, ASCII
/// capitals lowered, `_` read as `-`.
pub open spec fn normalized_name(s: Seq<char>) -> Seq<char> {
    trimmed(s).map_values(|c: char| name_char(c))
}

/// The dithering algorithm a normalised name selects.
pub open spec fn dither_named(name: Seq<char>) -> Option<Dither> {
    if name == "none"@ {
        Some(Dither::Plain)
    } else if name == "floyd-steinberg"@ || name == "fs"@ {
        Some(Dither::FloydSteinberg)
    } else {
        None
    }
}

/// The colour mode a normalised name selects.
pub open spec fn color_mode_named(name: Seq<char>) -> Option<ColorMode> {
    if name == "none"@ || name == "off"@ {
        Some(ColorMode::Plain)
    } else if name == "ansi256"@ || name == "256"@ {
        Some(ColorMode::Ansi256)
    } else if name == "truecolor"@ || name == "24bit"@ {
        Some(ColorMode::TrueColor)
    } else {
        None
    }
}

/// The fit mode a normalised name selects.
pub open spec fn fit_named(name: Seq<char>) -> Option<Fit> {
    if name == "contain"@ {
        Some(Fit::Contain)
    } else if name == "fill"@ || name == "cover"@ {
        Some(Fit::Fill)
    } else if name == "stretch"@ {
        Some(Fit::Stretch)
    } else {
        None
    }
}

/// Normalises a mode name for matching.
fn normalize(s: &str) -> (name: Vec<char>)
    ensures
        name@ == normalized_name(s@),
{
    let chars = chars_of(s);
    let (start, end) = trim_bounds(&chars, 0, chars.len());
    assert(chars@.subrange(0, chars@.len() as int) =~= chars@);
    let mut name: Vec<char> = Vec::new();
    let mut i: usize = start;
    while i < end
        invariant
            start <= i <= end <= chars@.len(),
            name@ == chars@.subrange(start as int, i as int).map_values(|c: char| name_char(c)),
        decreases end - i,
    {
        let lower = to_ascii_lower(chars[i]);
        let c = if lower == '_' { '-' } else { lower };
        name.push(c);
        assert(chars@.subrange(start as int, i as int + 1).map_values(|c: char| name_char(c))
            =~= chars@.subrange(start as int, i as int).map_values(|c: char| name_char(c)).push(c));
        i = i + 1;
    }
    name
}

/// The message for a mode name that names nothing.
pub open spec fn unknown_message(label: Seq<char>, name: Seq<char>, choices: Seq<char>) -> Seq<char> {
    "unknown "@ + label + seq![' '] + debug_text(name) + "; expected one of: "@ + choices
}

/// An [`Error::InvalidOptions`] for an unknown mode name.
fn unknown_name(label: &str, name: &Vec<char>, choices: &str) -> (error: Error)
    ensures
        error matches Error::InvalidOptions(m) && m@ == unknown_message(label@, name@, choices@),
{
    let mut message = String::new();
    message.push_str("unknown ");
    message.push_str(label);
    message.push(' ');
    let text = string_of(name);
    let quoted = debug_quoted(text.as_str());
    message.push_str(quoted.as_str());
    message.push_str("; expected one of: ");
    message.push_str(choices);
    assert(message@ =~= unknown_message(label@, name@, choices@));
    Error::invalid_options(message)
}

/// Parses a dithering algorithm name (`none`, `floyd-steinberg` or `fs`),
/// ignoring case, surrounding whitespace and `_` versus `-`.
pub fn parse_dither(s: &str) -> (parsed: Result<Dither, Error>)
    ensures
        match dither_named(normalized_name(s@)) {
            Some(d) => parsed == Ok::<Dither, Error>(d),
            None => parsed matches Err(e) && e matches Error::InvalidOptions(m)
                && m@ == unknown_message("dither mode"@, normalized_name(s@), "none, floyd-steinberg, fs"@),
        },
{
    let name = normalize(s);
    if chars_are(&name, "none") {
        Ok(Dither::Plain)
    } else if chars_are(&name, "floyd-steinberg") || chars_are(&name, "fs") {
        Ok(Dither::FloydSteinberg)
    } else {
        Err(unknown_name("dither mode", &name, "none, floyd-steinberg, fs"))
    }
}

/// Parses a colour mode name (`none`, `off`, `ansi256`, `256`, `truecolor`
/// or `24bit`), ignoring case, surrounding whitespace and `_` versus `-`.
pub fn parse_color_mode(s: &str) -> (parsed: Result<ColorMode, Error>)
    ensures
        match color_mode_named(normalized_name(s@)) {
            Some(m) => parsed == Ok::<ColorMode, Error>(m),
            None => parsed matches Err(e) && e matches Error::InvalidOptions(m)
                && m@ == unknown_message("color mode"@, normalized_name(s@), "none, off, ansi256, 256, truecolor, 24bit"@),
        },
{
    let name = normalize(s);
    if chars_are(&name, "none") || chars_are(&name, "off") {
        Ok(ColorMode::Plain)
    } else if chars_are(&name, "ansi256") || chars_are(&name, "256") {
        Ok(ColorMode::Ansi256)
    } else if chars_are(&name, "truecolor") || chars_are(&name, "24bit") {
        Ok(ColorMode::TrueColor)
    } else {
        Err(unknown_name("color mode", &name, "none, off, ansi256, 256, truecolor, 24bit"))
    }
}

/// Parses a fit mode name (`contain`, `fill`, `cover` or `stretch`),
/// ignoring case, surrounding whitespace and `_` versus `-`.
pub fn parse_fit(s: &str) -> (parsed: Result<Fit, Error>)
    ensures
        match fit_named(normalized_name(s@)) {
            Some(f) => parsed == Ok::<Fit, Error>(f),
            None => parsed matches Err(e) && e matches Error::InvalidOptions(m)
                && m@ == unknown_message("fit mode"@, normalized_name(s@), "contain, fill, cover, stretch"@),
        },
{
    let name = normalize(s);
    if chars_are(&name, "contain") {
        Ok(Fit::Contain)
    } else if chars_are(&name, "fill") || chars_are(&name, "cover") {
        Ok(Fit::Fill)
    } else if chars_are(&name, "stretch") {
        Ok(Fit::Stretch)
    } else {
        Err(unknown_name("fit mode", &name, "contain, fill, cover, stretch"))
    }
}

impl core::str::FromStr for Dither {
    type Err = Error;

    fn from_str(s: &str) -> (parsed: Result<Dither, Error>)
        ensures
            match dither_named(normalized_name(s@)) {
                Some(d) => parsed == Ok::<Dither, Error>(d),
                None => parsed matches Err(e) && e matches Error::InvalidOptions(m)
                    && m@ == unknown_message("dither mode"@, normalized_name(s@), "none, floyd-steinberg, fs"@),
            },
    {
        parse_dither(s)
    }
}

impl core::str::FromStr for ColorMode {
    type Err = Error;

    fn from_str(s: &str) -> (parsed: Result<ColorMode, Error>)
        ensures
            match color_mode_named(normalized_name(s@)) {
                Some(m) => parsed == Ok::<ColorMode, Error>(m),
                None => parsed matches Err(e) && e matches Error::InvalidOptions(m)
                    && m@ == unknown_message("color mode"@, normalized_name(s@), "none, off, ansi256, 256, truecolor, 24bit"@),
            },
    {
        parse_color_mode(s)
    }
}

impl core::str::FromStr for Fit {
    type Err = Error;

    fn from_str(s: &str) -> (parsed: Result<Fit, Error>)
        ensures
            match fit_named(normalized_name(s@)) {
                Some(f) => parsed == Ok::<Fit, Error>(f),
                None => parsed matches Err(e) && e matches Error::InvalidOptions(m)
                    && m@ == unknown_message("fit mode"@, normalized_name(s@), "contain, fill, cover, stretch"@),
            },
    {
        parse_fit(s)
    }
}

/// The index of the first `,` in `s` at or after `from`, or `s.len()` when
/// there is none.
pub open spec fn first_comma(s: Seq<char>, from: int) -> int
    decreases s.len() - from,
{
    if from < 0 || from >= s.len() {
        s.len() as int
    } else if s[from] == ',' {
        from
    } else {
        first_comma(s, from + 1)
    }
}

/// `r,g,b`: exactly three comma-separated decimal bytes, each with
/// surrounding whitespace allowed.
pub open spec fn comma_rgb(raw: Seq<char>) -> Option<(u8, u8, u8)> {
    let i = first_comma(raw, 0);
    let j = first_comma(raw, i + 1);
    let k = first_comma(raw, j + 1);
    if i < raw.len() && j < raw.len() && k == raw.len() {
        match (
            parse_byte(trimmed(raw.subrange(0, i)), 10),
            parse_byte(trimmed(raw.subrange(i + 1, j)), 10),
            parse_byte(trimmed(raw.subrange(j + 1, raw.len() as int)), 10),
        ) {
            (Some(r), Some(g), Some(b)) => Some((r, g, b)),
            _ => None,
        }
    } else {
        None
    }
}

/// `raw` without one leading `#`.
pub open spec fn strip_hash(raw: Seq<char>) -> Seq<char> {
    if raw.len() > 0 && raw[0] == '#' { raw.drop_first() } else { raw }
}

/// The six hex digits a colour code stands for: one leading `#` dropped,
/// then three ASCII characters doubled (`#abc` is `#aabbcc`) or six ASCII
/// characters as they are.
pub open spec fn hex_digits(raw: Seq<char>) -> Option<Seq<char>> {
    let hex = strip_hash(raw);
    if !(forall|i: int| 0 <= i < hex.len() ==> is_ascii_char(#[trigger] hex[i])) {
        None
    } else if hex.len() == 3 {
        Some(seq![hex[0], hex[0], hex[1], hex[1], hex[2], hex[2]])
    } else if hex.len() == 6 {
        Some(hex)
    } else {
        None
    }
}

/// Whether `c` is an ASCII character.
pub open spec fn is_ascii_char(c: char) -> bool {
    (c as u32) < 0x80
}

/// `#rrggbb` or `#rgb`, with or without the `#`.
pub open spec fn hex_rgb(raw: Seq<char>) -> Option<(u8, u8, u8)> {
    match hex_digits(raw) {
        Some(h) => match (
            parse_byte(h.subrange(0, 2), 16),
            parse_byte(h.subrange(2, 4), 16),
            parse_byte(h.subrange(4, 6), 16),
        ) {
            (Some(r), Some(g), Some(b)) => Some((r, g, b)),
            _ => None,
        },
        None => None,
    }
}

/// The background a string names: `black` or `white` in any ASCII case, then
/// `r,g,b`, then `#rrggbb` / `#rgb`; surrounding whitespace is ignored.
pub open spec fn background_named(s: Seq<char>) -> Option<Background> {
    let raw = trimmed(s);
    let lower = raw.map_values(|c: char| ascii_lower(c));
    if lower == "black"@ {
        Some(Background::Black)
    } else if lower == "white"@ {
        Some(Background::White)
    } else {
        match comma_rgb(raw) {
            Some((r, g, b)) => Some(Background::Rgb(r, g, b)),
            None => match hex_rgb(raw) {
                Some((r, g, b)) => Some(Background::Rgb(r, g, b)),
                None => None,
            },
        }
    }
}

/// The lowercase hex digit of `d` in `0..16`.
pub open spec fn hex_digit_char(d: int) -> char {
    if d < 10 { (48 + d) as char } else { (87 + d) as char }
}

/// Two lowercase hex digits for a byte.
pub open spec fn hex_byte(v: u8) -> Seq<char> {
    seq![hex_digit_char(v as int / 16), hex_digit_char(v as int % 16)]
}

/// How a background is written: `black`, `white` or `#rrggbb` in lowercase
/// hex.
pub open spec fn background_text(background: Background) -> Seq<char> {
    match background {
        Background::Black => "black"@,
        Background::White => "white"@,
        Background::Rgb(r, g, b) => seq!['#'] + hex_byte(r) + hex_byte(g) + hex_byte(b),
    }
}

/// The characters `chars[lo..hi]`, copied.
fn copy_range(chars: &Vec<char>, lo: usize, hi: usize) -> (part: Vec<char>)
    requires
        lo <= hi <= chars@.len(),
    ensures
        part@ == chars@.subrange(lo as int, hi as int),
{
    let mut part: Vec<char> = Vec::new();
    let mut i: usize = lo;
    while i < hi
        invariant
            lo <= i <= hi <= chars@.len(),
            part@ == chars@.subrange(lo as int, i as int),
        decreases hi - i,
    {
        part.push(chars[i]);
        assert(chars@.subrange(lo as int, i as int + 1) =~= chars@.subrange(lo as int, i as int).push(chars@[i as int]));
        i = i + 1;
    }
    part
}

/// Whether `chars`, with ASCII capitals lowered, spells `text`.
fn lowered_is(chars: &Vec<char>, text: &str) -> (same: bool)
    ensures
        same == (chars@.map_values(|c: char| ascii_lower(c)) == text@),
{
    let n = chars.len();
    let m = text.unicode_len();
    let ghost lower = chars@.map_values(|c: char| ascii_lower(c));
    if n != m {
        assert(lower.len() != text@.len());
        return false;
    }
    let mut i: usize = 0;
    while i < n
        invariant
            i <= n,
            n == chars@.len(),
            m == text@.len(),
            n == m,
            lower == chars@.map_values(|c: char| ascii_lower(c)),
            forall|k: int| 0 <= k < i ==> lower[k] == text@[k],
        decreases n - i,
    {
        if to_ascii_lower(chars[i]) != text.get_char(i) {
            assert(lower[i as int] != text@[i as int]);
            return false;
        }
        i = i + 1;
    }
    assert(lower =~= text@);
    true
}

/// The index of the first `,` in `chars` at or after `from`, or the length.
fn find_comma(chars: &Vec<char>, from: usize) -> (at: usize)
    requires
        from <= chars@.len(),
    ensures
        at == first_comma(chars@, from as int),
{
    let mut i: usize = from;
    while i < chars.len() && chars[i] != ','
        invariant
            from <= i <= chars@.len(),
            first_comma(chars@, from as int) == first_comma(chars@, i as int),
        decreases chars@.len() - i,
    {
        i = i + 1;
    }
    i
}

/// A byte from the trimmed text `chars[lo..hi]`, in base 10.
fn decimal_field(chars: &Vec<char>, lo: usize, hi: usize) -> (byte: Option<u8>)
    requires
        lo <= hi <= chars@.len(),
    ensures
        byte == parse_byte(trimmed(chars@.subrange(lo as int, hi as int)), 10),
{
    let (p, q) = trim_bounds(chars, lo, hi);
    parse_byte_at(chars, p, q, 10)
}

/// Parses `r,g,b`.
fn parse_comma_rgb(raw: &Vec<char>) -> (rgb: Option<(u8, u8, u8)>)
    ensures
        rgb == comma_rgb(raw@),
{
    let n = raw.len();
    let i = find_comma(raw, 0);
    if i >= n {
        return None;
    }
    let j = find_comma(raw, i + 1);
    proof {
        lemma_first_comma_bounds(raw@, i as int + 1);
    }
    if j >= n {
        return None;
    }
    let k = find_comma(raw, j + 1);
    if k != n {
        proof {
            lemma_first_comma_bounds(raw@, j as int + 1);
        }
        return None;
    }
    let r = decimal_field(raw, 0, i);
    let g = decimal_field(raw, i + 1, j);
    let b = decimal_field(raw, j + 1, n);
    match (r, g, b) {
        (Some(r), Some(g), Some(b)) => Some((r, g, b)),
        _ => None,
    }
}

proof fn lemma_first_comma_bounds(s: Seq<char>, from: int)
    requires
        0 <= from <= s.len(),
    ensures
        from <= first_comma(s, from) <= s.len(),
    decreases s.len() - from,
{
    if from < s.len() && s[from] != ',' {
        lemma_first_comma_bounds(s, from + 1);
    }
}

/// The six hex digits a colour code stands for.
fn expand_hex(raw: &Vec<char>) -> (digits: Option<Vec<char>>)
    ensures
        match hex_digits(raw@) {
            Some(h) => digits matches Some(d) && d@ == h,
            None => digits is None,
        },
{
    let n = raw.len();
    let start: usize = if n > 0 && raw[0] == '#' { 1 } else { 0 };
    let hex = copy_range(raw, start, n);
    assert(hex@ =~= strip_hash(raw@));
    let mut i: usize = 0;
    while i < hex.len()
        invariant
            i <= hex@.len(),
            hex@ == strip_hash(raw@),
            forall|k: int| 0 <= k < i ==> is_ascii_char(#[trigger] hex@[k]),
        decreases hex@.len() - i,
    {
        if (hex[i] as u32) >= 0x80 {
            assert(!is_ascii_char(hex@[i as int]));
            return None;
        }
        i = i + 1;
    }
    if hex.len() == 3 {
        let mut d: Vec<char> = Vec::new();
        d.push(hex[0]);
        d.push(hex[0]);
        d.push(hex[1]);
        d.push(hex[1]);
        d.push(hex[2]);
        d.push(hex[2]);
        assert(d@ =~= seq![hex@[0], hex@[0], hex@[1], hex@[1], hex@[2], hex@[2]]);
        Some(d)
    } else if hex.len() == 6 {
        Some(hex)
    } else {
        None
    }
}

/// Parses `#rrggbb` or `#rgb`.
fn parse_hex_rgb(raw: &Vec<char>) -> (rgb: Option<(u8, u8, u8)>)
    ensures
        rgb == hex_rgb(raw@),
{
    match expand_hex(raw) {
        Some(h) => {
            let r = parse_byte_at(&h, 0, 2, 16);
            let g = parse_byte_at(&h, 2, 4, 16);
            let b = parse_byte_at(&h, 4, 6, 16);
            match (r, g, b) {
                (Some(r), Some(g), Some(b)) => Some((r, g, b)),
                _ => None,
            }
        },
        None => None,
    }
}

/// Parses a background: `black`, `white` (any ASCII case), `r,g,b` with
/// decimal bytes, or `#rrggbb` / `#rgb` with or without the `#`; surrounding
/// whitespace is ignored.
pub fn parse_background(s: &str) -> (parsed: Result<Background, Error>)
    ensures
        match background_named(s@) {
            Some(b) => parsed == Ok::<Background, Error>(b),
            None => parsed matches Err(e) && e matches Error::InvalidOptions(m)
                && m@ == "unknown background "@ + debug_text(trimmed(s@))
                    + "; expected black, white, #rrggbb or r,g,b"@,
        },
{
    let chars = chars_of(s);
    let (a, b) = trim_bounds(&chars, 0, chars.len());
    assert(chars@.subrange(0, chars@.len() as int) =~= chars@);
    let raw = copy_range(&chars, a, b);
    if lowered_is(&raw, "black") {
        return Ok(Background::Black);
    }
    if lowered_is(&raw, "white") {
        return Ok(Background::White);
    }
    if let Some((r, g, b)) = parse_comma_rgb(&raw) {
        return Ok(Background::Rgb(r, g, b));
    }
    if let Some((r, g, b)) = parse_hex_rgb(&raw) {
        return Ok(Background::Rgb(r, g, b));
    }
    let mut message = String::new();
    message.push_str("unknown background ");
    let text = string_of(&raw);
    let quoted = debug_quoted(text.as_str());
    message.push_str(quoted.as_str());
    message.push_str("; expected black, white, #rrggbb or r,g,b");
    assert(message@ =~= "unknown background "@ + debug_text(trimmed(s@)) + "; expected black, white, #rrggbb or r,g,b"@);
    Err(Error::invalid_options(message))
}

/// The lowercase hex digit of `d`.
fn hex_digit(d: u8) -> (c: char)
    requires
        d < 16,
    ensures
        c == hex_digit_char(d as int),
{
    let code: u8 = if d < 10 { 48 + d } else { 87 + d };
    let c = code as char;
    proof {
        crate::braille::lemma_char_code(c);
    }
    c
}

/// Appends two lowercase hex digits for `v`.
fn push_hex_byte(out: &mut String, v: u8)
    ensures
        final(out)@ == old(out)@ + hex_byte(v),
{
    out.push(hex_digit(v / 16));
    out.push(hex_digit(v % 16));
    assert(final(out)@ =~= old(out)@ + hex_byte(v));
}

impl Background {
    /// The background as text: `black`, `white` or `#rrggbb`.
    pub fn to_text(self) -> (text: String)
        ensures
            text@ == background_text(self),
    {
        match self {
            Background::Black => "black".to_string(),
            Background::White => "white".to_string(),
            Background::Rgb(r, g, b) => {
                let mut text = String::new();
                text.push('#');
                push_hex_byte(&mut text, r);
                push_hex_byte(&mut text, g);
                push_hex_byte(&mut text, b);
                assert(text@ =~= background_text(self));
                text
            },
        }
    }
}

impl core::str::FromStr for Background {
    type Err = Error;

    fn from_str(s: &str) -> (parsed: Result<Background, Error>)
        ensures
            match background_named(s@) {
                Some(b) => parsed == Ok::<Background, Error>(b),
                None => parsed matches Err(e) && e matches Error::InvalidOptions(m)
                    && m@ == "unknown background "@ + debug_text(trimmed(s@))
                        + "; expected black, white, #rrggbb or r,g,b"@,
            },
    {
        parse_background(s)
    }
}

/// A character that may stand in a printed mode name.
pub open spec fn plain_name_char(c: char) -> bool {
    ('a' <= c <= 'z') || ('0' <= c <= '9') || c == '-'
}

/// Text with no whitespace and no ASCII capitals is its own trimmed,
/// lowercased form.
proof fn lemma_unspaced_lowercase(s: Seq<char>)
    requires
        forall|i: int| 0 <= i < s.len() ==> !is_space(#[trigger] s[i]) && !('A' <= s[i] <= 'Z'),
    ensures
        trimmed(s) == s,
        s.map_values(|c: char| ascii_lower(c)) == s,
{
    assert(trim_start(s) == s);
    assert(trim_end(s) == s);
    assert(s.map_values(|c: char| ascii_lower(c)) =~= s);
}

/// Normalising a name made of lowercase letters, digits and `-` leaves it
/// as it is.
pub proof fn lemma_plain_name_normalized(s: Seq<char>)
    requires
        forall|i: int| 0 <= i < s.len() ==> plain_name_char(#[trigger] s[i]),
    ensures
        normalized_name(s) == s,
{
    lemma_unspaced_lowercase(s);
    assert(normalized_name(s) =~= s);
}

proof fn lemma_no_comma(s: Seq<char>, from: int)
    requires
        0 <= from <= s.len(),
        forall|i: int| from <= i < s.len() ==> #[trigger] s[i] != ',',
    ensures
        first_comma(s, from) == s.len(),
    decreases s.len() - from,
{
    if from < s.len() {
        lemma_no_comma(s, from + 1);
    }
}

proof fn lemma_hex_digit_value(d: int)
    requires
        0 <= d < 16,
    ensures
        digit_value(hex_digit_char(d), 16) == Some(d as nat),
        !is_space(hex_digit_char(d)),
        !('A' <= hex_digit_char(d) <= 'Z'),
        hex_digit_char(d) != ',',
        hex_digit_char(d) != '+',
        is_ascii_char(hex_digit_char(d)),
{
}

/// Two lowercase hex digits parse back to the byte they were written for.
proof fn lemma_hex_byte_parses(v: u8)
    ensures
        parse_byte(hex_byte(v), 16) == Some(v),
{
    let h = hex_byte(v);
    lemma_hex_digit_value(v as int / 16);
    lemma_hex_digit_value(v as int % 16);
    let one = h.drop_last();
    assert(one.drop_last() =~= Seq::<char>::empty());
    assert(digits_value(one.drop_last(), 16) == Some(0nat));
    assert(one.last() == h[0]);
    assert(digits_value(one, 16) == Some((v as int / 16) as nat));
    assert(h != seq!['+'] && h != seq!['-']) by {
        assert(h.len() == 2);
    }
}

/// What `Background::to_text` writes, `parse_background` reads back.
pub proof fn lemma_background_text_round_trip(b: Background)
    ensures
        background_named(background_text(b)) == Some(b),
{
    reveal_strlit("black");
    reveal_strlit("white");
    assert("black"@.len() == 5);
    assert("white"@ =~= seq!['w', 'h', 'i', 't', 'e']);
    assert("black"@ =~= seq!['b', 'l', 'a', 'c', 'k']);
    match b {
        Background::Black => {
            lemma_unspaced_lowercase("black"@);
        },
        Background::White => {
            lemma_unspaced_lowercase("white"@);
        },
        Background::Rgb(r, g, bl) => {
            let t = background_text(b);
            lemma_hex_digit_value(r as int / 16);
            lemma_hex_digit_value(r as int % 16);
            lemma_hex_digit_value(g as int / 16);
            lemma_hex_digit_value(g as int % 16);
            lemma_hex_digit_value(bl as int / 16);
            lemma_hex_digit_value(bl as int % 16);
            assert(t.len() == 7);
            assert(t[0] == '#');
            assert(forall|i: int| 1 <= i < 7 ==> !is_space(#[trigger] t[i]) && !('A' <= t[i] <= 'Z')
                && t[i] != ',' && is_ascii_char(t[i]));
            lemma_unspaced_lowercase(t);
            lemma_no_comma(t, 0);
            let hex = strip_hash(t);
            assert(hex =~= hex_byte(r) + hex_byte(g) + hex_byte(bl));
            assert(hex.subrange(0, 2) =~= hex_byte(r));
            assert(hex.subrange(2, 4) =~= hex_byte(g));
            assert(hex.subrange(4, 6) =~= hex_byte(bl));
            lemma_hex_byte_parses(r);
            lemma_hex_byte_parses(g);
            lemma_hex_byte_parses(bl);
        },
    }
}

/// Every name a dithering algorithm prints parses back to it.
pub proof fn lemma_dither_names_round_trip(d: Dither)
    ensures
        dither_named(normalized_name(dither_name(d))) == Some(d),
{
    reveal_strlit("none");
    reveal_strlit("floyd-steinberg");
    assert("none"@.len() == 4);
    assert("floyd-steinberg"@.len() == 15);
    lemma_plain_name_normalized(dither_name(d));
}

/// Every name a colour mode prints parses back to it.
pub proof fn lemma_color_mode_names_round_trip(m: ColorMode)
    ensures
        color_mode_named(normalized_name(color_mode_name(m))) == Some(m),
{
    reveal_strlit("none");
    reveal_strlit("off");
    reveal_strlit("ansi256");
    reveal_strlit("256");
    reveal_strlit("truecolor");
    assert("none"@.len() == 4);
    assert("off"@.len() == 3);
    assert("ansi256"@.len() == 7);
    assert("256"@.len() == 3);
    assert("truecolor"@.len() == 9);
    lemma_plain_name_normalized(color_mode_name(m));
}

/// Every name a fit mode prints parses back to it.
pub proof fn lemma_fit_names_round_trip(f: Fit)
    ensures
        fit_named(normalized_name(fit_name(f))) == Some(f),
{
    reveal_strlit("contain");
    reveal_strlit("fill");
    reveal_strlit("cover");
    reveal_strlit("stretch");
    assert("contain"@.len() == 7);
    assert("fill"@.len() == 4);
    assert("cover"@.len() == 5);
    assert("stretch"@[0] == 's' && "contain"@[0] == 'c');
    lemma_plain_name_normalized(fit_name(f));
}

} // verus!
