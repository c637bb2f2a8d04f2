//! The decisions of the `rustille` command line that involve no I/O: how
//! `--color` resolves against the environment, and how the terminal size
//! stands in for a missing `--width`/`--height`.

use vstd::prelude::*;

use crate::options::{ColorMode, Dither, Fit};
use crate::text::same_text;

verus! {

/// `--dither` values.
#[derive(Debug, Clone, Copy, PartialEq, Eq, Structural)]
pub enum DitherArg {
    /// Plain thresholding.
    Plain,
    /// Floyd–Steinberg error diffusion.
    FloydSteinberg,
}

/// `--color` values.
#[derive(Debug, Clone, Copy, PartialEq, Eq, Structural)]
pub enum ColorArg {
    /// Colour when writing to a capable terminal and `NO_COLOR` is unset.
    Auto,
    /// Always colour, picking the best depth the environment advertises.
    Always,
    /// Never colour.
    Never,
    /// Force the 256-colour palette.
    Ansi256,
    /// Force 24-bit colour.
    Truecolor,
}

/// `--fit` values.
#[derive(Debug, Clone, Copy, PartialEq, Eq, Structural)]
pub enum FitArg {
    /// Fit inside the box, preserving the aspect ratio.
    Contain,
    /// Cover the box, preserving the aspect ratio, then crop.
    Fill,
    /// Use the box exactly, ignoring the aspect ratio.
    Stretch,
}

/// The dithering algorithm a `--dither` value names.
pub open spec fn dither_for(arg: DitherArg) -> Dither {
    match arg {
        DitherArg::Plain => Dither::Plain,
        DitherArg::FloydSteinberg => Dither::FloydSteinberg,
    }
}

/// The fit mode a `--fit` value names.
pub open spec fn fit_for(arg: FitArg) -> Fit {
    match arg {
        FitArg::Contain => Fit::Contain,
        FitArg::Fill => Fit::Fill,
        FitArg::Stretch => Fit::Stretch,
    }
}

impl From<DitherArg> for Dither {
    fn from(value: DitherArg) -> (dither: Dither) {
        match value {
            DitherArg::Plain => Dither::Plain,
            DitherArg::FloydSteinberg => Dither::FloydSteinberg,
        }
    }
}

impl vstd::std_specs::convert::FromSpecImpl<DitherArg> for Dither {
    open spec fn obeys_from_spec() -> bool {
        true
    }

    open spec fn from_spec(v: DitherArg) -> Dither {
        dither_for(v)
    }
}

impl From<FitArg> for Fit {
    fn from(value: FitArg) -> (fit: Fit) {
        match value {
            FitArg::Contain => Fit::Contain,
            FitArg::Fill => Fit::Fill,
            FitArg::Stretch => Fit::Stretch,
        }
    }
}

impl vstd::std_specs::convert::FromSpecImpl<FitArg> for Fit {
    open spec fn obeys_from_spec() -> bool {
        true
    }

    open spec fn from_spec(v: FitArg) -> Fit {
        fit_for(v)
    }
}

/// What the environment says about colour support.
#[derive(Debug, Clone, PartialEq, Eq)]
pub struct ColorEnvironment {
    /// Whether the destination is an interactive terminal.
    pub is_terminal: bool,
    /// Whether `NO_COLOR` is set (to anything at all).
    pub no_color: bool,
    /// Value of `COLORTERM`, lowercased.
    pub colorterm: Option<String>,
    /// Value of `TERM`, lowercased.
    pub term: Option<String>,
}

/// The best colour depth an environment claims to support: none for a dumb
/// terminal, 24-bit when `COLORTERM` says `truecolor` or `24bit`, else 256
/// colours.
pub open spec fn depth_of(env: ColorEnvironment) -> ColorMode {
    if env.term matches Some(t) && t@ == "dumb"@ {
        ColorMode::Plain
    } else if env.colorterm matches Some(c) && (c@ == "truecolor"@ || c@ == "24bit"@) {
        ColorMode::TrueColor
    } else {
        ColorMode::Ansi256
    }
}

/// How `--color` resolves: `auto` honours `NO_COLOR` and only colours a real
/// terminal; `always` ignores both but still picks the advertised depth, and
/// never falls back to plain text.
pub open spec fn color_choice(arg: ColorArg, env: ColorEnvironment) -> ColorMode {
    match arg {
        ColorArg::Never => ColorMode::Plain,
        ColorArg::Ansi256 => ColorMode::Ansi256,
        ColorArg::Truecolor => ColorMode::TrueColor,
        ColorArg::Always => if depth_of(env) is Plain { ColorMode::Ansi256 } else { depth_of(env) },
        ColorArg::Auto => if env.no_color || !env.is_terminal { ColorMode::Plain } else { depth_of(env) },
    }
}

impl ColorEnvironment {
    /// The best colour depth this environment claims to support.
    pub fn best_depth(&self) -> (depth: ColorMode)
        ensures
            depth == depth_of(*self),
    {
        match &self.term {
            Some(term) => {
                if same_text(term.as_str(), "dumb") {
                    return ColorMode::Plain;
                }
            },
            None => {},
        }
        match &self.colorterm {
            Some(colorterm) => {
                if same_text(colorterm.as_str(), "truecolor") || same_text(colorterm.as_str(), "24bit") {
                    ColorMode::TrueColor
                } else {
                    ColorMode::Ansi256
                }
            },
            None => ColorMode::Ansi256,
        }
    }
}

/// Resolves `--color` against the environment.
pub fn resolve_color(arg: ColorArg, env: &ColorEnvironment) -> (mode: ColorMode)
    ensures
        mode == color_choice(arg, *env),
{
    match arg {
        ColorArg::Never => ColorMode::Plain,
        ColorArg::Ansi256 => ColorMode::Ansi256,
        ColorArg::Truecolor => ColorMode::TrueColor,
        ColorArg::Always => match env.best_depth() {
            ColorMode::Plain => ColorMode::Ansi256,
            depth => depth,
        },
        ColorArg::Auto => {
            if env.no_color || !env.is_terminal {
                ColorMode::Plain
            } else {
                env.best_depth()
            }
        },
    }
}

/// `--color never` always yields plain text, and `--color always` never does.
pub proof fn lemma_color_forcing(env: ColorEnvironment)
    ensures
        color_choice(ColorArg::Never, env) == ColorMode::Plain,
        !(color_choice(ColorArg::Always, env) is Plain),
        !env.is_terminal ==> color_choice(ColorArg::Auto, env) == ColorMode::Plain,
        env.no_color ==> color_choice(ColorArg::Auto, env) == ColorMode::Plain,
{
}

/// The output size after the terminal's size stands in for a missing one:
/// only when neither a width nor a height was requested does the terminal
/// give the width (at least 1) and, for `contain`, the height (one row less
/// than the terminal, at least 1).
pub open spec fn sized_by_terminal(
    width: Option<u32>,
    height: Option<u32>,
    fit: Fit,
    terminal: Option<(u32, u32)>,
) -> (Option<u32>, Option<u32>) {
    if width is None && height is None && terminal is Some {
        let (columns, rows) = terminal.unwrap();
        (
            Some(if columns < 1 { 1u32 } else { columns }),
            if fit == Fit::Contain { Some(if rows <= 1 { 1u32 } else { (rows - 1) as u32 }) } else { None },
        )
    } else {
        (width, height)
    }
}

/// Fills in the output size from the terminal when none was requested, so the
/// library itself stays terminal-independent.
pub fn apply_terminal_size(
    width: Option<u32>,
    height: Option<u32>,
    fit: Fit,
    terminal: Option<(u32, u32)>,
) -> (size: (Option<u32>, Option<u32>))
    ensures
        size == sized_by_terminal(width, height, fit, terminal),
{
    let mut size = (width, height);
    if width.is_none() && height.is_none() {
        if let Some((columns, rows)) = terminal {
            let w: u32 = if columns < 1 { 1 } else { columns };
            let remaining: u32 = rows.saturating_sub(1);
            let h: Option<u32> = if fit == Fit::Contain { Some(if remaining < 1 { 1 } else { remaining }) } else { None };
            size = (Some(w), h);
        }
    }
    size
}

} // verus!
