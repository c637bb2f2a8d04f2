//! Colour resolution and terminal sizing of the command line.

use rustille::cli::{apply_terminal_size, resolve_color, ColorArg, ColorEnvironment, DitherArg, FitArg};
use rustille::{ColorMode, Dither, Fit};

fn env(is_terminal: bool) -> ColorEnvironment {
    ColorEnvironment {
        is_terminal,
        no_color: false,
        colorterm: None,
        term: None,
    }
}

#[test]
fn color_auto_needs_a_terminal() {
    assert_eq!(resolve_color(ColorArg::Auto, &env(false)), ColorMode::Plain);
    assert_eq!(resolve_color(ColorArg::Auto, &env(true)), ColorMode::Ansi256);
}

#[test]
fn no_color_disables_auto_but_not_always() {
    let mut environment = env(true);
    environment.no_color = true;
    assert_eq!(resolve_color(ColorArg::Auto, &environment), ColorMode::Plain);
    assert_eq!(resolve_color(ColorArg::Always, &environment), ColorMode::Ansi256);
}

#[test]
fn colorterm_selects_the_depth() {
    let mut environment = env(true);
    environment.colorterm = Some("truecolor".to_owned());
    assert_eq!(resolve_color(ColorArg::Auto, &environment), ColorMode::TrueColor);
    environment.colorterm = Some("24bit".to_owned());
    assert_eq!(resolve_color(ColorArg::Always, &environment), ColorMode::TrueColor);
}

#[test]
fn dumb_terminals_get_no_colour_on_auto() {
    let mut environment = env(true);
    environment.term = Some("dumb".to_owned());
    assert_eq!(resolve_color(ColorArg::Auto, &environment), ColorMode::Plain);
    assert_eq!(resolve_color(ColorArg::Never, &environment), ColorMode::Plain);
    assert_eq!(resolve_color(ColorArg::Truecolor, &environment), ColorMode::TrueColor);
}

#[test]
fn always_on_a_dumb_terminal_still_colours() {
    let mut environment = env(false);
    environment.term = Some("dumb".to_owned());
    environment.no_color = true;
    assert_eq!(resolve_color(ColorArg::Always, &environment), ColorMode::Ansi256);
    assert_eq!(resolve_color(ColorArg::Ansi256, &environment), ColorMode::Ansi256);
    assert_eq!(environment.best_depth(), ColorMode::Plain);
}

#[test]
fn terminal_size_is_used_only_when_no_size_is_given() {
    assert_eq!(apply_terminal_size(None, None, Fit::Contain, Some((120, 30))), (Some(120), Some(29)));
    assert_eq!(apply_terminal_size(Some(10), None, Fit::Contain, Some((120, 30))), (Some(10), None));
    assert_eq!(apply_terminal_size(None, None, Fit::Contain, None), (None, None));
}

#[test]
fn stretch_does_not_borrow_the_terminal_height() {
    assert_eq!(apply_terminal_size(None, None, Fit::Stretch, Some((120, 30))), (Some(120), None));
    assert_eq!(apply_terminal_size(None, None, Fit::Fill, Some((120, 30))), (Some(120), None));
}

#[test]
fn tiny_terminals_still_give_one_cell() {
    assert_eq!(apply_terminal_size(None, None, Fit::Contain, Some((0, 0))), (Some(1), Some(1)));
    assert_eq!(apply_terminal_size(None, None, Fit::Contain, Some((5, 1))), (Some(5), Some(1)));
    assert_eq!(apply_terminal_size(None, Some(7), Fit::Contain, Some((80, 24))), (None, Some(7)));
}

#[test]
fn argument_enums_convert_to_library_modes() {
    assert_eq!(Dither::from(DitherArg::Plain), Dither::Plain);
    assert_eq!(Dither::from(DitherArg::FloydSteinberg), Dither::FloydSteinberg);
    assert_eq!(Fit::from(FitArg::Contain), Fit::Contain);
    assert_eq!(Fit::from(FitArg::Fill), Fit::Fill);
    assert_eq!(Fit::from(FitArg::Stretch), Fit::Stretch);
}
