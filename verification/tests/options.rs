//! Mode names, parsing and defaults.

use rustille::options::{parse_background, parse_color_mode, parse_dither, parse_fit};
use rustille::{Background, ColorMode, Dither, ErrorKind, Fit, DEFAULT_THRESHOLD, DEFAULT_WIDTH, MAX_OUTPUT_CELLS};

#[test]
fn enum_strings_round_trip() {
    for dither in Dither::ALL.iter() {
        assert_eq!(dither.as_str().parse::<Dither>().unwrap(), *dither);
    }
    for color in ColorMode::ALL.iter() {
        assert_eq!(color.as_str().parse::<ColorMode>().unwrap(), *color);
    }
    for fit in Fit::ALL.iter() {
        assert_eq!(fit.as_str().parse::<Fit>().unwrap(), *fit);
    }
    assert_eq!("FLOYD_STEINBERG".parse::<Dither>().unwrap(), Dither::FloydSteinberg);
    assert_eq!(" Cover ".parse::<Fit>().unwrap(), Fit::Fill);
    assert!("nope".parse::<Fit>().is_err());
}

#[test]
fn background_parsing() {
    assert_eq!("black".parse::<Background>().unwrap(), Background::Black);
    assert_eq!("WHITE".parse::<Background>().unwrap(), Background::White);
    assert_eq!("#ff8000".parse::<Background>().unwrap(), Background::Rgb(255, 128, 0));
    assert_eq!("f80".parse::<Background>().unwrap(), Background::Rgb(255, 136, 0));
    assert_eq!("1,2,3".parse::<Background>().unwrap(), Background::Rgb(1, 2, 3));
    assert!("#gg0000".parse::<Background>().is_err());
    assert!("1,2".parse::<Background>().is_err());
    assert!("1,2,3,4".parse::<Background>().is_err());
    assert_eq!(Background::Rgb(255, 128, 0).rgb(), [255, 128, 0]);
    assert_eq!(Background::Rgb(1, 2, 3).to_text(), "#010203");
}

#[test]
fn names_and_aliases_parse() {
    assert_eq!(parse_dither("none").unwrap(), Dither::Plain);
    assert_eq!(parse_dither("fs").unwrap(), Dither::FloydSteinberg);
    assert_eq!(parse_dither("\tFloyd-Steinberg\n").unwrap(), Dither::FloydSteinberg);
    assert_eq!(parse_color_mode("off").unwrap(), ColorMode::Plain);
    assert_eq!(parse_color_mode("256").unwrap(), ColorMode::Ansi256);
    assert_eq!(parse_color_mode("24BIT").unwrap(), ColorMode::TrueColor);
    assert_eq!(parse_color_mode("True_Color").unwrap_err().kind(), ErrorKind::InvalidOptions);
    assert_eq!(parse_fit("contain").unwrap(), Fit::Contain);
    assert_eq!(parse_fit("STRETCH").unwrap(), Fit::Stretch);
    assert_eq!(parse_dither("atkinson").unwrap_err().kind(), ErrorKind::InvalidOptions);
    assert_eq!(parse_fit("").unwrap_err().kind(), ErrorKind::InvalidOptions);
}

#[test]
fn unknown_names_are_quoted_in_the_message() {
    let message = parse_fit("Zoom ").unwrap_err().message();
    assert_eq!(
        message,
        "invalid option: unknown fit mode \"zoom\"; expected one of: contain, fill, cover, stretch"
    );
    let message = parse_background(" chartreuse ").unwrap_err().message();
    assert_eq!(
        message,
        "invalid option: unknown background \"chartreuse\"; expected black, white, #rrggbb or r,g,b"
    );
}

#[test]
fn background_forms_and_their_edges() {
    assert_eq!(parse_background("  Black ").unwrap(), Background::Black);
    assert_eq!(parse_background(" 10 , 20 ,30").unwrap(), Background::Rgb(10, 20, 30));
    assert_eq!(parse_background("+1,2,3").unwrap(), Background::Rgb(1, 2, 3));
    assert!(parse_background("256,0,0").is_err());
    assert!(parse_background("1,,3").is_err());
    assert!(parse_background("-1,2,3").is_err());
    assert_eq!(parse_background("#ABC").unwrap(), Background::Rgb(0xAA, 0xBB, 0xCC));
    assert_eq!(parse_background("102030").unwrap(), Background::Rgb(0x10, 0x20, 0x30));
    assert!(parse_background("##abc").is_err());
    assert!(parse_background("#abcd").is_err());
    assert!(parse_background("é12").is_err());
    assert!(parse_background("").is_err());
}

#[test]
fn background_text_parses_back() {
    for background in [
        Background::Black,
        Background::White,
        Background::Rgb(0, 0, 0),
        Background::Rgb(255, 255, 255),
        Background::Rgb(1, 0xAB, 0x7F),
    ] {
        assert_eq!(parse_background(&background.to_text()).unwrap(), background);
    }
    assert_eq!(Background::Black.to_text(), "black");
    assert_eq!(Background::White.to_text(), "white");
    assert_eq!(Background::Rgb(0xAB, 0xCD, 0xEF).to_text(), "#abcdef");
}

#[test]
fn defaults_are_plain_text() {
    assert_eq!(ColorMode::default(), ColorMode::Plain);
    assert!(!ColorMode::default().is_enabled());
    assert!(ColorMode::Ansi256.is_enabled());
    assert_eq!(Dither::default(), Dither::Plain);
    assert_eq!(Fit::default(), Fit::Contain);
    assert_eq!(Background::default(), Background::Black);
    assert_eq!(Background::White.rgb(), [255, 255, 255]);
    assert_eq!(Background::Black.rgb(), [0, 0, 0]);
    assert_eq!(DEFAULT_THRESHOLD, 128);
    assert_eq!(DEFAULT_WIDTH, 80);
    assert_eq!(MAX_OUTPUT_CELLS, 1 << 22);
}
