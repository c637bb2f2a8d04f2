//! Status codes and option values of the C interface.

use rustille::status::{status_for, RustilleColorMode, RustilleDither, RustilleFit, RustilleStatus};
use rustille::{ColorMode, Dither, Error, Fit};

#[test]
fn status_messages_exist_for_every_code() {
    let all = [
        RustilleStatus::Success,
        RustilleStatus::NullPointer,
        RustilleStatus::InvalidUtf8,
        RustilleStatus::InvalidEnum,
        RustilleStatus::Decode,
        RustilleStatus::UnsupportedFormat,
        RustilleStatus::InvalidDimensions,
        RustilleStatus::InvalidBufferLength,
        RustilleStatus::InvalidOptions,
        RustilleStatus::Io,
        RustilleStatus::Panic,
        RustilleStatus::Unsupported,
    ];
    for (code, status) in all.iter().enumerate() {
        assert!(!status.message().is_empty(), "{status:?}");
        assert_eq!(status.code(), code as i32);
    }
    assert_eq!(RustilleStatus::Success.message(), "ok");
    assert_eq!(RustilleStatus::Io.message(), "i/o error");
}

#[test]
fn errors_map_to_their_status() {
    assert_eq!(status_for(&Error::Decode(String::new())), RustilleStatus::Decode);
    assert_eq!(status_for(&Error::UnsupportedFormat(String::new())), RustilleStatus::UnsupportedFormat);
    assert_eq!(status_for(&Error::InvalidDimensions(String::new())), RustilleStatus::InvalidDimensions);
    assert_eq!(
        status_for(&Error::InvalidBufferLength { expected: 4, actual: 3 }),
        RustilleStatus::InvalidBufferLength
    );
    assert_eq!(status_for(&Error::InvalidOptions(String::new())), RustilleStatus::InvalidOptions);
    assert_eq!(status_for(&Error::Io(std::io::Error::other("x"))), RustilleStatus::Io);
}

#[test]
fn option_values_convert_and_keep_their_codes() {
    assert_eq!(Dither::from(RustilleDither::Plain), Dither::Plain);
    assert_eq!(Dither::from(RustilleDither::FloydSteinberg), Dither::FloydSteinberg);
    assert_eq!(ColorMode::from(RustilleColorMode::Plain), ColorMode::Plain);
    assert_eq!(ColorMode::from(RustilleColorMode::Ansi256), ColorMode::Ansi256);
    assert_eq!(ColorMode::from(RustilleColorMode::TrueColor), ColorMode::TrueColor);
    assert_eq!(Fit::from(RustilleFit::Contain), Fit::Contain);
    assert_eq!(Fit::from(RustilleFit::Fill), Fit::Fill);
    assert_eq!(Fit::from(RustilleFit::Stretch), Fit::Stretch);
    assert_eq!(RustilleDither::FloydSteinberg.code(), 1);
    assert_eq!(RustilleColorMode::TrueColor.code(), 2);
    assert_eq!(RustilleFit::Stretch.code(), 2);
    assert_eq!(RustilleFit::Contain.code(), 0);
}
