//! Error kinds, tags and messages.

use rustille::{Error, ErrorKind};

#[test]
fn kinds_round_trip_through_display() {
    let err = Error::InvalidBufferLength { expected: 16, actual: 3 };
    assert_eq!(err.kind(), ErrorKind::InvalidBufferLength);
    assert_eq!(err.kind().as_str(), "invalid_buffer_length");
    assert!(err.message().contains("expected 16"));
}

#[test]
fn io_errors_convert() {
    let err: Error = std::io::Error::other("nope").into();
    assert_eq!(err.kind(), ErrorKind::Io);
}

#[test]
fn every_kind_has_its_tag() {
    let cases = [
        (Error::Decode("d".to_owned()), ErrorKind::Decode, "decode"),
        (Error::UnsupportedFormat("u".to_owned()), ErrorKind::UnsupportedFormat, "unsupported_format"),
        (Error::invalid_dimensions("w".to_owned()), ErrorKind::InvalidDimensions, "invalid_dimensions"),
        (Error::InvalidBufferLength { expected: 1, actual: 2 }, ErrorKind::InvalidBufferLength, "invalid_buffer_length"),
        (Error::invalid_options("o".to_owned()), ErrorKind::InvalidOptions, "invalid_options"),
        (Error::Io(std::io::Error::other("x")), ErrorKind::Io, "io"),
    ];
    for (error, kind, tag) in cases {
        assert_eq!(error.kind(), kind);
        assert_eq!(error.kind().as_str(), tag);
    }
}

#[test]
fn messages_carry_a_prefix_and_the_payload() {
    assert_eq!(Error::Decode("bad header".to_owned()).message(), "failed to decode image: bad header");
    assert_eq!(
        Error::UnsupportedFormat("xcf".to_owned()).message(),
        "unsupported image format: xcf"
    );
    assert_eq!(Error::invalid_dimensions("0x1".to_owned()).message(), "invalid dimensions: 0x1");
    assert_eq!(
        Error::InvalidBufferLength { expected: 16, actual: 8 }.message(),
        "invalid buffer length: expected 16 bytes, got 8"
    );
    assert_eq!(Error::invalid_options("width".to_owned()).message(), "invalid option: width");
    let io = Error::Io(std::io::Error::other("disk on fire")).message();
    assert!(io.starts_with("i/o error: "));
    assert!(io.contains("disk on fire"));
}
