//! Error type shared by every entry point.

use vstd::prelude::*;

use crate::text::push_decimal;
use crate::trusted::io_error_text;

verus! {

/// Everything that can go wrong while rendering.
///
/// The variants are deliberately coarse and stable: bindings map them onto
/// numeric codes.
#[derive(Debug)]
#[non_exhaustive]
pub enum Error {
    /// The image bytes could not be decoded.
    Decode(String),
    /// The container format was recognised but is not supported.
    UnsupportedFormat(String),
    /// A width or height was zero, or the pixel count would overflow.
    InvalidDimensions(String),
    /// A raw pixel buffer did not match `width * height * bytes_per_pixel`.
    InvalidBufferLength {
        /// Number of bytes implied by the declared dimensions.
        expected: usize,
        /// Number of bytes actually provided.
        actual: usize,
    },
    /// A rendering option was out of range.
    InvalidOptions(String),
    /// Reading or writing failed.
    Io(std::io::Error),
}

/// Discriminant of [`Error`], without the payload.
#[derive(Debug, Clone, Copy, PartialEq, Eq, Hash, Structural)]
#[non_exhaustive]
pub enum ErrorKind {
    /// See [`Error::Decode`].
    Decode,
    /// See [`Error::UnsupportedFormat`].
    UnsupportedFormat,
    /// See [`Error::InvalidDimensions`].
    InvalidDimensions,
    /// See [`Error::InvalidBufferLength`].
    InvalidBufferLength,
    /// See [`Error::InvalidOptions`].
    InvalidOptions,
    /// See [`Error::Io`].
    Io,
}

/// The kind of an error.
pub open spec fn kind_of(error: Error) -> ErrorKind {
    match error {
        Error::Decode(_) => ErrorKind::Decode,
        Error::UnsupportedFormat(_) => ErrorKind::UnsupportedFormat,
        Error::InvalidDimensions(_) => ErrorKind::InvalidDimensions,
        Error::InvalidBufferLength { .. } => ErrorKind::InvalidBufferLength,
        Error::InvalidOptions(_) => ErrorKind::InvalidOptions,
        Error::Io(_) => ErrorKind::Io,
    }
}

/// The tag of a kind, as a lowercase identifier.
pub open spec fn kind_name(kind: ErrorKind) -> Seq<char> {
    match kind {
        ErrorKind::Decode => "decode"@,
        ErrorKind::UnsupportedFormat => "unsupported_format"@,
        ErrorKind::InvalidDimensions => "invalid_dimensions"@,
        ErrorKind::InvalidBufferLength => "invalid_buffer_length"@,
        ErrorKind::InvalidOptions => "invalid_options"@,
        ErrorKind::Io => "io"@,
    }
}

impl Error {
    /// A short, stable, machine-readable tag for the error.
    pub fn kind(&self) -> (kind: ErrorKind)
        ensures
            kind == kind_of(*self),
    {
        match self {
            Error::Decode(_) => ErrorKind::Decode,
            Error::UnsupportedFormat(_) => ErrorKind::UnsupportedFormat,
            Error::InvalidDimensions(_) => ErrorKind::InvalidDimensions,
            Error::InvalidBufferLength { .. } => ErrorKind::InvalidBufferLength,
            Error::InvalidOptions(_) => ErrorKind::InvalidOptions,
            Error::Io(_) => ErrorKind::Io,
        }
    }

    /// An [`Error::InvalidDimensions`] carrying `message`.
    pub fn invalid_dimensions(message: String) -> (error: Error)
        ensures
            error == Error::InvalidDimensions(message),
    {
        Error::InvalidDimensions(message)
    }

    /// An [`Error::InvalidOptions`] carrying `message`.
    pub fn invalid_options(message: String) -> (error: Error)
        ensures
            error == Error::InvalidOptions(message),
    {
        Error::InvalidOptions(message)
    }

    /// The human-readable description of the error: a fixed prefix per kind
    /// followed by the payload.
    pub fn message(&self) -> (text: String)
        ensures
            match *self {
                Error::Decode(m) => text@ == "failed to decode image: "@ + m@,
                Error::UnsupportedFormat(m) => text@ == "unsupported image format: "@ + m@,
                Error::InvalidDimensions(m) => text@ == "invalid dimensions: "@ + m@,
                Error::InvalidBufferLength { expected, actual } => text@ == "invalid buffer length: expected "@
                    + crate::text::decimal(expected as nat) + " bytes, got "@ + crate::text::decimal(actual as nat),
                Error::InvalidOptions(m) => text@ == "invalid option: "@ + m@,
                Error::Io(_) => text@.len() >= "i/o error: "@.len()
                    && text@.subrange(0, "i/o error: "@.len() as int) == "i/o error: "@,
            },
    {
        let mut text = String::new();
        match self {
            Error::Decode(m) => {
                text.push_str("failed to decode image: ");
                text.push_str(m.as_str());
            },
            Error::UnsupportedFormat(m) => {
                text.push_str("unsupported image format: ");
                text.push_str(m.as_str());
            },
            Error::InvalidDimensions(m) => {
                text.push_str("invalid dimensions: ");
                text.push_str(m.as_str());
            },
            Error::InvalidBufferLength { expected, actual } => {
                text.push_str("invalid buffer length: expected ");
                push_decimal(&mut text, *expected as u64);
                text.push_str(" bytes, got ");
                push_decimal(&mut text, *actual as u64);
            },
            Error::InvalidOptions(m) => {
                text.push_str("invalid option: ");
                text.push_str(m.as_str());
            },
            Error::Io(e) => {
                text.push_str("i/o error: ");
                let detail = io_error_text(e);
                text.push_str(detail.as_str());
            },
        }
        text
    }
}

impl ErrorKind {
    /// The tag as a lowercase, hyphen-free identifier.
    pub fn as_str(self) -> (name: &'static str)
        ensures
            name@ == kind_name(self),
    {
        match self {
            ErrorKind::Decode => "decode",
            ErrorKind::UnsupportedFormat => "unsupported_format",
            ErrorKind::InvalidDimensions => "invalid_dimensions",
            ErrorKind::InvalidBufferLength => "invalid_buffer_length",
            ErrorKind::InvalidOptions => "invalid_options",
            ErrorKind::Io => "io",
        }
    }
}

impl From<std::io::Error> for Error {
    fn from(error: std::io::Error) -> (converted: Error) {
        Error::Io(error)
    }
}

impl vstd::std_specs::convert::FromSpecImpl<std::io::Error> for Error {
    open spec fn obeys_from_spec() -> bool {
        true
    }

    open spec fn from_spec(v: std::io::Error) -> Error {
        Error::Io(v)
    }
}

/// Convenience alias for results produced by this crate.
pub type Result<T> = core::result::Result<T, Error>;

} // verus!
