//! Status codes and option enums of the C interface, and how library values
//! map onto them.

use vstd::prelude::*;

use crate::error::{Error, ErrorKind};
use crate::options::{ColorMode, Dither, Fit};

verus! {

/// Result of a call through the C interface.
#[derive(Debug, Clone, Copy, PartialEq, Eq, Structural)]
pub enum RustilleStatus {
    /// The call succeeded.
    Success,
    /// A required pointer argument was null.
    NullPointer,
    /// A string argument was not valid UTF-8.
    InvalidUtf8,
    /// An enum field held a value outside its defined range.
    InvalidEnum,
    /// The image data could not be decoded.
    Decode,
    /// The image format is not supported by this build.
    UnsupportedFormat,
    /// A width or height was zero, or the result would be too large.
    InvalidDimensions,
    /// A pixel buffer did not match the declared dimensions.
    InvalidBufferLength,
    /// An option field was out of range.
    InvalidOptions,
    /// Reading or writing failed.
    Io,
    /// A panic was caught at the boundary.
    Panic,
    /// The requested feature was not compiled into this build.
    Unsupported,
}

/// Dithering algorithm, mirroring [`Dither`].
#[derive(Debug, Clone, Copy, PartialEq, Eq, Structural)]
pub enum RustilleDither {
    /// Plain thresholding.
    Plain,
    /// Floyd–Steinberg error diffusion.
    FloydSteinberg,
}

/// Colour mode, mirroring [`ColorMode`].
#[derive(Debug, Clone, Copy, PartialEq, Eq, Structural)]
pub enum RustilleColorMode {
    /// No escape sequences.
    Plain,
    /// 256-colour ANSI foreground.
    Ansi256,
    /// 24-bit ANSI foreground.
    TrueColor,
}

/// Fit mode, mirroring [`Fit`].
#[derive(Debug, Clone, Copy, PartialEq, Eq, Structural)]
pub enum RustilleFit {
    /// Fit inside the box, preserving the aspect ratio.
    Contain,
    /// Cover the box and crop, preserving the aspect ratio.
    Fill,
    /// Use the box exactly.
    Stretch,
}

/// The number a status carries across the C boundary.
pub open spec fn status_code(status: RustilleStatus) -> i32 {
    match status {
        RustilleStatus::Success => 0,
        RustilleStatus::NullPointer => 1,
        RustilleStatus::InvalidUtf8 => 2,
        RustilleStatus::InvalidEnum => 3,
        RustilleStatus::Decode => 4,
        RustilleStatus::UnsupportedFormat => 5,
        RustilleStatus::InvalidDimensions => 6,
        RustilleStatus::InvalidBufferLength => 7,
        RustilleStatus::InvalidOptions => 8,
        RustilleStatus::Io => 9,
        RustilleStatus::Panic => 10,
        RustilleStatus::Unsupported => 11,
    }
}

/// The status reported for an error of the given kind.
pub open spec fn status_of_kind(kind: ErrorKind) -> RustilleStatus {
    match kind {
        ErrorKind::Decode => RustilleStatus::Decode,
        ErrorKind::UnsupportedFormat => RustilleStatus::UnsupportedFormat,
        ErrorKind::InvalidDimensions => RustilleStatus::InvalidDimensions,
        ErrorKind::InvalidBufferLength => RustilleStatus::InvalidBufferLength,
        ErrorKind::InvalidOptions => RustilleStatus::InvalidOptions,
        ErrorKind::Io => RustilleStatus::Io,
    }
}

/// The short description of a status.
pub open spec fn status_text(status: RustilleStatus) -> Seq<char> {
    match status {
        RustilleStatus::Success => "ok"@,
        RustilleStatus::NullPointer => "a required pointer argument was null"@,
        RustilleStatus::InvalidUtf8 => "string argument was not valid UTF-8"@,
        RustilleStatus::InvalidEnum => "enum argument was out of range"@,
        RustilleStatus::Decode => "failed to decode image"@,
        RustilleStatus::UnsupportedFormat => "unsupported image format"@,
        RustilleStatus::InvalidDimensions => "invalid dimensions"@,
        RustilleStatus::InvalidBufferLength => "invalid buffer length"@,
        RustilleStatus::InvalidOptions => "invalid options"@,
        RustilleStatus::Io => "i/o error"@,
        RustilleStatus::Panic => "internal panic"@,
        RustilleStatus::Unsupported => "feature not compiled into this build"@,
    }
}

impl RustilleStatus {
    /// The number this status carries across the C boundary.
    pub fn code(self) -> (code: i32)
        ensures
            code == status_code(self),
    {
        match self {
            RustilleStatus::Success => 0,
            RustilleStatus::NullPointer => 1,
            RustilleStatus::InvalidUtf8 => 2,
            RustilleStatus::InvalidEnum => 3,
            RustilleStatus::Decode => 4,
            RustilleStatus::UnsupportedFormat => 5,
            RustilleStatus::InvalidDimensions => 6,
            RustilleStatus::InvalidBufferLength => 7,
            RustilleStatus::InvalidOptions => 8,
            RustilleStatus::Io => 9,
            RustilleStatus::Panic => 10,
            RustilleStatus::Unsupported => 11,
        }
    }

    /// A short, static description of the status.
    pub fn message(self) -> (text: &'static str)
        ensures
            text@ == status_text(self),
    {
        match self {
            RustilleStatus::Success => "ok",
            RustilleStatus::NullPointer => "a required pointer argument was null",
            RustilleStatus::InvalidUtf8 => "string argument was not valid UTF-8",
            RustilleStatus::InvalidEnum => "enum argument was out of range",
            RustilleStatus::Decode => "failed to decode image",
            RustilleStatus::UnsupportedFormat => "unsupported image format",
            RustilleStatus::InvalidDimensions => "invalid dimensions",
            RustilleStatus::InvalidBufferLength => "invalid buffer length",
            RustilleStatus::InvalidOptions => "invalid options",
            RustilleStatus::Io => "i/o error",
            RustilleStatus::Panic => "internal panic",
            RustilleStatus::Unsupported => "feature not compiled into this build",
        }
    }
}

/// The status reported for a library error: one per error kind.
pub fn status_for(error: &Error) -> (status: RustilleStatus)
    ensures
        status == status_of_kind(crate::error::kind_of(*error)),
{
    match error.kind() {
        ErrorKind::Decode => RustilleStatus::Decode,
        ErrorKind::UnsupportedFormat => RustilleStatus::UnsupportedFormat,
        ErrorKind::InvalidDimensions => RustilleStatus::InvalidDimensions,
        ErrorKind::InvalidBufferLength => RustilleStatus::InvalidBufferLength,
        ErrorKind::InvalidOptions => RustilleStatus::InvalidOptions,
        ErrorKind::Io => RustilleStatus::Io,
    }
}

/// Distinct statuses carry distinct codes, and every library error is
/// reported as a failure, never as success, and with a status of its own kind.
pub proof fn lemma_status_codes_distinct(a: RustilleStatus, b: RustilleStatus, k: ErrorKind, l: ErrorKind)
    ensures
        a != b ==> status_code(a) != status_code(b),
        status_of_kind(k) != RustilleStatus::Success,
        k != l ==> status_of_kind(k) != status_of_kind(l),
{
}

/// The dithering algorithm a C value selects.
pub open spec fn dither_of(value: RustilleDither) -> Dither {
    match value {
        RustilleDither::Plain => Dither::Plain,
        RustilleDither::FloydSteinberg => Dither::FloydSteinberg,
    }
}

/// The colour mode a C value selects.
pub open spec fn color_mode_of(value: RustilleColorMode) -> ColorMode {
    match value {
        RustilleColorMode::Plain => ColorMode::Plain,
        RustilleColorMode::Ansi256 => ColorMode::Ansi256,
        RustilleColorMode::TrueColor => ColorMode::TrueColor,
    }
}

/// The fit mode a C value selects.
pub open spec fn fit_of(value: RustilleFit) -> Fit {
    match value {
        RustilleFit::Contain => Fit::Contain,
        RustilleFit::Fill => Fit::Fill,
        RustilleFit::Stretch => Fit::Stretch,
    }
}

impl RustilleDither {
    /// The number this value carries across the C boundary.
    pub fn code(self) -> (code: u32)
        ensures
            code == (if self is Plain { 0u32 } else { 1u32 }),
    {
        match self {
            RustilleDither::Plain => 0,
            RustilleDither::FloydSteinberg => 1,
        }
    }
}

impl RustilleColorMode {
    /// The number this value carries across the C boundary.
    pub fn code(self) -> (code: u32)
        ensures
            code == match self {
                RustilleColorMode::Plain => 0u32,
                RustilleColorMode::Ansi256 => 1u32,
                RustilleColorMode::TrueColor => 2u32,
            },
    {
        match self {
            RustilleColorMode::Plain => 0,
            RustilleColorMode::Ansi256 => 1,
            RustilleColorMode::TrueColor => 2,
        }
    }
}

impl RustilleFit {
    /// The number this value carries across the C boundary.
    pub fn code(self) -> (code: u32)
        ensures
            code == match self {
                RustilleFit::Contain => 0u32,
                RustilleFit::Fill => 1u32,
                RustilleFit::Stretch => 2u32,
            },
    {
        match self {
            RustilleFit::Contain => 0,
            RustilleFit::Fill => 1,
            RustilleFit::Stretch => 2,
        }
    }
}

impl From<RustilleDither> for Dither {
    fn from(value: RustilleDither) -> (dither: Dither) {
        match value {
            RustilleDither::Plain => Dither::Plain,
            RustilleDither::FloydSteinberg => Dither::FloydSteinberg,
        }
    }
}

impl vstd::std_specs::convert::FromSpecImpl<RustilleDither> for Dither {
    open spec fn obeys_from_spec() -> bool {
        true
    }

    open spec fn from_spec(v: RustilleDither) -> Dither {
        dither_of(v)
    }
}

impl From<RustilleColorMode> for ColorMode {
    fn from(value: RustilleColorMode) -> (mode: ColorMode) {
        match value {
            RustilleColorMode::Plain => ColorMode::Plain,
            RustilleColorMode::Ansi256 => ColorMode::Ansi256,
            RustilleColorMode::TrueColor => ColorMode::TrueColor,
        }
    }
}

impl vstd::std_specs::convert::FromSpecImpl<RustilleColorMode> for ColorMode {
    open spec fn obeys_from_spec() -> bool {
        true
    }

    open spec fn from_spec(v: RustilleColorMode) -> ColorMode {
        color_mode_of(v)
    }
}

impl From<RustilleFit> for Fit {
    fn from(value: RustilleFit) -> (fit: Fit) {
        match value {
            RustilleFit::Contain => Fit::Contain,
            RustilleFit::Fill => Fit::Fill,
            RustilleFit::Stretch => Fit::Stretch,
        }
    }
}

impl vstd::std_specs::convert::FromSpecImpl<RustilleFit> for Fit {
    open spec fn obeys_from_spec() -> bool {
        true
    }

    open spec fn from_spec(v: RustilleFit) -> Fit {
        fit_of(v)
    }
}

} // verus!
