//! Contracts for the outside functions that this crate calls: a few
//! standard-library functions that vstd leaves unspecified, and the `image`
//! crate's decoder. Verus takes each of them on trust.

use vstd::prelude::*;

use crate::decode::{DecodeFailure, ImageFailure};

verus! {

/// `char::from_u32`: by its documentation it returns `Some(c)` with
/// `c as u32 == i` exactly when `i` is a Unicode scalar value (not a surrogate
/// and at most `0x10FFFF`), and `None` otherwise.
pub assume_specification[ core::char::from_u32 ](i: u32) -> (c: Option<char>)
    ensures
        (i < 0xD800 || (0xE000 <= i && i <= 0x10FFFF)) <==> c is Some,
        c matches Some(ch) ==> ch as u32 == i,
;


/// `String::push`: appends one character to the end of the string.
pub assume_specification[ String::push ](s: &mut String, ch: char)
    ensures
        final(s)@ == old(s)@.push(ch),
;

/// `String::push_str`: appends the characters of `string` to the end of `s`.
pub assume_specification[ String::push_str ](s: &mut String, string: &str)
    ensures
        final(s)@ == old(s)@ + string@,
;

/// `std::io::Error`, carried through unchanged inside [`crate::Error::Io`].
#[verifier::external_type_specification]
#[verifier::external_body]
pub struct ExIoError(std::io::Error);

/// `<std::io::Error as ToString>::to_string`: the error's display text. The
/// text depends on the operating system's messages, so nothing is claimed
/// about it.
#[verifier::external_body]
pub fn io_error_text(error: &std::io::Error) -> String {
    error.to_string()
}

/// What `<str as Debug>::fmt` writes for a string: the text in double quotes,
/// with quotes, backslashes and non-printable characters escaped.
pub uninterp spec fn debug_text(text: Seq<char>) -> Seq<char>;

/// `format!("{text:?}")`, that is `<str as Debug>::fmt`. The contract claims
/// only that the result depends on the text alone; the escaping rules are
/// not restated.
#[verifier::external_body]
pub fn debug_quoted(text: &str) -> (quoted: String)
    ensures
        quoted@ == debug_text(text@),
{
    format!("{text:?}")
}

/// `image::ImageError`, the error of the `image` crate's decoders.
#[verifier::external_type_specification]
#[verifier::external_body]
pub struct ExImageError(image::ImageError);

/// Whether `image::guess_format` recognises the leading bytes as one of the
/// `image` crate's built-in formats (its fixed table of magic bytes).
pub uninterp spec fn image_format_known(bytes: Seq<u8>) -> bool;

/// The width, height and RGBA8 bytes of the image that the `image` crate's
/// built-in decoders give for `bytes`, the format chosen from the leading
/// magic bytes; `None` when no built-in format matches or decoding fails.
pub uninterp spec fn decoded_image(bytes: Seq<u8>) -> Option<(u32, u32, Seq<u8>)>;

/// Decodes `bytes` with the `image` crate's built-in decoders only:
/// `image::guess_format` (a fixed table of magic bytes), then
/// `ImageReader::with_format` over a `Cursor` and `decode`, then
/// `DynamicImage::to_rgba8` taken apart into width, height and raw bytes.
/// Neither step consults the crate's hook registries (those serve only
/// formats known by extension), and decoding uses the default limits, so the
/// outcome depends on the bytes alone. The contract claims exactly that:
/// success when `decoded_image` has a value, and then that value. When
/// `guess_format` fails, the source shows its error is always
/// `ImageError::Unsupported` for an unknown format, whose display text is
/// "The image format could not be determined"; that text is handed back as
/// `DecodeFailure::UnknownFormat`, and a failure of `decode` as
/// `DecodeFailure::Decoder`.
#[verifier::external_body]
pub fn decode_rgba(bytes: &[u8]) -> (decoded: Result<(u32, u32, Vec<u8>), DecodeFailure>)
    ensures
        decoded is Ok <==> decoded_image(bytes@) is Some,
        decoded matches Ok((w, h, rgba)) ==> decoded_image(bytes@) == Some((w, h, rgba@)),
        (decoded matches Err(DecodeFailure::UnknownFormat(_))) <==> !image_format_known(bytes@),
        decoded matches Err(DecodeFailure::UnknownFormat(m)) ==> m@ == "The image format could not be determined"@,
{
    let format = match image::guess_format(bytes) {
        Ok(format) => format,
        Err(error) => return Err(DecodeFailure::UnknownFormat(error.to_string())),
    };
    let reader = image::ImageReader::with_format(std::io::Cursor::new(bytes), format);
    let rgba = reader.decode().map_err(DecodeFailure::Decoder)?.to_rgba8();
    Ok((rgba.width(), rgba.height(), rgba.into_raw()))
}

/// Takes an `image::ImageError` apart: the `std::io::Error` of
/// `ImageError::IoError`, the display text of `ImageError::Unsupported`, or the
/// display text of any other variant. Verus cannot see which variant an
/// `ImageError` is, so nothing is claimed of the result.
#[verifier::external_body]
pub fn image_error_parts(error: image::ImageError) -> ImageFailure {
    match error {
        image::ImageError::IoError(io) => ImageFailure::Io(io),
        image::ImageError::Unsupported(unsupported) => ImageFailure::Unsupported(unsupported.to_string()),
        other => ImageFailure::Other(other.to_string()),
    }
}

} // verus!
