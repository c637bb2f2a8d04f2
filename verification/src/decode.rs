//! Decoding encoded images (PNG, JPEG, WebP, BMP, GIF, TIFF) into RGBA bytes.

use vstd::prelude::*;

use crate::error::Error;
use crate::trusted::{decode_rgba, decoded_image, image_error_parts, image_format_known};

verus! {

/// A decoded image: width, height and tightly packed RGBA bytes.
#[derive(Debug)]
pub struct Decoded {
    /// Width in pixels.
    pub width: u32,
    /// Height in pixels.
    pub height: u32,
    /// RGBA bytes, row-major.
    pub rgba: Vec<u8>,
}

/// Why the decoder gave up, in the library's terms.
#[derive(Debug)]
pub enum ImageFailure {
    /// Reading the bytes failed.
    Io(std::io::Error),
    /// The format is recognised but not supported (or not recognised at all),
    /// with the decoder's description.
    Unsupported(String),
    /// Any other decoding failure, with the decoder's description.
    Other(String),
}

/// How decoding failed, before it becomes a crate error.
#[derive(Debug)]
pub enum DecodeFailure {
    /// No built-in format matches the leading bytes; the decoder's message.
    UnknownFormat(String),
    /// The decoder of the recognised format failed.
    Decoder(image::ImageError),
}

/// The crate error for a decoding failure: I/O errors stay I/O errors,
/// unsupported formats become [`Error::UnsupportedFormat`], and everything
/// else becomes [`Error::Decode`].
pub fn error_from_failure(failure: ImageFailure) -> (error: Error)
    ensures
        match failure {
            ImageFailure::Io(io) => error == Error::Io(io),
            ImageFailure::Unsupported(message) => error == Error::UnsupportedFormat(message),
            ImageFailure::Other(message) => error == Error::Decode(message),
        },
{
    match failure {
        ImageFailure::Io(io) => Error::Io(io),
        ImageFailure::Unsupported(message) => Error::UnsupportedFormat(message),
        ImageFailure::Other(message) => Error::Decode(message),
    }
}

/// Decodes an image from memory, sniffing the format from its magic bytes.
///
/// Succeeds exactly when the decoder does, with the decoder's width, height
/// and RGBA bytes. Bytes that match no built-in format give
/// [`Error::UnsupportedFormat`]; any other failure is an I/O,
/// unsupported-format or decode error.
pub fn from_bytes(bytes: &[u8]) -> (decoded: Result<Decoded, Error>)
    ensures
        decoded is Ok <==> decoded_image(bytes@) is Some,
        match decoded {
            Ok(image) => decoded_image(bytes@) == Some((image.width, image.height, image.rgba@)),
            Err(error) => error is Io || error is UnsupportedFormat || error is Decode,
        },
        !image_format_known(bytes@) ==> (decoded matches Err(error) && error matches Error::UnsupportedFormat(m)
            && m@ == "The image format could not be determined"@),
{
    match decode_rgba(bytes) {
        Ok((width, height, rgba)) => Ok(Decoded { width, height, rgba }),
        Err(DecodeFailure::UnknownFormat(message)) => Err(Error::UnsupportedFormat(message)),
        Err(DecodeFailure::Decoder(error)) => {
            let failure = image_error_parts(error);
            Err(error_from_failure(failure))
        },
    }
}

} // verus!
