//! Pixel buffers: validation, alpha compositing, channel expansion, cropping.
//!
//! The renderer works on an opaque, tightly packed 8-bit RGB [`Surface`].

use vstd::prelude::*;

use crate::error::Error;
use crate::text::{decimal, push_decimal};

verus! {

/// Bytes per pixel in an RGBA buffer.
pub const RGBA_CHANNELS: usize = 4;

/// Bytes per pixel in an RGB buffer.
pub const RGB_CHANNELS: usize = 3;

/// Source channel `source` with opacity `alpha` over background channel
/// `under`: the blend `(source·alpha + under·(255 − alpha)) / 255`, rounded to
/// nearest.
pub open spec fn composite(source: u8, alpha: u8, under: u8) -> int {
    (source * alpha + under * (255 - alpha) + 127) / 255
}

/// A fully opaque pixel keeps its colour and a fully transparent one shows the
/// background: the shortcuts taken for those alphas agree with the blend.
pub proof fn lemma_composite_extremes(source: u8, under: u8)
    ensures
        composite(source, 255, under) == source,
        composite(source, 0, under) == under,
{
    assert((source * 255 + under * 0 + 127) / 255 == source) by (nonlinear_arith);
    assert((source * 0 + under * 255 + 127) / 255 == under) by (nonlinear_arith);
}

/// A blended channel stays within the byte range.
proof fn lemma_composite_range(source: u8, alpha: u8, under: u8)
    ensures
        0 <= composite(source, alpha, under) <= 255,
        source * alpha + under * (255 - alpha) + 127 <= 65152,
{
    assert(0 <= source * alpha + under * (255 - alpha) <= 65025) by (nonlinear_arith)
        requires source <= 255, alpha <= 255, under <= 255;
}

/// An opaque, tightly packed 8-bit RGB image.
#[derive(Debug, Clone, PartialEq, Eq)]
pub struct Surface {
    width: u32,
    height: u32,
    data: Vec<u8>,
}

/// Whether `width`×`height` pixels of `channels` bytes can be held.
pub open spec fn buffer_fits(width: u32, height: u32, channels: int) -> bool {
    width * height * channels <= usize::MAX
}

/// The message for an image size that cannot be held: a zero side, or a
/// pixel count beyond `usize`.
pub open spec fn pixel_count_message(width: u32, height: u32) -> Seq<char> {
    if width == 0 || height == 0 {
        "image dimensions must be non-zero, got "@ + decimal(width as nat) + seq!['x'] + decimal(height as nat)
    } else {
        decimal(width as nat) + seq!['x'] + decimal(height as nat) + " pixels is too large"@
    }
}

/// The error for a buffer of `pixels * channels` bytes that `data` should
/// have held: the size overflowing `usize`, or the lengths differing.
pub open spec fn buffer_error(data_len: nat, pixels: int, channels: int, error: Error) -> bool {
    if pixels * channels > usize::MAX {
        error matches Error::InvalidDimensions(m) && m@ == "pixel buffer size overflows"@
    } else {
        error == (Error::InvalidBufferLength { expected: (pixels * channels) as usize, actual: data_len as usize })
    }
}

impl Surface {
    /// Width in pixels.
    pub closed spec fn spec_width(&self) -> nat {
        self.width as nat
    }

    /// Height in pixels.
    pub closed spec fn spec_height(&self) -> nat {
        self.height as nat
    }

    /// The RGB bytes, row-major.
    pub closed spec fn spec_data(&self) -> Seq<u8> {
        self.data@
    }

    /// A non-empty image whose buffer holds exactly three bytes per pixel.
    pub closed spec fn wf(&self) -> bool {
        &&& self.width >= 1
        &&& self.height >= 1
        &&& self.data@.len() == self.width * self.height * 3
    }

    /// The shape of a well-formed surface.
    pub proof fn lemma_wf_shape(&self)
        requires
            self.wf(),
        ensures
            self.spec_width() >= 1,
            self.spec_height() >= 1,
            self.spec_data().len() == self.spec_width() * self.spec_height() * 3,
    {
    }

    /// Width in pixels.
    pub fn width(&self) -> (w: u32)
        ensures
            w == self.spec_width(),
    {
        self.width
    }

    /// Height in pixels.
    pub fn height(&self) -> (h: u32)
        ensures
            h == self.spec_height(),
    {
        self.height
    }

    /// The RGB bytes, row-major.
    pub fn data(&self) -> (data: &[u8])
        ensures
            data@ == self.spec_data(),
    {
        self.data.as_slice()
    }

    /// Checks dimensions and returns the pixel count.
    ///
    /// # Errors
    ///
    /// [`Error::InvalidDimensions`] when a side is zero or the pixel count does
    /// not fit in a `usize`.
    pub fn checked_pixels(width: u32, height: u32) -> (pixels: Result<usize, Error>)
        ensures
            pixels is Ok <==> (width >= 1 && height >= 1 && width * height <= usize::MAX),
            pixels matches Ok(n) ==> n == width * height,
            pixels matches Err(e) ==> e matches Error::InvalidDimensions(m) && m@ == pixel_count_message(width, height),
    {
        if width == 0 || height == 0 {
            let mut message = String::new();
            message.push_str("image dimensions must be non-zero, got ");
            push_decimal(&mut message, width as u64);
            message.push('x');
            push_decimal(&mut message, height as u64);
            assert(message@ =~= pixel_count_message(width, height));
            return Err(Error::invalid_dimensions(message));
        }
        assert(width * height <= 0xFFFF_FFFFu64 * 0xFFFF_FFFFu64) by (nonlinear_arith)
            requires width <= 0xFFFF_FFFFu64, height <= 0xFFFF_FFFFu64;
        let count: u64 = width as u64 * height as u64;
        if count > usize::MAX as u64 {
            let mut message = String::new();
            push_decimal(&mut message, width as u64);
            message.push('x');
            push_decimal(&mut message, height as u64);
            message.push_str(" pixels is too large");
            assert(message@ =~= pixel_count_message(width, height));
            return Err(Error::invalid_dimensions(message));
        }
        Ok(count as usize)
    }

    /// Checks that `data` holds exactly `pixels * channels` bytes.
    ///
    /// # Errors
    ///
    /// [`Error::InvalidDimensions`] if the expected size overflows, and
    /// [`Error::InvalidBufferLength`] if the length differs.
    pub fn expect_len(data: &[u8], pixels: usize, channels: usize) -> (checked: Result<(), Error>)
        ensures
            checked is Ok <==> data@.len() == pixels * channels,
            checked matches Err(e) ==> buffer_error(data@.len(), pixels as int, channels as int, e),
    {
        let actual = data.len();
        match pixels.checked_mul(channels) {
            None => {
                let mut message = String::new();
                message.push_str("pixel buffer size overflows");
                assert(message@ =~= "pixel buffer size overflows"@);
                Err(Error::invalid_dimensions(message))
            },
            Some(expected) => {
                if actual != expected {
                    return Err(Error::InvalidBufferLength { expected, actual });
                }
                Ok(())
            },
        }
    }
}

/// The RGB bytes of an RGBA buffer composited over `background`.
pub open spec fn composited(data: Seq<u8>, background: [u8; 3], pixels: int) -> Seq<u8> {
    Seq::new((pixels * 3) as nat, |i: int| composite(data[(i / 3) * 4 + i % 3], data[(i / 3) * 4 + 3], background[i % 3]) as u8)
}

/// Composited pixels, channel by channel: channel `c` of pixel `p` blends
/// channel `c` of the source pixel with channel `c` of the background, so it
/// lies between the two; a fully transparent pixel shows the background and a
/// fully opaque one keeps its own colour.
pub proof fn lemma_composited_pixels(data: Seq<u8>, background: [u8; 3], pixels: int)
    requires
        0 <= pixels,
    ensures
        composited(data, background, pixels).len() == 3 * pixels,
        forall|p: int, c: int| 0 <= p < pixels && 0 <= c < 3 ==> {
            let out = #[trigger] composited(data, background, pixels)[3 * p + c];
            let (source, alpha, under) = (data[4 * p + c], data[4 * p + 3], background[c]);
            &&& (alpha == 0 ==> out == under)
            &&& (alpha == 255 ==> out == source)
            &&& (source <= under ==> source <= out <= under)
            &&& (under <= source ==> under <= out <= source)
        },
{
    assert forall|p: int, c: int| 0 <= p < pixels && 0 <= c < 3 implies {
        let out = #[trigger] composited(data, background, pixels)[3 * p + c];
        let (source, alpha, under) = (data[4 * p + c], data[4 * p + 3], background[c]);
        &&& (alpha == 0 ==> out == under)
        &&& (alpha == 255 ==> out == source)
        &&& (source <= under ==> source <= out <= under)
        &&& (under <= source ==> under <= out <= source)
    } by {
        let i = 3 * p + c;
        assert(i / 3 == p && i % 3 == c);
        assert((i / 3) * 4 + i % 3 == 4 * p + c);
        let (source, alpha, under) = (data[4 * p + c], data[4 * p + 3], background[c]);
        lemma_composite_range(source, alpha, under);
        lemma_composite_extremes(source, under);
        lemma_composite_between(source, alpha, under);
        assert(composited(data, background, pixels)[i] == composite(source, alpha, under) as u8);
    }
}

/// A blend lies between its two ends.
proof fn lemma_composite_between(source: u8, alpha: u8, under: u8)
    ensures
        source <= under ==> source <= composite(source, alpha, under) <= under,
        under <= source ==> under <= composite(source, alpha, under) <= source,
{
    let x = source * alpha + under * (255 - alpha);
    assert(source <= under ==> 255 * source <= x <= 255 * under) by (nonlinear_arith)
        requires x == source * alpha + under * (255 - alpha), alpha <= 255;
    assert(under <= source ==> 255 * under <= x <= 255 * source) by (nonlinear_arith)
        requires x == source * alpha + under * (255 - alpha), alpha <= 255;
    let out = (x + 127) / 255;
    assert(source <= under ==> source <= out <= under) by (nonlinear_arith)
        requires out == (x + 127) / 255, source <= under ==> 255 * source <= x <= 255 * under;
    assert(under <= source ==> under <= out <= source) by (nonlinear_arith)
        requires out == (x + 127) / 255, under <= source ==> 255 * under <= x <= 255 * source;
}

/// The RGB bytes of a grayscale buffer: each value repeated three times.
pub open spec fn expanded(data: Seq<u8>) -> Seq<u8> {
    Seq::new(data.len() * 3, |i: int| data[i / 3])
}

impl Surface {
    /// Composites a tightly packed RGBA buffer over `background`.
    ///
    /// # Errors
    ///
    /// [`Error::InvalidDimensions`] for a zero side or an unrepresentable size,
    /// [`Error::InvalidBufferLength`] when `data` is not `width * height * 4`
    /// bytes long.
    pub fn from_rgba(width: u32, height: u32, data: &[u8], background: [u8; 3]) -> (surface: Result<Surface, Error>)
        ensures
            surface is Ok <==> (width >= 1 && height >= 1 && data@.len() == width * height * 4),
            surface matches Ok(s) ==> {
                &&& s.wf()
                &&& s.spec_width() == width
                &&& s.spec_height() == height
                &&& s.spec_data() == composited(data@, background, width * height)
            },
            surface matches Err(e) ==> (if width == 0 || height == 0 || width * height > usize::MAX {
                e matches Error::InvalidDimensions(m) && m@ == pixel_count_message(width, height)
            } else {
                buffer_error(data@.len(), width * height, 4, e)
            }),
    {
        let length = data.len();
        let pixels = match Surface::checked_pixels(width, height) {
            Ok(n) => n,
            Err(e) => return Err(e),
        };
        match Surface::expect_len(data, pixels, RGBA_CHANNELS) {
            Ok(()) => {},
            Err(e) => return Err(e),
        }
        let mut out: Vec<u8> = vec![0u8; pixels * RGB_CHANNELS];
        let mut pixel: usize = 0;
        while pixel < pixels
            invariant
                pixel <= pixels,
                pixels == width * height,
                data@.len() == pixels * 4,
                pixels * 4 <= usize::MAX,
                out@.len() == pixels * 3,
                forall|i: int| 0 <= i < pixel * 3 ==> #[trigger] out@[i]
                    == composite(data@[(i / 3) * 4 + i % 3], data@[(i / 3) * 4 + 3], background[i % 3]) as u8,
            decreases pixels - pixel,
        {
            let base: usize = pixel * RGB_CHANNELS;
            let source: usize = pixel * RGBA_CHANNELS;
            let alpha: u8 = data[source + 3];
            let ghost before = out@;
            let mut channel: usize = 0;
            while channel < RGB_CHANNELS
                invariant
                    channel <= 3,
                    pixel < pixels,
                    base == pixel * 3,
                    source == pixel * 4,
                    alpha == data@[source + 3],
                    pixels == width * height,
                    data@.len() == pixels * 4,
                    out@.len() == pixels * 3,
                    forall|i: int| 0 <= i < base + channel ==> #[trigger] out@[i]
                        == composite(data@[(i / 3) * 4 + i % 3], data@[(i / 3) * 4 + 3], background[i % 3]) as u8,
                decreases 3 - channel,
            {
                let value: u8 = data[source + channel];
                let under: u8 = background[channel];
                proof {
                    lemma_composite_range(value, alpha, under);
                    lemma_composite_extremes(value, under);
                }
                let blended: u8 = if alpha == 255 {
                    value
                } else if alpha == 0 {
                    under
                } else {
                    let inverse: u32 = 255 - alpha as u32;
                    let total: u32 = value as u32 * alpha as u32 + under as u32 * inverse + 127;
                    (total / 255) as u8
                };
                out.set(base + channel, blended);
                assert(((base + channel) as int) / 3 == pixel && ((base + channel) as int) % 3 == channel);
                channel = channel + 1;
            }
            pixel = pixel + 1;
        }
        assert(out@ =~= composited(data@, background, width * height));
        Ok(Surface { width, height, data: out })
    }

    /// Wraps an already-opaque, tightly packed RGB buffer.
    ///
    /// # Errors
    ///
    /// As [`Surface::from_rgba`], with three bytes per pixel.
    pub fn from_rgb(width: u32, height: u32, data: &[u8]) -> (surface: Result<Surface, Error>)
        ensures
            surface is Ok <==> (width >= 1 && height >= 1 && data@.len() == width * height * 3),
            surface matches Ok(s) ==> {
                &&& s.wf()
                &&& s.spec_width() == width
                &&& s.spec_height() == height
                &&& s.spec_data() == data@
            },
            surface matches Err(e) ==> (if width == 0 || height == 0 || width * height > usize::MAX {
                e matches Error::InvalidDimensions(m) && m@ == pixel_count_message(width, height)
            } else {
                buffer_error(data@.len(), width * height, 3, e)
            }),
    {
        let length = data.len();
        let pixels = match Surface::checked_pixels(width, height) {
            Ok(n) => n,
            Err(e) => return Err(e),
        };
        match Surface::expect_len(data, pixels, RGB_CHANNELS) {
            Ok(()) => {},
            Err(e) => return Err(e),
        }
        let copy = vstd::slice::slice_to_vec(data);
        Ok(Surface { width, height, data: copy })
    }

    /// Expands an 8-bit grayscale buffer to RGB.
    ///
    /// # Errors
    ///
    /// As [`Surface::from_rgba`], with one byte per pixel.
    pub fn from_luma(width: u32, height: u32, data: &[u8]) -> (surface: Result<Surface, Error>)
        ensures
            surface is Ok <==> (width >= 1 && height >= 1 && data@.len() == width * height
                && width * height * 3 <= usize::MAX),
            surface matches Ok(s) ==> {
                &&& s.wf()
                &&& s.spec_width() == width
                &&& s.spec_height() == height
                &&& s.spec_data() == expanded(data@)
            },
            surface matches Err(e) ==> (if width == 0 || height == 0 || width * height > usize::MAX {
                e matches Error::InvalidDimensions(m) && m@ == pixel_count_message(width, height)
            } else if data@.len() != width * height {
                buffer_error(data@.len(), width * height, 1, e)
            } else {
                e matches Error::InvalidDimensions(m) && m@ == "pixel buffer size overflows"@
            }),
    {
        let length = data.len();
        let pixels = match Surface::checked_pixels(width, height) {
            Ok(n) => n,
            Err(e) => return Err(e),
        };
        match Surface::expect_len(data, pixels, 1) {
            Ok(()) => {},
            Err(e) => return Err(e),
        }
        if pixels.checked_mul(RGB_CHANNELS).is_none() {
            let mut message = String::new();
            message.push_str("pixel buffer size overflows");
            assert(message@ =~= "pixel buffer size overflows"@);
            return Err(Error::invalid_dimensions(message));
        }
        let mut out: Vec<u8> = Vec::new();
        let mut pixel: usize = 0;
        while pixel < pixels
            invariant
                pixel <= pixels,
                pixels == width * height,
                data@.len() == pixels,
                pixels * 3 <= usize::MAX,
                out@ == expanded(data@.take(pixel as int)),
            decreases pixels - pixel,
        {
            let value = data[pixel];
            out.push(value);
            out.push(value);
            out.push(value);
            assert(out@ =~= expanded(data@.take(pixel as int + 1)));
            pixel = pixel + 1;
        }
        assert(data@.take(pixels as int) =~= data@);
        Ok(Surface { width, height, data: out })
    }
}


/// The first `rows` rows of the `width`-pixel-wide window at column `x`,
/// row `y` of an RGB image `stride` pixels wide, concatenated.
pub open spec fn window_rows(data: Seq<u8>, stride: int, x: int, y: int, width: int, rows: int) -> Seq<u8>
    decreases rows,
{
    if rows <= 0 {
        seq![]
    } else {
        let start = ((y + rows - 1) * stride + x) * 3;
        window_rows(data, stride, x, y, width, rows - 1) + data.subrange(start, start + width * 3)
    }
}

/// The window `crop(x, y, width, height)` selects: its origin is clamped into
/// the image and its size to what remains, but never below one pixel.
pub open spec fn crop_window(image_width: int, image_height: int, x: int, y: int, width: int, height: int) -> (int, int, int, int) {
    let cx = if x < image_width - 1 { x } else { image_width - 1 };
    let cy = if y < image_height - 1 { y } else { image_height - 1 };
    let cw = if width < image_width - cx { width } else { image_width - cx };
    let ch = if height < image_height - cy { height } else { image_height - cy };
    (cx, cy, if cw < 1 { 1 } else { cw }, if ch < 1 { 1 } else { ch })
}

impl Surface {
    /// Returns the sub-image at `(x, y)` of size `width`×`height`, with the
    /// rectangle clamped to the surface.
    pub fn crop(&self, x: u32, y: u32, width: u32, height: u32) -> (cropped: Surface)
        requires
            self.wf(),
        ensures
            cropped.wf(),
            ({
                let (cx, cy, cw, ch) = crop_window(
                    self.spec_width() as int, self.spec_height() as int, x as int, y as int, width as int, height as int);
                &&& cropped.spec_width() == cw
                &&& cropped.spec_height() == ch
                &&& cropped.spec_data() == window_rows(self.spec_data(), self.spec_width() as int, cx, cy, cw, ch)
            }),
    {
        let x: u32 = if x < self.width - 1 { x } else { self.width - 1 };
        let y: u32 = if y < self.height - 1 { y } else { self.height - 1 };
        let width: u32 = if width < self.width - x { width } else { self.width - x };
        let width: u32 = if width < 1 { 1 } else { width };
        let height: u32 = if height < self.height - y { height } else { self.height - y };
        let height: u32 = if height < 1 { 1 } else { height };
        let stride = self.width;
        let total = self.data.len();
        let mut data: Vec<u8> = Vec::new();
        let mut row: u32 = 0;
        while row < height
            invariant
                row <= height,
                1 <= width,
                x + width <= stride,
                y + height <= self.height,
                stride == self.width,
                self.wf(),
                total == self.data@.len(),
                data@ == window_rows(self.data@, stride as int, x as int, y as int, width as int, row as int),
                data@.len() == row * width * 3,
            decreases height - row,
        {
            assert(((y + row) * stride + x + width) * 3 <= stride * self.height * 3) by (nonlinear_arith)
                requires y + row < self.height, x + width <= stride;
            let start: usize = ((y + row) as usize * stride as usize + x as usize) * RGB_CHANNELS;
            let end: usize = start + width as usize * RGB_CHANNELS;
            let ghost before = data@;
            let mut index: usize = start;
            while index < end
                invariant
                    start <= index <= end,
                    end <= total,
                    total == self.data@.len(),
                    data@ == before + self.data@.subrange(start as int, index as int),
                decreases end - index,
            {
                data.push(self.data[index]);
                assert(self.data@.subrange(start as int, index as int + 1)
                    =~= self.data@.subrange(start as int, index as int).push(self.data@[index as int]));
                index = index + 1;
            }
            assert(data@.len() == (row + 1) * width * 3) by (nonlinear_arith)
                requires data@.len() == row * width * 3 + width * 3;
            row = row + 1;
        }
        assert(data@.len() == width * height * 3) by (nonlinear_arith)
            requires data@.len() == row * width * 3, row == height;
        Surface { width, height, data }
    }
}
} // verus!
