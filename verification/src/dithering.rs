//! Error-diffusion kernels.
//!
//! Dithering happens on the dot grid, before dots are packed into Braille
//! cells. An algorithm is described by an [`ErrorDiffusionKernel`]: adding
//! Atkinson, Sierra or Stucki is a matter of adding a constant.

use vstd::prelude::*;

verus! {

/// One neighbour that receives part of the quantization error.
#[derive(Debug, Clone, Copy, PartialEq, Eq, Structural)]
pub struct DiffusionTap {
    /// Horizontal offset from the pixel being quantized.
    pub dx: i32,
    /// Vertical offset from the pixel being quantized (never negative).
    pub dy: i32,
    /// Weight of the neighbour; divided by [`ErrorDiffusionKernel::divisor`].
    pub weight: u32,
}

/// An error-diffusion kernel with `N` taps, scanned in plain raster order.
#[derive(Debug, Clone, Copy, PartialEq, Eq)]
pub struct ErrorDiffusionKernel<const N: usize> {
    /// Neighbours the error is spread over.
    pub taps: [DiffusionTap; N],
    /// Sum of the weights.
    pub divisor: u32,
}

/// The Floyd–Steinberg kernel:
///
/// ```text
///          *   7/16
///  3/16  5/16  1/16
/// ```
pub open spec fn floyd_steinberg_kernel() -> ErrorDiffusionKernel<4> {
    ErrorDiffusionKernel {
        taps: [
            DiffusionTap { dx: 1, dy: 0, weight: 7 },
            DiffusionTap { dx: -1i32, dy: 1, weight: 3 },
            DiffusionTap { dx: 0, dy: 1, weight: 5 },
            DiffusionTap { dx: 1, dy: 1, weight: 1 },
        ],
        divisor: 16,
    }
}

/// The Floyd–Steinberg kernel.
pub fn floyd_steinberg() -> (kernel: ErrorDiffusionKernel<4>)
    ensures
        kernel == floyd_steinberg_kernel(),
{
    ErrorDiffusionKernel {
        taps: [
            DiffusionTap { dx: 1, dy: 0, weight: 7 },
            DiffusionTap { dx: -1, dy: 1, weight: 3 },
            DiffusionTap { dx: 0, dy: 1, weight: 5 },
            DiffusionTap { dx: 1, dy: 1, weight: 1 },
        ],
        divisor: 16,
    }
}

/// A tap lies ahead of the current pixel in raster order, so its share of the
/// error lands on a pixel that has not been quantized yet.
pub open spec fn tap_is_ahead(tap: DiffusionTap) -> bool {
    tap.dy > 0 || (tap.dy == 0 && tap.dx > 0)
}

/// The Floyd–Steinberg weights add up to the divisor, so the whole error is
/// spread and none is created; every tap points below or to the right of the
/// current pixel, never above.
pub proof fn lemma_floyd_steinberg_kernel()
    ensures
        floyd_steinberg_kernel().taps[0].weight + floyd_steinberg_kernel().taps[1].weight + floyd_steinberg_kernel().taps[2].weight
            + floyd_steinberg_kernel().taps[3].weight == floyd_steinberg_kernel().divisor,
        forall|i: int| 0 <= i < 4 ==> #[trigger] floyd_steinberg_kernel().taps[i].dy >= 0 && tap_is_ahead(floyd_steinberg_kernel().taps[i]),
{
}

} // verus!
