//! Error-diffusion kernels.

use rustille::dithering::floyd_steinberg;

#[test]
fn kernel_weights_sum_to_divisor() {
    let kernel = floyd_steinberg();
    let total: u32 = kernel.taps.iter().map(|t| t.weight).sum();
    assert_eq!(total, kernel.divisor);
    assert!(kernel.taps.iter().all(|t| t.dy >= 0));
}

#[test]
fn floyd_steinberg_has_the_classic_taps() {
    let kernel = floyd_steinberg();
    let taps: Vec<(i32, i32, u32)> = kernel.taps.iter().map(|t| (t.dx, t.dy, t.weight)).collect();
    assert_eq!(taps, vec![(1, 0, 7), (-1, 1, 3), (0, 1, 5), (1, 1, 1)]);
    assert_eq!(kernel.divisor, 16);
}
