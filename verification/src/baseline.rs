//! The baseline interpreter's setup: which point of the plane each pixel samples. (The
//! interpretation itself computes in floating point.)
use vstd::prelude::*;

verus! {

/// Baseline interpreter; given an image size (in pixels per side), it interprets the
/// expressions of a program for each pixel in turn.
pub struct Baseline(pub u16);

/// The column and row of the `i`-th pixel of a square image of `image_size` pixels per side,
/// the pixels taken row by row.
pub fn pixel_at(image_size: u16, i: usize) -> (r: (usize, usize))
    requires
        i < image_size * image_size,
    ensures
        r.0 == (i as int) % (image_size as int),
        r.1 == (i as int) / (image_size as int),
        r.0 < image_size,
        r.1 < image_size,
{
    let n = image_size as usize;
    proof {
        assert((i as int) / (n as int) < n as int) by (nonlinear_arith)
            requires
                0 <= i < n * n,
        ;
    }
    (i % n, i / n)
}

/// The number of pixels per unit of the sampled square `[-1, 1]²`: half the image size,
/// rounded down.
pub fn half_size(image_size: u16) -> (h: u16)
    ensures
        h == image_size / 2,
{
    image_size / 2
}

/// The number of pixels of a square image of `image_size` pixels per side.
pub fn pixel_count(image_size: u16) -> (n: usize)
    ensures
        n == image_size * image_size,
{
    proof {
        assert(image_size * image_size <= 0xffff * 0xffff) by (nonlinear_arith)
            requires
                image_size <= 0xffff,
        ;
    }
    (image_size as usize) * (image_size as usize)
}

} // verus!
