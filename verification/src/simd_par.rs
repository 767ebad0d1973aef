//! The SIMD-based parallel interpreter's setup: which pixels each chunk of lanes samples.
//! (The interpretation itself computes in floating point.)
use vstd::prelude::*;

verus! {

/// SIMD-based parallel interpreter; given an image size (in pixels per side), it interprets the
/// expressions of a program for a chunk of pixels at once.
pub struct SimdParallel(pub u16);

/// The number of lanes: pixels computed at once.
pub const LANES: usize = 64;

/// The number of whole chunks of [`LANES`] pixels in a square image of `image_size` pixels per
/// side. The pixels after them (fewer than [`LANES`], from [`rest_start`] on) are computed one
/// by one.
pub fn chunk_count(image_size: u16) -> (c: usize)
    ensures
        c == ((image_size * image_size) as int) / (LANES as int),
        c * LANES <= image_size * image_size,
{
    let n = crate::baseline::pixel_count(image_size);
    proof {
        assert(((n as int) / 64) * 64 <= n) by (nonlinear_arith);
    }
    n / LANES
}

/// The index of the pixel that lane `lane` of chunk `chunk` computes.
pub fn lane_pixel(image_size: u16, chunk: usize, lane: usize) -> (i: usize)
    requires
        chunk < ((image_size * image_size) as int) / (LANES as int),
        lane < LANES,
    ensures
        i == chunk * LANES + lane,
        i < image_size * image_size,
{
    proof {
        let n = image_size * image_size;
        assert(chunk * 64 + lane < n) by (nonlinear_arith)
            requires
                chunk < n / 64,
                lane < 64,
                n >= 0,
        ;
        assert(n <= 0xffff * 0xffff) by (nonlinear_arith)
            requires
                image_size <= 0xffff,
                n == image_size * image_size,
        ;
    }
    chunk * LANES + lane
}

/// The index of the first pixel after the whole chunks of [`LANES`] pixels: the pixels from it
/// to the end of the image, fewer than [`LANES`], are computed one by one.
pub fn rest_start(image_size: u16) -> (r: usize)
    ensures
        r == (((image_size * image_size) as int) / (LANES as int)) * LANES,
        r <= image_size * image_size < r + LANES,
{
    let n = crate::baseline::pixel_count(image_size);
    proof {
        assert(((n as int) / 64) * 64 <= n < ((n as int) / 64) * 64 + 64) by (nonlinear_arith);
    }
    (n / LANES) * LANES
}

/// The whole chunks and the pixels after them cover the image, each pixel once: the `i`-th
/// pixel is lane `i % LANES` of chunk `i / LANES` if it comes before [`rest_start`], and no
/// other lane of any chunk is that pixel; otherwise it is one of the pixels after the chunks,
/// and no lane of any chunk is that pixel.
pub proof fn lemma_chunks_cover(image_size: u16, i: int)
    requires
        0 <= i < image_size * image_size,
    ensures
        ({
            let n = (image_size * image_size) as int;
            let rest = (n / (LANES as int)) * LANES;
            &&& rest <= n < rest + LANES
            &&& i < rest ==> i / (LANES as int) < n / (LANES as int) && (i / (LANES as int)) * LANES
                + i % (LANES as int) == i
            &&& forall|c: int, l: int|
                0 <= c && 0 <= l < LANES && #[trigger] (c * LANES + l) == i ==> c == i / (
                LANES as int) && l == i % (LANES as int) && (i < rest <==> c < n / (LANES as int))
        }),
{
    let n = (image_size * image_size) as int;
    assert((n / 64) * 64 <= n < (n / 64) * 64 + 64) by (nonlinear_arith)
        requires
            n >= 0,
    ;
    assert((i / 64) * 64 + i % 64 == i) by (nonlinear_arith)
        requires
            0 <= i,
    ;
    assert(i < (n / 64) * 64 ==> i / 64 < n / 64) by (nonlinear_arith)
        requires
            0 <= i < n,
    ;
    assert forall|c: int, l: int|
        0 <= c && 0 <= l < LANES && #[trigger] (c * LANES + l) == i implies c == i / (LANES as int)
            && l == i % (LANES as int) && (i < (n / (LANES as int)) * LANES <==> c < n / (
        LANES as int)) by {
        assert(c == i / 64 && l == i % 64 && (i < (n / 64) * 64 <==> c < n / 64)) by (nonlinear_arith)
            requires
                0 <= c,
                0 <= l < 64,
                c * 64 + l == i,
                n >= 0,
        ;
    }
}

} // verus!
