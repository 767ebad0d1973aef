//! The combination of the SIMD- and thread-based parallel interpreters: chunks of lanes, as
//! [`crate::simd_par`] samples them, spread over threads.
use vstd::prelude::*;

verus! {

/// Combination of SIMD- and thread-based parallel interpreter; given an image size (in pixels
/// per side), it interprets the expressions of a program for chunks of pixels in parallel.
pub struct ComboParallel(pub u16);

} // verus!
