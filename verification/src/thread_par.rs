//! The thread-based parallel interpreter's setup: it samples the pixels as the baseline one
//! does, spread over threads.
use vstd::prelude::*;

verus! {

/// Thread-based parallel interpreter; given an image size (in pixels per side), it interprets
/// the expressions of a program for the pixels in parallel.
pub struct ThreadParallel(pub u16);

} // verus!
