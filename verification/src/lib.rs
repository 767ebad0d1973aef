//! Rendering programs of the Prospero challenge: parsing them, packing their expressions, and
//! shrinking them before they are interpreted.
pub mod baseline;
pub mod combo_par;
pub mod expr;
pub mod text;
pub mod roundtrip;
pub mod reuse;
pub mod simd_par;
pub mod thread_par;
pub mod unused;
pub mod options;
pub mod reclaim;
pub mod utils;
