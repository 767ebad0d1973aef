//! The renderer's options: the image sizes it offers and the translations it applies.
use vstd::prelude::*;
use crate::expr::{well_formed, Expr};
use crate::reuse::{lemma_reuse_shortens, spec_reuse, Error, Reuse};
use crate::unused::{lemma_unused_preserves_result, spec_unused, Unused};

verus! {

/// Pixel size to render.
#[derive(Clone, Copy, PartialEq, Eq, Structural, Debug)]
pub enum Pixels {
    /// 256 pixels
    Small,
    /// 1024 pixels
    Normal,
    /// 4096 pixels
    Big,
}

/// The number of pixels per side of each size.
pub open spec fn pixels_side(p: Pixels) -> u16 {
    match p {
        Pixels::Small => 256,
        Pixels::Normal => 1024,
        Pixels::Big => 4096,
    }
}

impl From<Pixels> for u16 {
    fn from(p: Pixels) -> (r: u16) {
        match p {
            Pixels::Small => 256,
            Pixels::Normal => 1024,
            Pixels::Big => 4096,
        }
    }
}

impl vstd::std_specs::convert::FromSpecImpl<Pixels> for u16 {
    open spec fn obeys_from_spec() -> bool {
        true
    }

    open spec fn from_spec(p: Pixels) -> u16 {
        pixels_side(p)
    }
}

/// Which translation to use.
#[derive(Clone, Copy, PartialEq, Eq, Structural, Debug)]
pub enum Translation {
    Reuse,
    Unused,
}

/// What applying the translations `steps` to `xs`, in order, gives: the first error stops
/// them.
pub open spec fn spec_translate_all(xs: Seq<Expr>, steps: Seq<Translation>) -> Result<
    Seq<Expr>,
    Error,
>
    decreases steps.len(),
{
    if steps.len() == 0 {
        Ok(xs)
    } else {
        match spec_translate_all(xs, steps.drop_last()) {
            Err(e) => Err(e),
            Ok(ys) => match steps.last() {
                Translation::Reuse => spec_reuse(ys),
                Translation::Unused => Ok(spec_unused(ys)),
            },
        }
    }
}

/// Apply the translations `steps` to `exprs` (whose expressions read only earlier ones), in
/// order, stopping at the first error. What each gives reads only earlier expressions again,
/// so the next one can take it.
pub fn translate_all(exprs: Vec<Expr>, steps: &[Translation]) -> (r: Result<Vec<Expr>, Error>)
    requires
        well_formed(exprs@),
    ensures
        match (r, spec_translate_all(exprs@, steps@)) {
            (Ok(v), Ok(s)) => v@ == s,
            (Err(e), Err(s)) => e == s,
            _ => false,
        },
{
    let ghost xs = exprs@;
    let mut cur = exprs;
    let mut i: usize = 0;
    proof {
        assert(steps@.take(0) =~= Seq::<Translation>::empty());
    }
    while i < steps.len()
        invariant
            i <= steps@.len(),
            xs == exprs@,
            well_formed(cur@),
            spec_translate_all(xs, steps@.take(i as int)) == Ok::<Seq<Expr>, Error>(cur@),
        decreases steps@.len() - i,
    {
        proof {
            assert(steps@.take(i + 1).drop_last() =~= steps@.take(i as int));
            assert(steps@.take(i + 1).last() == steps@[i as int]);
        }
        match steps[i] {
            Translation::Reuse => {
                match Reuse.translate(cur) {
                    Ok(v) => {
                        proof {
                            lemma_reuse_shortens(cur@);
                        }
                        cur = v;
                    },
                    Err(e) => {
                        proof {
                            assert(spec_translate_all(xs, steps@.take(i + 1)) == spec_reuse(cur@));
                            lemma_translate_all_stops(xs, steps@, i as int + 1);
                        }
                        return Err(e);
                    },
                }
            },
            Translation::Unused => {
                let ghost before = cur@;
                cur = Unused.translate(cur);
                proof {
                    if before.len() > 0 {
                        lemma_unused_preserves_result(before);
                    }
                }
            },
        }
        i = i + 1;
    }
    proof {
        assert(steps@.take(i as int) =~= steps@);
    }
    Ok(cur)
}

proof fn lemma_translate_all_stops(xs: Seq<Expr>, steps: Seq<Translation>, m: int)
    requires
        0 <= m <= steps.len(),
        spec_translate_all(xs, steps.take(m)) is Err,
    ensures
        spec_translate_all(xs, steps) == spec_translate_all(xs, steps.take(m)),
    decreases steps.len() - m,
{
    if m < steps.len() {
        assert(steps.take(m + 1).drop_last() =~= steps.take(m));
        lemma_translate_all_stops(xs, steps, m + 1);
    } else {
        assert(steps.take(m) =~= steps);
    }
}

} // verus!
