//! Removing unused expressions (A.K.A. dead code elimination).
use vstd::prelude::*;
use crate::expr::{args_before, spec_args, term, well_formed, Expr, Term};


verus! {

/// Just a unit struct, a place to hang the translation.
pub struct Unused;

/// `m` with the expressions that `e` reads marked.
pub open spec fn mark_args(m: Seq<bool>, e: Expr) -> Seq<bool> {
    match e {
        Expr::Dyad(_, x, y) => m.update(x as int, true).update(y as int, true),
        Expr::Monad(_, x) => m.update(x as int, true),
        _ => m,
    }
}

/// The expressions of `xs` that its last one needs, as found walking back from the last one
/// down to the `k`-th: the last is needed, and so is whatever a needed one reads.
pub open spec fn live_from(xs: Seq<Expr>, k: int) -> Seq<bool>
    decreases xs.len() - k,
{
    if k < 0 || k >= xs.len() {
        Seq::new(xs.len(), |i: int| i == xs.len() - 1)
    } else {
        let m = live_from(xs, k + 1);
        if m[k] {
            mark_args(m, xs[k])
        } else {
            m
        }
    }
}

/// The expressions of `xs` that its last one needs.
pub open spec fn live(xs: Seq<Expr>) -> Seq<bool> {
    live_from(xs, 0)
}

/// The number of kept expressions before the `a`-th one: its index once the others are gone.
pub open spec fn rank(keep: Seq<bool>, a: int) -> int
    decreases a,
{
    if a <= 0 {
        0
    } else {
        rank(keep, a - 1) + if keep[a - 1] {
            1int
        } else {
            0int
        }
    }
}

/// `e` with each argument replaced by its index once the unkept expressions are gone.
pub open spec fn renumber(e: Expr, keep: Seq<bool>) -> Expr {
    match e {
        Expr::Dyad(op, x, y) => Expr::Dyad(op, rank(keep, x as int) as u16, rank(keep, y as int) as u16),
        Expr::Monad(op, x) => Expr::Monad(op, rank(keep, x as int) as u16),
        _ => e,
    }
}

/// The kept expressions among the first `n` of `xs`, renumbered.
pub open spec fn kept_prefix(xs: Seq<Expr>, keep: Seq<bool>, n: int) -> Seq<Expr>
    decreases n,
{
    if n <= 0 {
        seq![]
    } else {
        let p = kept_prefix(xs, keep, n - 1);
        if keep[n - 1] {
            p.push(renumber(xs[n - 1], keep))
        } else {
            p
        }
    }
}

/// What translating `xs` gives: the expressions that the last one needs, in order, renumbered.
pub open spec fn spec_unused(xs: Seq<Expr>) -> Seq<Expr> {
    if xs.len() == 0 {
        xs
    } else {
        kept_prefix(xs, live(xs), xs.len() as int)
    }
}

proof fn lemma_live_len(xs: Seq<Expr>, k: int)
    requires
        well_formed(xs),
    ensures
        live_from(xs, k).len() == xs.len(),
    decreases xs.len() - k,
{
    if 0 <= k < xs.len() {
        lemma_live_len(xs, k + 1);
        lemma_mark_args(live_from(xs, k + 1), xs, k);
    }
}

/// `e` reads the `p`-th expression.
pub open spec fn reads(e: Expr, p: int) -> bool {
    match e {
        Expr::Dyad(_, x, y) => x as int == p || y as int == p,
        Expr::Monad(_, x) => x as int == p,
        _ => false,
    }
}

/// Marking the arguments of the `k`-th expression marks exactly them.
proof fn lemma_mark_args(m: Seq<bool>, xs: Seq<Expr>, k: int)
    requires
        well_formed(xs),
        0 <= k < xs.len(),
        m.len() == xs.len(),
    ensures
        mark_args(m, xs[k]).len() == m.len(),
        forall|p: int|
            0 <= p < m.len() ==> #[trigger] mark_args(m, xs[k])[p] == (m[p] || reads(xs[k], p)),
        forall|p: int| reads(xs[k], p) ==> 0 <= p < k,
{
    let e = xs[k];
    assert(args_before(e, k));
    match e {
        Expr::Dyad(_, x, y) => {
            assert(spec_args(e)[0] == x);
            assert(spec_args(e)[1] == y);
        },
        Expr::Monad(_, x) => {
            assert(spec_args(e)[0] == x);
        },
        _ => {},
    }
}

proof fn lemma_rank_bound(keep: Seq<bool>, a: int)
    requires
        a >= 0,
    ensures
        0 <= rank(keep, a) <= a,
    decreases a,
{
    if a > 0 {
        lemma_rank_bound(keep, a - 1);
    }
}

proof fn lemma_kept_prefix_len(xs: Seq<Expr>, keep: Seq<bool>, n: int)
    requires
        n >= 0,
    ensures
        kept_prefix(xs, keep, n).len() == rank(keep, n),
    decreases n,
{
    if n > 0 {
        lemma_kept_prefix_len(xs, keep, n - 1);
    }
}

impl Unused {
    /// Translate `input` (whose expressions read only earlier ones): keep only the expressions
    /// that the last one needs, in order, with their arguments renumbered. This cannot fail.
    pub fn translate(&self, input: Vec<Expr>) -> (r: Vec<Expr>)
        requires
            well_formed(input@),
        ensures
            r@ == spec_unused(input@),
    {
        let n = input.len();
        if n == 0 {
            return input;
        }
        let ghost xs = input@;
        let mut used: Vec<bool> = Vec::new();
        let mut i: usize = 0;
        while i < n
            invariant
                n == xs.len(),
                i <= n,
                used@ == Seq::new(i as nat, |j: int| j == n - 1),
            decreases n - i,
        {
            used.push(i == n - 1);
            proof {
                assert(used@ =~= Seq::new((i + 1) as nat, |j: int| j == n - 1));
            }
            i = i + 1;
        }
        let mut k: usize = n;
        while k > 0
            invariant
                n == xs.len(),
                xs == input@,
                well_formed(xs),
                k <= n,
                used@ == live_from(xs, k as int),
                used@.len() == n,
            decreases k,
        {
            k = k - 1;
            proof {
                lemma_live_len(xs, k as int);
            }
            if used[k] {
                let e = input[k];
                proof {
                    assert(args_before(xs[k as int], k as int));
                }
                match e {
                    Expr::Dyad(_, x, y) => {
                        proof {
                            assert(spec_args(e)[0] == x);
                            assert(spec_args(e)[1] == y);
                        }
                        used.set(x as usize, true);
                        used.set(y as usize, true);
                    },
                    Expr::Monad(_, x) => {
                        proof {
                            assert(spec_args(e)[0] == x);
                        }
                        used.set(x as usize, true);
                    },
                    _ => {},
                }
            }
        }
        let ghost keep = used@;
        let mut ranks: Vec<usize> = Vec::new();
        let mut count: usize = 0;
        let mut i: usize = 0;
        while i < n
            invariant
                n == xs.len(),
                used@ == keep,
                keep.len() == n,
                i <= n,
                count == rank(keep, i as int),
                count <= i,
                ranks@.len() == i,
                forall|j: int| 0 <= j < i ==> #[trigger] ranks@[j] == rank(keep, j),
            decreases n - i,
        {
            ranks.push(count);
            if used[i] {
                count = count + 1;
            }
            i = i + 1;
        }
        let mut out: Vec<Expr> = Vec::new();
        let mut i: usize = 0;
        while i < n
            invariant
                n == xs.len(),
                xs == input@,
                well_formed(xs),
                used@ == keep,
                keep.len() == n,
                i <= n,
                ranks@.len() == n,
                forall|j: int| 0 <= j < n ==> #[trigger] ranks@[j] == rank(keep, j),
                out@ == kept_prefix(xs, keep, i as int),
            decreases n - i,
        {
            if used[i] {
                let e = input[i];
                proof {
                    assert(args_before(xs[i as int], i as int));
                }
                let f = match e {
                    Expr::Dyad(op, x, y) => {
                        proof {
                            assert(spec_args(e)[0] == x);
                            assert(spec_args(e)[1] == y);
                            lemma_rank_bound(keep, x as int);
                            lemma_rank_bound(keep, y as int);
                        }
                        Expr::Dyad(op, ranks[x as usize] as u16, ranks[y as usize] as u16)
                    },
                    Expr::Monad(op, x) => {
                        proof {
                            assert(spec_args(e)[0] == x);
                            lemma_rank_bound(keep, x as int);
                        }
                        Expr::Monad(op, ranks[x as usize] as u16)
                    },
                    _ => e,
                };
                out.push(f);
            }
            i = i + 1;
        }
        out
    }
}


/// One step of the walk back leaves the marks from the `k`-th expression on alone, and only
/// adds marks.
proof fn lemma_live_step(xs: Seq<Expr>, k: int)
    requires
        well_formed(xs),
        0 <= k < xs.len(),
    ensures
        forall|p: int| k <= p < xs.len() ==> #[trigger] live_from(xs, k)[p] == live_from(xs, k + 1)[p],
        forall|p: int| 0 <= p < xs.len() && live_from(xs, k + 1)[p] ==> #[trigger] live_from(xs, k)[p],
        live_from(xs, k + 1)[k] ==> forall|p: int| #[trigger] reads(xs[k], p) ==> live_from(xs, k)[p],
{
    lemma_live_len(xs, k + 1);
    lemma_mark_args(live_from(xs, k + 1), xs, k);
}

/// Walking further back leaves the marks from the `k`-th expression on alone, and only adds
/// marks.
proof fn lemma_live_later(xs: Seq<Expr>, j: int, k: int)
    requires
        well_formed(xs),
        0 <= j <= k <= xs.len(),
    ensures
        forall|p: int| k <= p < xs.len() ==> #[trigger] live_from(xs, j)[p] == live_from(xs, k)[p],
        forall|p: int| 0 <= p < xs.len() && live_from(xs, k)[p] ==> #[trigger] live_from(xs, j)[p],
    decreases k - j,
{
    if j < k {
        lemma_live_later(xs, j + 1, k);
        lemma_live_step(xs, j);
    }
}

/// Which expressions are kept: the last one; whatever a kept one reads; and nothing else, since
/// every other kept expression is read by a later kept one.
pub proof fn lemma_live_is_needed(xs: Seq<Expr>)
    requires
        well_formed(xs),
        xs.len() > 0,
    ensures
        live(xs).len() == xs.len(),
        live(xs)[xs.len() - 1],
        forall|i: int, p: int| 0 <= i < xs.len() && live(xs)[i] && #[trigger] reads(xs[i], p) ==> 0 <= p < i && live(xs)[p],
        forall|p: int|
            0 <= p < xs.len() - 1 && #[trigger] live(xs)[p] ==> exists|i: int|
                p < i < xs.len() && live(xs)[i] && reads(xs[i], p),
{
    let n = xs.len() as int;
    lemma_live_len(xs, 0);
    lemma_live_later(xs, 0, n - 1);
    lemma_live_step(xs, n - 1);
    assert forall|i: int, p: int| 0 <= i < xs.len() && live(xs)[i] && #[trigger] reads(xs[i], p) implies 0 <= p < i && live(xs)[p] by {
        lemma_live_len(xs, i + 1);
        lemma_mark_args(live_from(xs, i + 1), xs, i);
        lemma_live_later(xs, 0, i);
        lemma_live_step(xs, i);
        lemma_live_later(xs, 0, i);
    }
    assert forall|p: int| 0 <= p < xs.len() - 1 && #[trigger] live(xs)[p] implies exists|i: int|
        p < i < xs.len() && live(xs)[i] && reads(xs[i], p) by {
        lemma_live_needed_from(xs, 0, p);
    }
}

proof fn lemma_live_needed_from(xs: Seq<Expr>, k: int, p: int)
    requires
        well_formed(xs),
        0 <= k <= xs.len(),
        0 <= p < xs.len() - 1,
        live_from(xs, k)[p],
    ensures
        exists|i: int| p < i < xs.len() && live(xs)[i] && reads(xs[i], p),
    decreases xs.len() - k,
{
    if k < xs.len() {
        lemma_live_step(xs, k);
        lemma_live_len(xs, k + 1);
        lemma_mark_args(live_from(xs, k + 1), xs, k);
        if live_from(xs, k + 1)[p] {
            lemma_live_needed_from(xs, k + 1, p);
        } else {
            assert(live_from(xs, k + 1)[k] && reads(xs[k], p));
            lemma_live_later(xs, 0, k);
            assert(live(xs)[k]);
        }
    }
}

proof fn lemma_rank_mono(keep: Seq<bool>, a: int, b: int)
    requires
        0 <= a <= b,
    ensures
        rank(keep, a) <= rank(keep, b),
        a < b && keep[a] ==> rank(keep, a) < rank(keep, b),
    decreases b - a,
{
    if a < b {
        lemma_rank_mono(keep, a, b - 1);
        if a < b - 1 {
            lemma_rank_mono(keep, a + 1, b);
        }
    }
}

/// The kept expressions among the first `n`: the `i`-th, if kept, stands at its rank.
proof fn lemma_kept_prefix_index(xs: Seq<Expr>, keep: Seq<bool>, n: int, i: int)
    requires
        0 <= i < n <= keep.len(),
        keep[i],
    ensures
        kept_prefix(xs, keep, n).len() == rank(keep, n),
        rank(keep, i) < rank(keep, n),
        kept_prefix(xs, keep, n)[rank(keep, i)] == renumber(xs[i], keep),
    decreases n,
{
    lemma_kept_prefix_len(xs, keep, n);
    lemma_kept_prefix_len(xs, keep, n - 1);
    lemma_rank_mono(keep, i, n);
    lemma_rank_mono(keep, i, n - 1);
    let p = kept_prefix(xs, keep, n - 1);
    lemma_rank_bound(keep, i);
    assert(p.len() == rank(keep, n - 1));
    if i < n - 1 {
        lemma_kept_prefix_index(xs, keep, n - 1, i);
        assert(rank(keep, i) < p.len());
        if keep[n - 1] {
            assert(kept_prefix(xs, keep, n) == p.push(renumber(xs[n - 1], keep)));
            assert(kept_prefix(xs, keep, n)[rank(keep, i)] == p[rank(keep, i)]);
        } else {
            assert(kept_prefix(xs, keep, n) == p);
        }
    } else {
        assert(kept_prefix(xs, keep, n) == p.push(renumber(xs[n - 1], keep)));
        assert(rank(keep, i) == p.len());
    }
}

/// The translation runs in order.
proof fn lemma_kept_prefix_well_formed(xs: Seq<Expr>, n: int)
    requires
        well_formed(xs),
        xs.len() > 0,
        0 <= n <= xs.len(),
    ensures
        well_formed(kept_prefix(xs, live(xs), n)),
    decreases n,
{
    let keep = live(xs);
    lemma_live_is_needed(xs);
    if n > 0 {
        lemma_kept_prefix_well_formed(xs, n - 1);
        let p = kept_prefix(xs, keep, n - 1);
        lemma_kept_prefix_len(xs, keep, n - 1);
        if keep[n - 1] {
            let e = xs[n - 1];
            let f = renumber(e, keep);
            assert(args_before(e, n - 1));
            match e {
                Expr::Dyad(_, x, y) => {
                    assert(spec_args(e)[0] == x && spec_args(e)[1] == y);
                    assert(reads(e, x as int) && reads(e, y as int));
                    lemma_rank_mono(keep, x as int, n - 1);
                    lemma_rank_mono(keep, y as int, n - 1);
                    lemma_rank_bound(keep, x as int);
                    lemma_rank_bound(keep, y as int);
                    assert(spec_args(f)[0] == rank(keep, x as int) as u16);
                    assert(spec_args(f)[1] == rank(keep, y as int) as u16);
                },
                Expr::Monad(_, x) => {
                    assert(spec_args(e)[0] == x);
                    assert(reads(e, x as int));
                    lemma_rank_mono(keep, x as int, n - 1);
                    lemma_rank_bound(keep, x as int);
                    assert(spec_args(f)[0] == rank(keep, x as int) as u16);
                },
                _ => {},
            }
            assert(args_before(f, p.len() as int));
            let q = p.push(f);
            assert forall|i: int| 0 <= i < q.len() implies args_before(#[trigger] q[i], i) by {
                if i < p.len() {
                    assert(q[i] == p[i]);
                }
            }
        }
    }
}

/// Each kept expression computes what it computed before the translation.
#[verifier::rlimit(40)]
#[verifier::spinoff_prover]
proof fn lemma_kept_term(xs: Seq<Expr>, i: int)
    requires
        well_formed(xs),
        xs.len() > 0,
        0 <= i < xs.len(),
        live(xs)[i],
    ensures
        term(spec_unused(xs), rank(live(xs), i)) == term(xs, i),
    decreases i,
{
    let keep = live(xs);
    let n = xs.len() as int;
    let out = spec_unused(xs);
    lemma_live_is_needed(xs);
    lemma_kept_prefix_index(xs, keep, n, i);
    let e = xs[i];
    let r = rank(keep, i);
    lemma_rank_bound(keep, i);
    assert(out[r] == renumber(e, keep));
    assert(args_before(e, i));
    lemma_kept_prefix_len(xs, keep, n);
    match e {
        Expr::Dyad(op, x, y) => {
            assert(spec_args(e)[0] == x && spec_args(e)[1] == y);
            assert(reads(e, x as int) && reads(e, y as int));
            lemma_rank_mono(keep, x as int, i);
            lemma_rank_mono(keep, y as int, i);
            lemma_rank_bound(keep, x as int);
            lemma_rank_bound(keep, y as int);
            lemma_kept_term(xs, x as int);
            lemma_kept_term(xs, y as int);
            let rx = rank(keep, x as int);
            let ry = rank(keep, y as int);
            assert(out[r] == Expr::Dyad(op, rx as u16, ry as u16));
            assert(term(out, r) == Term::D(op, Box::new(term(out, rx)), Box::new(term(out, ry))));
            assert(term(xs, i) == Term::D(op, Box::new(term(xs, x as int)), Box::new(term(xs, y as int))));
            assert(term(out, rx) == term(xs, x as int));
            assert(term(out, ry) == term(xs, y as int));
            assert(term(out, r) == term(xs, i));
        },
        Expr::Monad(op, x) => {
            assert(spec_args(e)[0] == x);
            assert(reads(e, x as int));
            lemma_rank_mono(keep, x as int, i);
            lemma_rank_bound(keep, x as int);
            lemma_kept_term(xs, x as int);
            let rx = rank(keep, x as int);
            assert(out[r] == Expr::Monad(op, rx as u16));
            assert(term(out, r) == Term::M(op, Box::new(term(out, rx))));
            assert(term(xs, i) == Term::M(op, Box::new(term(xs, x as int))));
        },
        _ => {
            assert(out[r] == e);
            assert(r < out.len());
            assert(term(out, r) == term(xs, i));
        },
    }
}

/// Translating never lengthens a program.
pub proof fn lemma_unused_shortens(xs: Seq<Expr>)
    ensures
        spec_unused(xs).len() <= xs.len(),
{
    if xs.len() > 0 {
        lemma_kept_prefix_len(xs, live(xs), xs.len() as int);
        lemma_rank_bound(live(xs), xs.len() as int);
    }
}

/// The translation of a program that runs in order runs in order, and its last expression
/// computes what the program's last expression computes.
pub proof fn lemma_unused_preserves_result(xs: Seq<Expr>)
    requires
        well_formed(xs),
        xs.len() > 0,
    ensures
        spec_unused(xs).len() > 0,
        well_formed(spec_unused(xs)),
        term(spec_unused(xs), spec_unused(xs).len() - 1) == term(xs, xs.len() - 1),
{
    let keep = live(xs);
    let n = xs.len() as int;
    lemma_live_is_needed(xs);
    lemma_kept_prefix_index(xs, keep, n, n - 1);
    lemma_kept_prefix_well_formed(xs, n);
    lemma_kept_term(xs, n - 1);
    assert(rank(keep, n) == rank(keep, n - 1) + 1);
}

} // verus!
