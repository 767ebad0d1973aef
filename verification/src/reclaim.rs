//! Reclaiming no longer used expressions: after each expression, instructions that release the
//! expressions it was the last to read.
use vstd::prelude::*;
use std::collections::{HashMap, HashSet};
use crate::expr::{args_before, spec_args, well_formed, Expr, Program};
use crate::unused::reads;

verus! {

broadcast use vstd::std_specs::hash::group_hash_axioms;

/// Expressions that are reclaimable.
#[derive(Clone, Copy, PartialEq, Eq, Structural, Debug)]
pub enum ExprOrDel {
    /// An expression of the program.
    Expr(Expr),
    /// Reclaim the given expression.
    Delete(u16),
}

/// A program with garbage collection: its entries by position.
#[derive(Clone, Debug)]
pub struct ProgWithGC {
    pub header: String,
    pub exprs: HashMap<usize, ExprOrDel>,
}

/// Reclaiming translator; the interpreter of what it gives follows the same setup as the
/// baseline one, for an image of the given size (in pixels per side).
pub struct Reclaim(pub u16);

/// No expression strictly between the `i`-th and the last one reads the `z`-th: the `i`-th
/// expression is the last but the final one to read it.
pub open spec fn last_reader_before_final(xs: Seq<Expr>, i: int, z: int) -> bool {
    forall|j: int| i < j < xs.len() - 1 ==> !reads(#[trigger] xs[j], z)
}

/// The releases that follow the `i`-th expression: none after the final expression; otherwise
/// each expression it reads and is the last but the final one to read, the second argument of
/// a dyadic operation before the first (and once if they are the same).
pub open spec fn gc_dels(xs: Seq<Expr>, i: int) -> Seq<ExprOrDel> {
    if i == xs.len() - 1 {
        seq![]
    } else {
        match xs[i] {
            Expr::Dyad(_, a, b) => (if last_reader_before_final(xs, i, b as int) && b != a {
                seq![ExprOrDel::Delete(b)]
            } else {
                seq![]
            }) + (if last_reader_before_final(xs, i, a as int) {
                seq![ExprOrDel::Delete(a)]
            } else {
                seq![]
            }),
            Expr::Monad(_, z) => if last_reader_before_final(xs, i, z as int) {
                seq![ExprOrDel::Delete(z)]
            } else {
                seq![]
            },
            _ => seq![],
        }
    }
}

/// The entries for the expressions of `xs` from the `k`-th on: each expression followed by its
/// releases.
pub open spec fn gc_from(xs: Seq<Expr>, k: int) -> Seq<ExprOrDel>
    decreases xs.len() - k,
{
    if k < 0 || k >= xs.len() {
        seq![]
    } else {
        seq![ExprOrDel::Expr(xs[k])] + gc_dels(xs, k) + gc_from(xs, k + 1)
    }
}

/// The expressions read by those from the `k`-th on, the final one excepted.
pub open spec fn read_from(xs: Seq<Expr>, k: int) -> Set<u16> {
    Set::new(|z: u16| exists|j: int| k <= j < xs.len() - 1 && #[trigger] reads(xs[j], z as int))
}

/// The entries of a program with garbage collection, in order of their keys.
pub open spec fn entries_match(m: Map<usize, ExprOrDel>, s: Seq<ExprOrDel>) -> bool {
    &&& forall|p: usize| #[trigger] m.contains_key(p) <==> (p as int) < s.len()
    &&& forall|p: usize| (p as int) < s.len() ==> #[trigger] m[p] == s[p as int]
}

impl Reclaim {
    /// Translate a program: after each expression but the final one, release each expression
    /// it reads that no later expression but the final one reads. The entries are keyed by
    /// their positions.
    pub fn translate(&self, input: Program) -> (r: ProgWithGC)
        ensures
            r.header == input.header,
            entries_match(r.exprs@, gc_from(input.exprs@, 0)),
    {
        let ghost xs = input.exprs@;
        let n = input.exprs.len();
        let mut seen: HashSet<u16> = HashSet::new();
        let mut with_gc: Vec<ExprOrDel> = Vec::new();
        let mut k: usize = n;
        proof {
            assert(read_from(xs, n as int) =~= Set::<u16>::empty());
            assert(gc_from(xs, n as int).reverse() =~= Seq::<ExprOrDel>::empty());
        }
        while k > 0
            invariant
                n == xs.len(),
                xs == input.exprs@,
                k <= n,
                seen@ == read_from(xs, k as int),
                with_gc@ == gc_from(xs, k as int).reverse(),
                with_gc@.len() == 0 <==> k == n,
            decreases k,
        {
            k = k - 1;
            let x = input.exprs[k];
            let ghost old_w = with_gc@;
            let ghost old_seen = seen@;
            if with_gc.len() > 0 {
                match x {
                    Expr::Dyad(_, a, b) => {
                        if !seen.contains(&a) {
                            with_gc.push(ExprOrDel::Delete(a));
                        }
                        seen.insert(a);
                        if !seen.contains(&b) {
                            with_gc.push(ExprOrDel::Delete(b));
                        }
                        seen.insert(b);
                    },
                    Expr::Monad(_, z) => {
                        if !seen.contains(&z) {
                            with_gc.push(ExprOrDel::Delete(z));
                        }
                        seen.insert(z);
                    },
                    _ => {},
                }
            }
            with_gc.push(ExprOrDel::Expr(x));
            proof {
                let i = k as int;
                if i < n - 1 {
                    assert forall|z: u16| old_seen.contains(z) == !last_reader_before_final(xs, i, z as int) by {
                        if old_seen.contains(z) {
                            let j = choose|j: int| i + 1 <= j < n - 1 && #[trigger] reads(xs[j], z as int);
                            assert(!last_reader_before_final(xs, i, z as int));
                        }
                        if !last_reader_before_final(xs, i, z as int) {
                            let j = choose|j: int| i < j < n - 1 && reads(#[trigger] xs[j], z as int);
                            assert(old_seen.contains(z));
                        }
                    }
                    assert forall|z: u16| #[trigger] read_from(xs, i).contains(z) <==> (old_seen.contains(z)
                        || reads(xs[i], z as int)) by {
                        if read_from(xs, i).contains(z) {
                            let j = choose|j: int| i <= j < n - 1 && #[trigger] reads(xs[j], z as int);
                            if j > i {
                                assert(read_from(xs, i + 1).contains(z));
                            }
                        }
                        if old_seen.contains(z) {
                            let j = choose|j: int| i + 1 <= j < n - 1 && #[trigger] reads(xs[j], z as int);
                            assert(read_from(xs, i).contains(z));
                        }
                        if reads(xs[i], z as int) {
                            assert(read_from(xs, i).contains(z));
                        }
                    }
                    assert(seen@ =~= read_from(xs, i));
                } else {
                    assert(seen@ =~= read_from(xs, i));
                }
                assert(with_gc@ =~= (seq![ExprOrDel::Expr(xs[i])] + gc_dels(xs, i) + gc_from(xs, i + 1)).reverse());
            }
        }
        let total = with_gc.len();
        let mut exprs: HashMap<usize, ExprOrDel> = HashMap::new();
        let mut p: usize = 0;
        while p < total
            invariant
                total == with_gc@.len(),
                with_gc@ == gc_from(xs, 0).reverse(),
                p <= total,
                forall|q: usize| #[trigger] exprs@.contains_key(q) <==> q < p,
                forall|q: usize| q < p ==> #[trigger] exprs@[q] == gc_from(xs, 0)[q as int],
            decreases total - p,
        {
            exprs.insert(p, with_gc[total - 1 - p]);
            p = p + 1;
        }
        ProgWithGC { header: input.header, exprs }
    }
}

/// The expressions among some entries, in order.
pub open spec fn exprs_of(s: Seq<ExprOrDel>) -> Seq<Expr>
    decreases s.len(),
{
    if s.len() == 0 {
        seq![]
    } else {
        (match s[0] {
            ExprOrDel::Expr(e) => seq![e],
            ExprOrDel::Delete(_) => seq![],
        }) + exprs_of(s.drop_first())
    }
}

proof fn lemma_exprs_of_append(a: Seq<ExprOrDel>, b: Seq<ExprOrDel>)
    ensures
        exprs_of(a + b) == exprs_of(a) + exprs_of(b),
    decreases a.len(),
{
    if a.len() == 0 {
        assert(a + b =~= b);
        assert(exprs_of(a) + exprs_of(b) =~= exprs_of(b));
    } else {
        lemma_exprs_of_append(a.drop_first(), b);
        assert((a + b).drop_first() =~= a.drop_first() + b);
        assert(exprs_of(a + b) =~= exprs_of(a) + exprs_of(b));
    }
}

proof fn lemma_gc_dels_no_exprs(xs: Seq<Expr>, i: int)
    ensures
        exprs_of(gc_dels(xs, i)) == Seq::<Expr>::empty(),
{
    let d = gc_dels(xs, i);
    assert forall|q: int| 0 <= q < d.len() implies d[q] is Delete by {}
    lemma_exprs_of_dels(d);
}

proof fn lemma_exprs_of_dels(d: Seq<ExprOrDel>)
    requires
        forall|q: int| 0 <= q < d.len() ==> d[q] is Delete,
    ensures
        exprs_of(d) == Seq::<Expr>::empty(),
    decreases d.len(),
{
    if d.len() > 0 {
        assert forall|q: int| 0 <= q < d.drop_first().len() implies d.drop_first()[q] is Delete by {
            assert(d.drop_first()[q] == d[q + 1]);
        }
        lemma_exprs_of_dels(d.drop_first());
        assert(exprs_of(d) =~= Seq::<Expr>::empty());
    }
}

proof fn lemma_gc_from_exprs(xs: Seq<Expr>, k: int)
    requires
        0 <= k <= xs.len(),
    ensures
        exprs_of(gc_from(xs, k)) == xs.skip(k),
    decreases xs.len() - k,
{
    if k == xs.len() {
        assert(exprs_of(gc_from(xs, k)) =~= xs.skip(k));
    } else {
        lemma_gc_from_exprs(xs, k + 1);
        let head = seq![ExprOrDel::Expr(xs[k])];
        lemma_exprs_of_append(head + gc_dels(xs, k), gc_from(xs, k + 1));
        lemma_exprs_of_append(head, gc_dels(xs, k));
        lemma_gc_dels_no_exprs(xs, k);
        assert(head.drop_first() =~= Seq::<ExprOrDel>::empty());
        assert(exprs_of(Seq::<ExprOrDel>::empty()) =~= Seq::<Expr>::empty());
        assert(exprs_of(head) =~= seq![xs[k]]);
        assert(xs.skip(k) =~= seq![xs[k]] + xs.skip(k + 1));
    }
}

/// Reclaiming leaves the program's computation alone: its expressions, read in order of the
/// keys with the releases passed over, are the program's expressions.
pub proof fn lemma_reclaim_keeps_exprs(xs: Seq<Expr>)
    ensures
        exprs_of(gc_from(xs, 0)) == xs,
{
    lemma_gc_from_exprs(xs, 0);
    assert(xs.skip(0) =~= xs);
}

proof fn lemma_gc_dels_contains(xs: Seq<Expr>, i: int, z: u16)
    requires
        0 <= i < xs.len(),
    ensures
        gc_dels(xs, i).contains(ExprOrDel::Delete(z)) <==> (i < xs.len() - 1 && reads(xs[i], z as int)
            && last_reader_before_final(xs, i, z as int)),
        gc_dels(xs, i).no_duplicates(),
{
    let d = gc_dels(xs, i);
    if i < xs.len() - 1 {
        match xs[i] {
            Expr::Dyad(_, a, b) => {
                let first = if last_reader_before_final(xs, i, b as int) && b != a {
                    seq![ExprOrDel::Delete(b)]
                } else {
                    seq![]
                };
                let second = if last_reader_before_final(xs, i, a as int) {
                    seq![ExprOrDel::Delete(a)]
                } else {
                    seq![]
                };
                assert(d == first + second);
                if d.contains(ExprOrDel::Delete(z)) {
                    let q = choose|q: int| 0 <= q < d.len() && d[q] == ExprOrDel::Delete(z);
                    if q < first.len() {
                        assert(d[q] == first[q]);
                    } else {
                        assert(d[q] == second[q - first.len()]);
                    }
                }
                if reads(xs[i], z as int) && last_reader_before_final(xs, i, z as int) {
                    if z == a {
                        assert(d[first.len() as int] == ExprOrDel::Delete(a));
                    } else {
                        assert(d[0] == ExprOrDel::Delete(b));
                    }
                }
            },
            Expr::Monad(_, x) => {
                if reads(xs[i], z as int) && last_reader_before_final(xs, i, z as int) {
                    assert(d[0] == ExprOrDel::Delete(x));
                }
            },
            _ => {},
        }
    }
}

proof fn lemma_last_reader_exists(xs: Seq<Expr>, j: int, z: u16)
    requires
        0 <= j < xs.len() - 1,
        reads(xs[j], z as int),
    ensures
        exists|i: int| j <= i < xs.len() - 1 && reads(xs[i], z as int) && last_reader_before_final(
            xs,
            i,
            z as int,
        ),
    decreases xs.len() - j,
{
    if !last_reader_before_final(xs, j, z as int) {
        let k = choose|k: int| j < k < xs.len() - 1 && reads(#[trigger] xs[k], z as int);
        lemma_last_reader_exists(xs, k, z);
    }
}

/// Reclaiming releases an expression only after the last expression but the final one that
/// reads it: each expression that some expression but the final one reads is released exactly
/// once, right after the last of those; nothing else is released.
pub proof fn lemma_reclaim_releases(xs: Seq<Expr>, z: u16)
    ensures
        forall|i: int|
            0 <= i < xs.len() ==> (#[trigger] gc_dels(xs, i).contains(ExprOrDel::Delete(z)) <==> (i
                < xs.len() - 1 && reads(xs[i], z as int) && last_reader_before_final(xs, i, z as int))),
        forall|i: int| 0 <= i < xs.len() ==> (#[trigger] gc_dels(xs, i)).no_duplicates(),
        forall|i1: int, i2: int|
            0 <= i1 < xs.len() && 0 <= i2 < xs.len() && #[trigger] gc_dels(xs, i1).contains(
                ExprOrDel::Delete(z),
            ) && #[trigger] gc_dels(xs, i2).contains(ExprOrDel::Delete(z)) ==> i1 == i2,
        (exists|j: int| 0 <= j < xs.len() - 1 && #[trigger] reads(xs[j], z as int)) <==> (exists|i: int|
            0 <= i < xs.len() && #[trigger] gc_dels(xs, i).contains(ExprOrDel::Delete(z))),
{
    assert forall|i: int| 0 <= i < xs.len() implies (#[trigger] gc_dels(xs, i).contains(
        ExprOrDel::Delete(z),
    ) <==> (i < xs.len() - 1 && reads(xs[i], z as int) && last_reader_before_final(xs, i, z as int)))
        && gc_dels(xs, i).no_duplicates() by {
        lemma_gc_dels_contains(xs, i, z);
    }
    assert forall|i1: int, i2: int|
        0 <= i1 < xs.len() && 0 <= i2 < xs.len() && #[trigger] gc_dels(xs, i1).contains(
            ExprOrDel::Delete(z),
        ) && #[trigger] gc_dels(xs, i2).contains(ExprOrDel::Delete(z)) implies i1 == i2 by {
        lemma_gc_dels_contains(xs, i1, z);
        lemma_gc_dels_contains(xs, i2, z);
        if i1 < i2 {
            assert(!reads(xs[i2], z as int));
        } else if i2 < i1 {
            assert(!reads(xs[i1], z as int));
        }
    }
    if exists|j: int| 0 <= j < xs.len() - 1 && #[trigger] reads(xs[j], z as int) {
        let j = choose|j: int| 0 <= j < xs.len() - 1 && #[trigger] reads(xs[j], z as int);
        lemma_last_reader_exists(xs, j, z);
        let i = choose|i: int| j <= i < xs.len() - 1 && reads(xs[i], z as int) && last_reader_before_final(
            xs,
            i,
            z as int,
        );
        lemma_gc_dels_contains(xs, i, z);
    }
    if exists|i: int| 0 <= i < xs.len() && #[trigger] gc_dels(xs, i).contains(ExprOrDel::Delete(z)) {
        let i = choose|i: int| 0 <= i < xs.len() && #[trigger] gc_dels(xs, i).contains(ExprOrDel::Delete(z));
        lemma_gc_dels_contains(xs, i, z);
    }
}

proof fn lemma_reads_before(xs: Seq<Expr>, k: int, z: int)
    requires
        well_formed(xs),
        0 <= k < xs.len(),
        reads(xs[k], z),
    ensures
        0 <= z < k,
{
    let e = xs[k];
    assert(args_before(e, k));
    match e {
        Expr::Dyad(_, x, y) => {
            assert(spec_args(e)[0] == x);
            assert(spec_args(e)[1] == y);
        },
        Expr::Monad(_, x) => {
            assert(spec_args(e)[0] == x);
        },
        _ => {},
    }
}

proof fn lemma_gc_from_releases_behind(xs: Seq<Expr>, k: int)
    requires
        well_formed(xs),
        0 <= k <= xs.len(),
    ensures
        forall|q: int|
            0 <= q < gc_from(xs, k).len() && #[trigger] gc_from(xs, k)[q] is Delete ==> (gc_from(
                xs,
                k,
            )[q]->Delete_0 as int) < k + q,
    decreases xs.len() - k,
{
    if k < xs.len() {
        lemma_gc_from_releases_behind(xs, k + 1);
        let d = gc_dels(xs, k);
        let rest = gc_from(xs, k + 1);
        let s = gc_from(xs, k);
        assert(s == seq![ExprOrDel::Expr(xs[k])] + d + rest);
        assert forall|q: int| 0 <= q < s.len() && #[trigger] s[q] is Delete implies (s[q]->Delete_0 as int)
            < k + q by {
            if q == 0 {
                assert(s[0] == ExprOrDel::Expr(xs[k]));
            } else if q <= d.len() {
                assert(s[q] == d[q - 1]);
                let z = s[q]->Delete_0;
                assert(d.contains(ExprOrDel::Delete(z)));
                lemma_gc_dels_contains(xs, k, z);
                lemma_reads_before(xs, k, z as int);
            } else {
                assert(s[q] == rest[q - 1 - d.len()]);
            }
        }
    }
}

/// Every release stands after the entry at the position of what it releases: a release of `z`
/// at position `p` has `z < p`. (Running the entries in order of their positions and removing,
/// at each release of `z`, the entry at position `z` thus only removes an entry already run.)
pub proof fn lemma_reclaim_releases_behind(xs: Seq<Expr>)
    requires
        well_formed(xs),
    ensures
        forall|p: int|
            0 <= p < gc_from(xs, 0).len() && #[trigger] gc_from(xs, 0)[p] is Delete ==> (gc_from(
                xs,
                0,
            )[p]->Delete_0 as int) < p,
{
    lemma_gc_from_releases_behind(xs, 0);
}

} // verus!
