//! Reuse previously seen expressions (similar to hash-consing or global value numbering).
use vstd::prelude::*;
use std::collections::HashMap;
use crate::expr::{
    args_before, lemma_u64_injective, spec_to_u64, term, well_formed, Dyad, Expr, Monad, Term,
};

verus! {

broadcast use vstd::std_specs::hash::group_hash_axioms;

/// Just a unit struct, a place to hang the translation.
pub struct Reuse;

/// Errors that can arise when trying to translate a program.
#[derive(PartialEq, Eq, Structural, Debug, Clone, Copy)]
pub enum Error {
    /// The translation would need more expressions than `u16` indices can reach; holds the
    /// number it had reached.
    TooBig(usize),
}

/// The index of the first occurrence of `f` in `s`, if any.
pub open spec fn find_expr(s: Seq<Expr>, f: Expr) -> Option<int>
    decreases s.len(),
{
    if s.len() == 0 {
        None
    } else if s[0] == f {
        Some(0)
    } else {
        match find_expr(s.drop_first(), f) {
            Some(i) => Some(i + 1),
            None => None,
        }
    }
}

proof fn lemma_find_expr(s: Seq<Expr>, f: Expr)
    ensures
        match find_expr(s, f) {
            Some(i) => 0 <= i < s.len() && s[i] == f && forall|j: int| 0 <= j < i ==> s[j] != f,
            None => forall|j: int| 0 <= j < s.len() ==> s[j] != f,
        },
    decreases s.len(),
{
    if s.len() > 0 && s[0] != f {
        lemma_find_expr(s.drop_first(), f);
        assert forall|j: int| 1 <= j < s.len() implies s[j] == s.drop_first()[j - 1] by {}
    }
}

/// No expression occurs twice in `s`.
pub open spec fn distinct(s: Seq<Expr>) -> bool {
    forall|i: int, j: int| 0 <= i < j < s.len() ==> s[i] != s[j]
}

proof fn lemma_find_distinct(s: Seq<Expr>, f: Expr, j: int)
    requires
        distinct(s),
        0 <= j < s.len(),
        s[j] == f,
    ensures
        find_expr(s, f) == Some(j),
{
    lemma_find_expr(s, f);
    if let Some(i) = find_expr(s, f) {
        if i < j {
            assert(s[i] != s[j]);
        }
    }
}

/// The translated form of `e`, where `out` holds the expressions kept so far and `ix[x]` is the
/// index in `out` that the `x`-th input expression became: arguments renamed; the arguments of
/// a commutative operation in increasing order; and `a - b` turned into `-(b - a)` where
/// `b - a` is already kept.
pub open spec fn reuse_canon(out: Seq<Expr>, ix: Seq<u16>, e: Expr) -> Expr {
    match e {
        Expr::Dyad(op, x, y) => {
            let a = ix[x as int];
            let b = ix[y as int];
            if op == Dyad::Sub {
                match find_expr(out, Expr::Dyad(Dyad::Sub, b, a)) {
                    Some(i) => Expr::Monad(Monad::Neg, i as u16),
                    None => Expr::Dyad(Dyad::Sub, a, b),
                }
            } else if a <= b {
                Expr::Dyad(op, a, b)
            } else {
                Expr::Dyad(op, b, a)
            }
        },
        Expr::Monad(op, x) => Expr::Monad(op, ix[x as int]),
        _ => e,
    }
}

/// Translating the first `n` expressions of `xs`: the expressions kept and, for each input
/// expression, the index of the kept expression it became; or `None` once a new expression
/// would need an index beyond `u16`.
pub open spec fn reuse_run(xs: Seq<Expr>, n: nat) -> Option<(Seq<Expr>, Seq<u16>)>
    decreases n,
{
    if n == 0 {
        Some((seq![], seq![]))
    } else {
        match reuse_run(xs, (n - 1) as nat) {
            None => None,
            Some((out, ix)) => {
                let f = reuse_canon(out, ix, xs[n - 1]);
                match find_expr(out, f) {
                    Some(j) => Some((out, ix.push(j as u16))),
                    None => {
                        if out.len() >= 0x10000 {
                            None
                        } else {
                            Some((out.push(f), ix.push(out.len() as u16)))
                        }
                    },
                }
            },
        }
    }
}

/// What translating `xs` gives.
pub open spec fn spec_reuse(xs: Seq<Expr>) -> Result<Seq<Expr>, Error> {
    match reuse_run(xs, xs.len()) {
        Some((out, _)) => Ok(out),
        None => Err(Error::TooBig(0x10000)),
    }
}

/// The lookup table maps the packing of each kept expression to its index, and nothing else.
pub open spec fn lookup_matches(lookup: Map<u64, u16>, out: Seq<Expr>) -> bool {
    &&& forall|j: int|
        0 <= j < out.len() ==> #[trigger] lookup.contains_key(spec_to_u64(out[j]))
            && lookup[spec_to_u64(out[j])] == j
    &&& forall|key: u64|
        #[trigger] lookup.contains_key(key) ==> exists|j: int|
            0 <= j < out.len() && spec_to_u64(out[j]) == key
}

/// Look up `f` among the kept expressions.
fn lookup_expr(lookup: &HashMap<u64, u16>, f: Expr, ghost_out: Ghost<Seq<Expr>>) -> (r: Option<u16>)
    requires
        lookup_matches(lookup@, ghost_out@),
        distinct(ghost_out@),
    ensures
        match find_expr(ghost_out@, f) {
            Some(j) => r == Some(j as u16),
            None => r is None,
        },
{
    let key = f.to_u64();
    match lookup.get(&key) {
        Some(j) => {
            proof {
                let w = choose|w: int| 0 <= w < ghost_out@.len() && spec_to_u64(ghost_out@[w]) == key;
                lemma_u64_injective(ghost_out@[w], f);
                lemma_find_distinct(ghost_out@, f, w);
            }
            Some(*j)
        },
        None => {
            proof {
                lemma_find_expr(ghost_out@, f);
                if let Some(w) = find_expr(ghost_out@, f) {
                    assert(lookup@.contains_key(spec_to_u64(ghost_out@[w])));
                }
            }
            None
        },
    }
}

impl Reuse {
    /// Translate `input` (whose expressions read only earlier ones), keeping each expression
    /// once: a later copy of a kept expression, up to the order of a commutative operation's
    /// arguments, is dropped and its readers read the kept one; `a - b` where `b - a` is kept
    /// becomes `-(b - a)`. Fails where more than `0x10000` expressions would be kept.
    pub fn translate(&self, input: Vec<Expr>) -> (r: Result<Vec<Expr>, Error>)
        requires
            well_formed(input@),
        ensures
            match (r, spec_reuse(input@)) {
                (Ok(v), Ok(s)) => v@ == s,
                (Err(e), Err(s)) => e == s,
                _ => false,
            },
    {
        if input.len() == 0 {
            return Ok(input);
        }
        let size = input.len();
        let mut exprs: Vec<Expr> = Vec::new();
        let mut ix: Vec<u16> = Vec::new();
        let mut lookup: HashMap<u64, u16> = HashMap::new();
        let mut i: usize = 0;
        while i < size
            invariant
                size == input@.len(),
                i <= size,
                well_formed(input@),
                reuse_run(input@, i as nat) == Some((exprs@, ix@)),
                lookup_matches(lookup@, exprs@),
                distinct(exprs@),
                ix@.len() == i,
                exprs@.len() <= 0x10000,
                forall|j: int| 0 <= j < i ==> (#[trigger] ix@[j] as int) < exprs@.len(),
            decreases size - i,
        {
            let e = input[i];
            proof {
                assert(args_before(input@[i as int], i as int));
            }
            let f = match e {
                Expr::Dyad(op, x, y) => {
                    proof {
                        assert(crate::expr::spec_args(e)[0] == x);
                        assert(crate::expr::spec_args(e)[1] == y);
                    }
                    let a = ix[x as usize];
                    let b = ix[y as usize];
                    match op {
                        Dyad::Sub => {
                            match lookup_expr(&lookup, Expr::Dyad(Dyad::Sub, b, a), Ghost(exprs@)) {
                                Some(j) => Expr::Monad(Monad::Neg, j),
                                None => Expr::Dyad(Dyad::Sub, a, b),
                            }
                        },
                        _ => {
                            if a <= b {
                                Expr::Dyad(op, a, b)
                            } else {
                                Expr::Dyad(op, b, a)
                            }
                        },
                    }
                },
                Expr::Monad(op, x) => {
                    proof {
                        assert(crate::expr::spec_args(e)[0] == x);
                    }
                    Expr::Monad(op, ix[x as usize])
                },
                _ => e,
            };
            proof {
                assert(f == reuse_canon(exprs@, ix@, input@[i as int]));
            }
            match lookup_expr(&lookup, f, Ghost(exprs@)) {
                Some(j) => {
                    proof {
                        lemma_find_expr(exprs@, f);
                    }
                    ix.push(j);
                },
                None => {
                    if exprs.len() >= 0x10000 {
                        proof {
                            assert(reuse_run(input@, (i + 1) as nat) is None);
                            lemma_reuse_run_stays_none(input@, (i + 1) as nat, size as nat);
                        }
                        return Err(Error::TooBig(exprs.len()));
                    }
                    let j = exprs.len() as u16;
                    let ghost old_exprs = exprs@;
                    let ghost old_lookup = lookup@;
                    lookup.insert(f.to_u64(), j);
                    ix.push(j);
                    exprs.push(f);
                    proof {
                        lemma_find_expr(old_exprs, f);
                        assert forall|q: int| 0 <= q < exprs@.len() implies #[trigger] lookup@.contains_key(
                            spec_to_u64(exprs@[q]),
                        ) && lookup@[spec_to_u64(exprs@[q])] == q by {
                            if q < old_exprs.len() {
                                lemma_u64_injective(old_exprs[q], f);
                                assert(exprs@[q] == old_exprs[q]);
                                assert(old_lookup.contains_key(spec_to_u64(old_exprs[q])));
                                assert(old_lookup[spec_to_u64(old_exprs[q])] == q);
                            } else {
                                assert(exprs@[q] == f);
                            }
                        }
                        assert forall|key: u64| #[trigger] lookup@.contains_key(key) implies exists|q: int|
                            0 <= q < exprs@.len() && spec_to_u64(exprs@[q]) == key by {
                            if key == spec_to_u64(f) {
                                assert(exprs@[old_exprs.len() as int] == f);
                            } else {
                                let w = choose|w: int| 0 <= w < old_exprs.len() && spec_to_u64(old_exprs[w]) == key;
                                assert(exprs@[w] == old_exprs[w]);
                            }
                        }
                    }
                },
            }
            i = i + 1;
        }
        Ok(exprs)
    }
}

proof fn lemma_reuse_run_stays_none(xs: Seq<Expr>, m: nat, n: nat)
    requires
        m <= n,
        reuse_run(xs, m) is None,
    ensures
        reuse_run(xs, n) is None,
    decreases n - m,
{
    if m < n {
        lemma_reuse_run_stays_none(xs, (m + 1) as nat, n);
    }
}


/// What a translation keeps: expressions that run in order, each kept once, the arguments of a
/// commutative operation in increasing order, and no `a - b` after a `b - a`; at most
/// `0x10000` of them.
pub open spec fn reuse_canonical(q: Seq<Expr>) -> bool {
    &&& well_formed(q)
    &&& distinct(q)
    &&& q.len() <= 0x10000
    &&& forall|k: int| 0 <= k < q.len() ==> comm_ordered(#[trigger] q[k])
    &&& forall|k: int, m: int|
        0 <= m < k < q.len() && is_sub(#[trigger] q[k]) ==> #[trigger] q[m] != swapped(q[k])
}

/// The arguments of a commutative operation are in increasing order.
pub open spec fn comm_ordered(e: Expr) -> bool {
    match e {
        Expr::Dyad(op, x, y) => op == Dyad::Sub || x <= y,
        _ => true,
    }
}

/// `e` is a subtraction.
pub open spec fn is_sub(e: Expr) -> bool {
    e matches Expr::Dyad(Dyad::Sub, _, _)
}

/// A dyadic operation with its arguments swapped.
pub open spec fn swapped(e: Expr) -> Expr {
    match e {
        Expr::Dyad(op, x, y) => Expr::Dyad(op, y, x),
        _ => e,
    }
}

proof fn lemma_reuse_run_invariant(xs: Seq<Expr>, n: nat)
    requires
        well_formed(xs),
        n <= xs.len(),
        reuse_run(xs, n) is Some,
    ensures
        ({
            let (out, ix) = reuse_run(xs, n)->Some_0;
            &&& reuse_canonical(out)
            &&& ix.len() == n
            &&& out.len() <= n
            &&& forall|j: int| 0 <= j < n ==> (#[trigger] ix[j] as int) < out.len()
        }),
    decreases n,
{
    if n > 0 {
        let m = (n - 1) as nat;
        lemma_reuse_run_stays_none_rev(xs, m, n);
        lemma_reuse_run_invariant(xs, m);
        let (out, ix) = reuse_run(xs, m)->Some_0;
        let e = xs[m as int];
        assert(args_before(e, m as int));
        let f = reuse_canon(out, ix, e);
        match e {
            Expr::Dyad(op, x, y) => {
                assert(crate::expr::spec_args(e)[0] == x);
                assert(crate::expr::spec_args(e)[1] == y);
                if op == Dyad::Sub {
                    lemma_find_expr(out, Expr::Dyad(Dyad::Sub, ix[y as int], ix[x as int]));
                }
            },
            Expr::Monad(op, x) => {
                assert(crate::expr::spec_args(e)[0] == x);
            },
            _ => {},
        }
        assert(args_before(f, out.len() as int)) by {
            assert(forall|q: int| 0 <= q < crate::expr::spec_args(f).len() ==> (crate::expr::spec_args(f)[q] as int) < out.len());
        }
        lemma_find_expr(out, f);
        match find_expr(out, f) {
            Some(j) => {},
            None => {
                let nout = out.push(f);
                assert forall|i: int| 0 <= i < nout.len() implies args_before(#[trigger] nout[i], i) by {
                    if i < out.len() {
                        assert(nout[i] == out[i]);
                    }
                }
                assert forall|k: int, mm: int|
                    0 <= mm < k < nout.len() && is_sub(#[trigger] nout[k]) implies #[trigger] nout[mm]
                        != swapped(nout[k]) by {
                    if k < out.len() {
                        assert(nout[k] == out[k]);
                        assert(nout[mm] == out[mm]);
                    } else {
                        assert(nout[mm] == out[mm]);
                    }
                }
            },
        }
    }
}

proof fn lemma_reuse_run_stays_none_rev(xs: Seq<Expr>, m: nat, n: nat)
    requires
        m <= n,
        reuse_run(xs, n) is Some,
    ensures
        reuse_run(xs, m) is Some,
{
    if reuse_run(xs, m) is None {
        lemma_reuse_run_stays_none(xs, m, n);
    }
}

/// Translating never lengthens a program, and what it gives is canonical: it runs in order,
/// keeps each expression once, orders the arguments of commutative operations, and holds no
/// `a - b` after a `b - a`.
pub proof fn lemma_reuse_shortens(xs: Seq<Expr>)
    requires
        well_formed(xs),
        spec_reuse(xs) is Ok,
    ensures
        spec_reuse(xs)->Ok_0.len() <= xs.len(),
        reuse_canonical(spec_reuse(xs)->Ok_0),
{
    lemma_reuse_run_invariant(xs, xs.len());
}

/// Translating a canonical program gives it back unchanged.
pub proof fn lemma_reuse_fixes_canonical(q: Seq<Expr>)
    requires
        reuse_canonical(q),
    ensures
        spec_reuse(q) == Ok::<Seq<Expr>, Error>(q),
{
    lemma_reuse_run_identity(q, q.len());
    assert(q.take(q.len() as int) =~= q);
}

proof fn lemma_reuse_run_identity(q: Seq<Expr>, n: nat)
    requires
        reuse_canonical(q),
        n <= q.len(),
    ensures
        reuse_run(q, n) == Some((q.take(n as int), Seq::new(n, |j: int| j as u16))),
    decreases n,
{
    if n == 0 {
        assert(q.take(0) =~= Seq::<Expr>::empty());
        assert(Seq::new(0, |j: int| j as u16) =~= Seq::<u16>::empty());
    } else {
        let m = (n - 1) as nat;
        lemma_reuse_run_identity(q, m);
        let out = q.take(m as int);
        let ix = Seq::new(m, |j: int| j as u16);
        let e = q[m as int];
        assert(args_before(e, m as int));
        match e {
            Expr::Dyad(op, x, y) => {
                assert(crate::expr::spec_args(e)[0] == x);
                assert(crate::expr::spec_args(e)[1] == y);
                assert(ix[x as int] == x);
                assert(ix[y as int] == y);
                if op == Dyad::Sub {
                    lemma_find_expr(out, Expr::Dyad(Dyad::Sub, y, x));
                    if let Some(w) = find_expr(out, Expr::Dyad(Dyad::Sub, y, x)) {
                        assert(q[w] == out[w]);
                    }
                }
            },
            Expr::Monad(op, x) => {
                assert(crate::expr::spec_args(e)[0] == x);
                assert(ix[x as int] == x);
            },
            _ => {},
        }
        assert(reuse_canon(out, ix, e) == e);
        lemma_find_expr(out, e);
        if let Some(w) = find_expr(out, e) {
            assert(q[w] == out[w]);
        }
        assert(out.push(e) =~= q.take(n as int));
        assert(ix.push(m as u16) =~= Seq::new(n, |j: int| j as u16));
    }
}

/// Translating twice gives what translating once gives.
pub proof fn lemma_reuse_idempotent(xs: Seq<Expr>)
    requires
        well_formed(xs),
        spec_reuse(xs) is Ok,
    ensures
        spec_reuse(spec_reuse(xs)->Ok_0) == spec_reuse(xs),
{
    lemma_reuse_shortens(xs);
    lemma_reuse_fixes_canonical(spec_reuse(xs)->Ok_0);
}


/// `t` computes what `u` computes, given that addition, multiplication, maximum and minimum
/// commute and that `a - b` is `-(b - a)`: the two are the same computation, but for the order
/// of the arguments of commutative operations and for subtractions that `t` takes as the
/// negation of the opposite subtraction.
pub open spec fn same_by_reuse(t: Term, u: Term) -> bool
    decreases t,
{
    match t {
        Term::X => u == Term::X,
        Term::Y => u == Term::Y,
        Term::C(b) => u == Term::C(b),
        Term::D(op, p, q) => match u {
            Term::D(op2, r, s) => op == op2 && ((same_by_reuse(*p, *r) && same_by_reuse(*q, *s))
                || (op != Dyad::Sub && same_by_reuse(*p, *s) && same_by_reuse(*q, *r))),
            _ => false,
        },
        Term::M(op, p) => match u {
            Term::M(op2, r) => op == op2 && same_by_reuse(*p, *r),
            Term::D(Dyad::Sub, r, s) => op == Monad::Neg && match *p {
                Term::D(Dyad::Sub, a, b) => same_by_reuse(*a, *s) && same_by_reuse(*b, *r),
                _ => false,
            },
            _ => false,
        },
    }
}

proof fn lemma_term_prefix(s: Seq<Expr>, f: Expr, k: int)
    requires
        0 <= k < s.len(),
    ensures
        term(s.push(f), k) == term(s, k),
    decreases k,
{
    let t = s.push(f);
    assert(t[k] == s[k]);
    match s[k] {
        Expr::Dyad(_, x, y) => {
            if (x as int) < k && (y as int) < k {
                lemma_term_prefix(s, f, x as int);
                lemma_term_prefix(s, f, y as int);
            }
        },
        Expr::Monad(_, x) => {
            if (x as int) < k {
                lemma_term_prefix(s, f, x as int);
            }
        },
        _ => {},
    }
}

/// The step of [`lemma_reuse_run_terms`]: the `m`-th input expression is computed by its
/// translated form, found at index `p` of `g`, where `g` agrees with the kept expressions `out`
/// on their terms.
proof fn lemma_canon_term(xs: Seq<Expr>, m: int, out: Seq<Expr>, ix: Seq<u16>, g: Seq<Expr>, p: int)
    requires
        well_formed(xs),
        0 <= m < xs.len(),
        well_formed(out),
        out.len() <= 0x10000,
        ix.len() == m,
        forall|j: int| 0 <= j < m ==> (#[trigger] ix[j] as int) < out.len(),
        forall|j: int| 0 <= j < m ==> same_by_reuse(term(out, #[trigger] ix[j] as int), term(xs, j)),
        out.len() <= g.len(),
        forall|k: int| 0 <= k < out.len() ==> #[trigger] term(g, k) == term(out, k),
        0 <= p < g.len(),
        g[p] == reuse_canon(out, ix, xs[m]),
        args_before(g[p], p),
        args_before(g[p], out.len() as int),
    ensures
        same_by_reuse(term(g, p), term(xs, m)),
{
    let e = xs[m];
    assert(args_before(e, m));
    match e {
        Expr::Dyad(op, x, y) => {
            assert(crate::expr::spec_args(e)[0] == x);
            assert(crate::expr::spec_args(e)[1] == y);
            let a = ix[x as int];
            let b = ix[y as int];
            assert(term(xs, m) == Term::D(op, Box::new(term(xs, x as int)), Box::new(term(xs, y as int))));
            assert(same_by_reuse(term(out, a as int), term(xs, x as int)));
            assert(same_by_reuse(term(out, b as int), term(xs, y as int)));
            if op == Dyad::Sub {
                lemma_find_expr(out, Expr::Dyad(Dyad::Sub, b, a));
                match find_expr(out, Expr::Dyad(Dyad::Sub, b, a)) {
                    Some(i) => {
                        assert((i as u16) as int == i);
                        assert(g[p] == Expr::Monad(Monad::Neg, i as u16));
                        assert(crate::expr::spec_args(g[p])[0] == i as u16);
                        assert(args_before(out[i], i));
                        assert(crate::expr::spec_args(out[i])[0] == b);
                        assert(crate::expr::spec_args(out[i])[1] == a);
                        assert(term(out, i) == Term::D(Dyad::Sub, Box::new(term(out, b as int)), Box::new(term(out, a as int))));
                        assert(term(g, i) == term(out, i));
                        assert(term(g, p) == Term::M(Monad::Neg, Box::new(term(g, i))));
                    },
                    None => {
                        assert(g[p] == Expr::Dyad(Dyad::Sub, a, b));
                        assert(crate::expr::spec_args(g[p])[0] == a);
                        assert(crate::expr::spec_args(g[p])[1] == b);
                        assert(term(g, a as int) == term(out, a as int));
                        assert(term(g, b as int) == term(out, b as int));
                    },
                }
            } else if a <= b {
                assert(crate::expr::spec_args(g[p])[0] == a);
                assert(crate::expr::spec_args(g[p])[1] == b);
                assert(term(g, a as int) == term(out, a as int));
                assert(term(g, b as int) == term(out, b as int));
            } else {
                assert(crate::expr::spec_args(g[p])[0] == b);
                assert(crate::expr::spec_args(g[p])[1] == a);
                assert(term(g, a as int) == term(out, a as int));
                assert(term(g, b as int) == term(out, b as int));
            }
        },
        Expr::Monad(op, x) => {
            assert(crate::expr::spec_args(e)[0] == x);
            let a = ix[x as int];
            assert(same_by_reuse(term(out, a as int), term(xs, x as int)));
            assert(crate::expr::spec_args(g[p])[0] == a);
            assert(term(g, a as int) == term(out, a as int));
        },
        _ => {},
    }
}

proof fn lemma_reuse_run_terms(xs: Seq<Expr>, n: nat)
    requires
        well_formed(xs),
        n <= xs.len(),
        reuse_run(xs, n) is Some,
    ensures
        ({
            let (out, ix) = reuse_run(xs, n)->Some_0;
            forall|i: int| 0 <= i < n ==> same_by_reuse(term(out, #[trigger] ix[i] as int), term(xs, i))
        }),
    decreases n,
{
    if n > 0 {
        let m = (n - 1) as nat;
        lemma_reuse_run_stays_none_rev(xs, m, n);
        lemma_reuse_run_terms(xs, m);
        lemma_reuse_run_invariant(xs, m);
        let (out, ix) = reuse_run(xs, m)->Some_0;
        let e = xs[m as int];
        assert(args_before(e, m as int));
        let f = reuse_canon(out, ix, e);
        match e {
            Expr::Dyad(op, x, y) => {
                assert(crate::expr::spec_args(e)[0] == x);
                assert(crate::expr::spec_args(e)[1] == y);
                if op == Dyad::Sub {
                    lemma_find_expr(out, Expr::Dyad(Dyad::Sub, ix[y as int], ix[x as int]));
                }
            },
            Expr::Monad(op, x) => {
                assert(crate::expr::spec_args(e)[0] == x);
            },
            _ => {},
        }
        assert(args_before(f, out.len() as int)) by {
            assert(forall|q: int| 0 <= q < crate::expr::spec_args(f).len() ==> (crate::expr::spec_args(f)[q] as int) < out.len());
        }
        lemma_find_expr(out, f);
        match find_expr(out, f) {
            Some(j) => {
                let nix = ix.push(j as u16);
                assert(args_before(out[j], j));
                assert(args_before(out[j], out.len() as int)) by {
                    assert(forall|q: int| 0 <= q < crate::expr::spec_args(f).len() ==> (crate::expr::spec_args(f)[q] as int) < out.len());
                }
                assert forall|i: int| 0 <= i < n implies same_by_reuse(term(out, #[trigger] nix[i] as int), term(xs, i)) by {
                    if i < m {
                        assert(nix[i] == ix[i]);
                    } else {
                        assert(nix[i] == j as u16);
                        lemma_canon_term(xs, m as int, out, ix, out, j);
                    }
                }
            },
            None => {
                let nout = out.push(f);
                let nix = ix.push(out.len() as u16);
                assert forall|k: int| 0 <= k < out.len() implies #[trigger] term(nout, k) == term(out, k) by {
                    lemma_term_prefix(out, f, k);
                }
                assert forall|i: int| 0 <= i < n implies same_by_reuse(term(nout, #[trigger] nix[i] as int), term(xs, i)) by {
                    if i < m {
                        assert(nix[i] == ix[i]);
                        lemma_term_prefix(out, f, ix[i] as int);
                    } else {
                        assert(nix[i] == out.len() as u16);
                        assert(nout[out.len() as int] == f);
                        assert(args_before(nout[out.len() as int], out.len() as int));
                        lemma_canon_term(xs, m as int, out, ix, nout, out.len() as int);
                    }
                }
            },
        }
    }
}

/// Each expression of the input is computed, given that addition, multiplication, maximum and
/// minimum commute and that `a - b` is `-(b - a)`, by the kept expression that the translation
/// maps it to. So the translation computes what the input computes, its last expression, where
/// that one maps to the last kept expression (it does not where the last input expression
/// repeats an earlier one, as in `x, y, x`).
pub proof fn lemma_reuse_keeps_terms(xs: Seq<Expr>)
    requires
        well_formed(xs),
        reuse_run(xs, xs.len()) is Some,
    ensures
        ({
            let (out, ix) = reuse_run(xs, xs.len())->Some_0;
            &&& forall|i: int| 0 <= i < xs.len() ==> same_by_reuse(term(out, #[trigger] ix[i] as int), term(xs, i))
            &&& xs.len() > 0 && ix[xs.len() - 1] == out.len() - 1 ==> same_by_reuse(
                term(out, out.len() - 1),
                term(xs, xs.len() - 1),
            )
        }),
{
    lemma_reuse_run_terms(xs, xs.len());
    if xs.len() > 0 {
        let (out, ix) = reuse_run(xs, xs.len())->Some_0;
        assert(same_by_reuse(term(out, ix[xs.len() - 1] as int), term(xs, xs.len() - 1)));
    }
}

proof fn lemma_reuse_run_fits(xs: Seq<Expr>, n: nat)
    requires
        n <= xs.len(),
        xs.len() <= 0x10000,
    ensures
        reuse_run(xs, n) is Some,
        (reuse_run(xs, n)->Some_0).0.len() <= n,
    decreases n,
{
    if n > 0 {
        lemma_reuse_run_fits(xs, (n - 1) as nat);
    }
}

/// A program of at most `0x10000` expressions (as every parsed program is) always translates:
/// the error needs more expressions to keep than that.
pub proof fn lemma_reuse_fits(xs: Seq<Expr>)
    requires
        xs.len() <= 0x10000,
    ensures
        spec_reuse(xs) is Ok,
{
    lemma_reuse_run_fits(xs, xs.len());
}

} // verus!
