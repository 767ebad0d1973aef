//! Character-level reading of the program text: lines and whitespace separated tokens, each as
//! a specification over `Seq<char>` and a verified scanner.
use vstd::prelude::*;

verus! {

broadcast use vstd::seq_lib::group_seq_properties;

/// ASCII whitespace, as `char::is_ascii_whitespace` defines it: space, tab, line feed, form feed
/// and carriage return.
pub open spec fn is_ascii_ws(c: char) -> bool {
    c == ' ' || c == '\t' || c == '\n' || c == '\u{c}' || c == '\r'
}

/// The predicate "is ASCII whitespace".
pub open spec fn ws() -> spec_fn(char) -> bool {
    |c: char| is_ascii_ws(c)
}

/// The predicate "is a line feed".
pub open spec fn nl() -> spec_fn(char) -> bool {
    |c: char| c == '\n'
}

/// The index of the first character of `s` that satisfies `p`, if any.
pub open spec fn first_index(s: Seq<char>, p: spec_fn(char) -> bool) -> Option<int>
    decreases s.len(),
{
    if s.len() == 0 {
        None
    } else if p(s[0]) {
        Some(0)
    } else {
        match first_index(s.drop_first(), p) {
            Some(i) => Some(i + 1),
            None => None,
        }
    }
}

/// `i` is the index of the first character of `s` that satisfies `p`.
pub open spec fn is_first_index(s: Seq<char>, p: spec_fn(char) -> bool, i: int) -> bool {
    &&& 0 <= i < s.len()
    &&& p(s[i])
    &&& forall|j: int| 0 <= j < i ==> !p(#[trigger] s[j])
}

/// [`first_index`] finds the first character that satisfies `p`, and finds none only where
/// none does.
pub proof fn lemma_first_index(s: Seq<char>, p: spec_fn(char) -> bool)
    ensures
        match first_index(s, p) {
            Some(i) => is_first_index(s, p, i),
            None => forall|j: int| 0 <= j < s.len() ==> !p(#[trigger] s[j]),
        },
    decreases s.len(),
{
    if s.len() > 0 && !p(s[0]) {
        lemma_first_index(s.drop_first(), p);
        assert forall|j: int| 1 <= j < s.len() implies s[j] == s.drop_first()[j - 1] by {}
    }
}

/// The first index satisfying `p` is the only index with that property.
pub proof fn lemma_first_index_unique(s: Seq<char>, p: spec_fn(char) -> bool, i: int)
    requires
        is_first_index(s, p, i),
    ensures
        first_index(s, p) == Some(i),
{
    lemma_first_index(s, p);
    match first_index(s, p) {
        Some(k) => {
            if k < i {
                assert(!p(s[k]));
            } else if k > i {
                assert(!p(s[i]));
            }
        },
        None => {
            assert(!p(s[i]));
        },
    }
}

/// No character of `s` satisfies `p`.
pub proof fn lemma_first_index_none(s: Seq<char>, p: spec_fn(char) -> bool)
    requires
        forall|j: int| 0 <= j < s.len() ==> !p(#[trigger] s[j]),
    ensures
        first_index(s, p) is None,
{
    lemma_first_index(s, p);
    if let Some(k) = first_index(s, p) {
        assert(!p(s[k]));
    }
}

/// `l` without one trailing carriage return.
pub open spec fn strip_cr(l: Seq<char>) -> Seq<char> {
    if l.len() > 0 && l.last() == '\r' {
        l.drop_last()
    } else {
        l
    }
}

/// The lines of `s`, as `str::lines` gives them: split at each line feed, a carriage return
/// just before a line feed dropped, and no empty last line after a final line feed.
pub open spec fn lines(s: Seq<char>) -> Seq<Seq<char>>
    decreases s.len(),
{
    if s.len() == 0 {
        seq![]
    } else {
        match first_index(s, nl()) {
            Some(i) => {
                proof {
                    lemma_first_index(s, nl());
                }
                seq![strip_cr(s.take(i))] + lines(s.skip(i + 1))
            },
            None => seq![s],
        }
    }
}

/// The whitespace separated tokens of `s`, as `str::split_ascii_whitespace` gives them.
pub open spec fn tokens(s: Seq<char>) -> Seq<Seq<char>>
    decreases s.len(),
{
    if s.len() == 0 {
        seq![]
    } else if is_ascii_ws(s[0]) {
        tokens(s.drop_first())
    } else {
        match first_index(s, ws()) {
            Some(i) => {
                proof {
                    lemma_first_index(s, ws());
                }
                seq![s.take(i)] + tokens(s.skip(i))
            },
            None => seq![s],
        }
    }
}

/// The characters of `s`, in order.
pub fn chars_of(s: &str) -> (v: Vec<char>)
    ensures
        v@ == s@,
{
    let mut v: Vec<char> = Vec::new();
    for c in it: s.chars()
        invariant
            v@ == it.seq().take(it.index() as int),
    {
        v.push(c);
    }
    v
}


/// Find the line of `s` that starts at `pos`: it is `s[pos..end]`, and the next line starts at
/// `next`.
pub fn next_line(s: &Vec<char>, pos: usize) -> (r: (usize, usize))
    requires
        pos < s.len(),
    ensures
        pos <= r.0 <= r.1,
        pos < r.1 <= s.len(),
        lines(s@.skip(pos as int)) == seq![s@.subrange(pos as int, r.0 as int)] + lines(
            s@.skip(r.1 as int),
        ),
{
    let ghost rest = s@.skip(pos as int);
    let mut i: usize = pos;
    while i < s.len() && s[i] != '\n'
        invariant
            pos <= i <= s.len(),
            rest == s@.skip(pos as int),
            forall|j: int| pos <= j < i ==> s@[j] != '\n',
        decreases s.len() - i,
    {
        i = i + 1;
    }
    if i < s.len() {
        proof {
            assert forall|j: int| 0 <= j < i - pos implies !(nl())(#[trigger] rest[j]) by {
                assert(rest[j] == s@[pos + j]);
            }
            lemma_first_index_unique(rest, nl(), i - pos);
            assert(rest.skip(i - pos + 1) =~= s@.skip(i + 1));
        }
        if i > pos && s[i - 1] == '\r' {
            proof {
                assert(strip_cr(rest.take(i - pos)) =~= s@.subrange(pos as int, i - 1));
            }
            (i - 1, i + 1)
        } else {
            proof {
                assert(strip_cr(rest.take(i - pos)) =~= s@.subrange(pos as int, i as int));
            }
            (i, i + 1)
        }
    } else {
        proof {
            assert forall|j: int| 0 <= j < rest.len() implies !(nl())(#[trigger] rest[j]) by {
                assert(rest[j] == s@[pos + j]);
            }
            lemma_first_index_none(rest, nl());
            assert(rest =~= s@.subrange(pos as int, i as int));
            assert(lines(s@.skip(i as int)) =~= Seq::<Seq<char>>::empty());
        }
        (i, i)
    }
}

/// The tokens of `s[a..b]`, each as its span: `s[spans[k].0..spans[k].1]` is the `k`-th token.
pub fn token_spans(s: &Vec<char>, a: usize, b: usize) -> (spans: Vec<(usize, usize)>)
    requires
        a <= b <= s.len(),
    ensures
        spans@.len() == tokens(s@.subrange(a as int, b as int)).len(),
        forall|k: int|
            0 <= k < spans@.len() ==> {
                &&& a <= (#[trigger] spans@[k]).0 < spans@[k].1 <= b
                &&& s@.subrange(spans@[k].0 as int, spans@[k].1 as int) == tokens(
                    s@.subrange(a as int, b as int),
                )[k]
            },
{
    let ghost all = tokens(s@.subrange(a as int, b as int));
    let mut spans: Vec<(usize, usize)> = Vec::new();
    let mut pos: usize = a;
    while pos < b
        invariant
            a <= pos <= b <= s.len(),
            all == tokens(s@.subrange(a as int, b as int)),
            all == spans@.map_values(|sp: (usize, usize)| s@.subrange(sp.0 as int, sp.1 as int))
                + tokens(s@.subrange(pos as int, b as int)),
            forall|k: int|
                0 <= k < spans@.len() ==> a <= (#[trigger] spans@[k]).0 < spans@[k].1 <= pos,
        decreases b - pos,
    {
        let ghost sub = s@.subrange(pos as int, b as int);
        if is_ws_char(s[pos]) {
            proof {
                assert(sub.drop_first() =~= s@.subrange(pos + 1, b as int));
            }
            pos = pos + 1;
        } else {
            let mut e: usize = pos + 1;
            while e < b && !is_ws_char(s[e])
                invariant
                    pos < e <= b <= s.len(),
                    forall|j: int| pos <= j < e ==> !is_ascii_ws(s@[j]),
                decreases b - e,
            {
                e = e + 1;
            }
            proof {
                if e < b {
                    assert forall|j: int| 0 <= j < e - pos implies !(ws())(#[trigger] sub[j]) by {
                        assert(sub[j] == s@[pos + j]);
                    }
                    lemma_first_index_unique(sub, ws(), e - pos);
                    assert(sub.skip(e - pos) =~= s@.subrange(e as int, b as int));
                    assert(sub.take(e - pos) =~= s@.subrange(pos as int, e as int));
                } else {
                    assert forall|j: int| 0 <= j < sub.len() implies !(ws())(#[trigger] sub[j]) by {
                        assert(sub[j] == s@[pos + j]);
                    }
                    lemma_first_index_none(sub, ws());
                    assert(tokens(s@.subrange(e as int, b as int)) =~= Seq::<Seq<char>>::empty());
                }
            }
            let ghost old_spans = spans@;
            spans.push((pos, e));
            proof {
                let f = |sp: (usize, usize)| s@.subrange(sp.0 as int, sp.1 as int);
                assert(spans@.map_values(f) =~= old_spans.map_values(f).push(
                    s@.subrange(pos as int, e as int),
                ));
                assert(tokens(sub) == seq![s@.subrange(pos as int, e as int)] + tokens(
                    s@.subrange(e as int, b as int),
                ));
            }
            pos = e;
        }
    }
    proof {
        assert(tokens(s@.subrange(b as int, b as int)) =~= Seq::<Seq<char>>::empty());
        let f = |sp: (usize, usize)| s@.subrange(sp.0 as int, sp.1 as int);
        assert(all =~= spans@.map_values(f));
        assert forall|k: int| 0 <= k < spans@.len() implies s@.subrange(
            (#[trigger] spans@[k]).0 as int,
            spans@[k].1 as int,
        ) == all[k] by {
            assert(spans@.map_values(f)[k] == f(spans@[k]));
        }
    }
    spans
}

/// Whether `c` is ASCII whitespace.
pub fn is_ws_char(c: char) -> (b: bool)
    ensures
        b == is_ascii_ws(c),
{
    c == ' ' || c == '\t' || c == '\n' || c == '\u{c}' || c == '\r'
}



/// Whether `s[a..b]` is the word `w`.
pub fn span_is(s: &Vec<char>, a: usize, b: usize, w: &[char]) -> (r: bool)
    requires
        a <= b <= s.len(),
    ensures
        r == (s@.subrange(a as int, b as int) == w@),
{
    if b - a != w.len() {
        return false;
    }
    let mut i: usize = 0;
    while i < w.len()
        invariant
            a <= b <= s.len(),
            b - a == w@.len(),
            0 <= i <= w@.len(),
            forall|j: int| 0 <= j < i ==> s@[a + j] == w@[j],
        decreases w@.len() - i,
    {
        if s[a + i] != w[i] {
            proof {
                assert(s@.subrange(a as int, b as int)[i as int] != w@[i as int]);
            }
            return false;
        }
        i = i + 1;
    }
    proof {
        assert(s@.subrange(a as int, b as int) =~= w@);
    }
    true
}

/// `String::from_iter` over characters: the string holding exactly the characters of `v`, in
/// order.
#[verifier::external_body]
pub(crate) fn string_from(v: &[char]) -> (r: String)
    ensures
        r@ == v@,
{
    v.iter().collect()
}

/// The string `s[a..b]`.
pub fn string_of_span(s: &Vec<char>, a: usize, b: usize) -> (r: String)
    requires
        a <= b <= s.len(),
    ensures
        r@ == s@.subrange(a as int, b as int),
{
    string_from(vstd::slice::slice_subrange(s.as_slice(), a, b))
}


/// Append `s[a..b]` to `out`.
pub fn push_span(out: &mut Vec<char>, s: &Vec<char>, a: usize, b: usize)
    requires
        a <= b <= s.len(),
    ensures
        final(out)@ == old(out)@ + s@.subrange(a as int, b as int),
{
    let ghost start = out@;
    let mut j: usize = a;
    while j < b
        invariant
            a <= j <= b <= s.len(),
            out@ == start + s@.subrange(a as int, j as int),
        decreases b - j,
    {
        out.push(s[j]);
        proof {
            assert(s@.subrange(a as int, j + 1) =~= s@.subrange(a as int, j as int).push(s@[j as int]));
        }
        j = j + 1;
    }
}

/// Append the characters of `w` to `out`.
pub fn push_chars(out: &mut Vec<char>, w: &[char])
    ensures
        final(out)@ == old(out)@ + w@,
{
    let ghost start = out@;
    let mut j: usize = 0;
    while j < w.len()
        invariant
            j <= w@.len(),
            out@ == start + w@.subrange(0, j as int),
        decreases w@.len() - j,
    {
        out.push(w[j]);
        proof {
            assert(w@.subrange(0, j + 1) =~= w@.subrange(0, j as int).push(w@[j as int]));
        }
        j = j + 1;
    }
    proof {
        assert(w@.subrange(0, w@.len() as int) =~= w@);
    }
}

/// The tokens `ts` joined by single spaces.
pub open spec fn join_space(ts: Seq<Seq<char>>) -> Seq<char>
    decreases ts.len(),
{
    if ts.len() == 0 {
        seq![]
    } else if ts.len() == 1 {
        ts[0]
    } else {
        join_space(ts.drop_last()) + seq![' '] + ts.last()
    }
}

} // verus!
