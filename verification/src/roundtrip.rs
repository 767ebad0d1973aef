//! What writing a program as text and reading it back gives: the program itself.
use vstd::prelude::*;
use crate::expr::{
    all_hex_digits, const_token, dyad_name, dyad_of_name, expr_text, hex_char, hex_digit,
    hex_text, hex_value, kw_const, kw_var_x, kw_var_y, lemma_name_roundtrip, monad_name,
    radix_digits, spec_hex, spec_parse_expr, Dyad, Expr, ExprErrorView, Monad, line_text,
    args_before, spec_parse_line, ConstReader, ParseErrorView, body_text, lemma_body_end,
    lemma_body_step, list_reader, parse_body, program_text, reader_accepting_all, spec_parse,
    well_formed, good_header, seen,
};
use crate::text::{
    first_index, is_ascii_ws, lemma_first_index, lemma_first_index_unique, lines, nl, strip_cr, tokens,
    ws,
};

verus! {

/// No character of `s` is ASCII whitespace, and there is at least one: `s` is one token.
pub open spec fn is_token(s: Seq<char>) -> bool {
    &&& s.len() > 0
    &&& forall|i: int| 0 <= i < s.len() ==> !is_ascii_ws(#[trigger] s[i])
}

proof fn lemma_hex_char(d: nat)
    requires
        d < 16,
    ensures
        hex_digit(hex_char(d)) == Some(d),
        !is_ascii_ws(hex_char(d)),
        hex_char(d) != '+',
{
}

proof fn lemma_hex_text(n: nat)
    ensures
        hex_text(n).len() >= 1,
        all_hex_digits(hex_text(n)),
        is_token(hex_text(n)),
        hex_text(n)[0] != '+',
        hex_value(hex_text(n)) == n,
    decreases n,
{
    if n < 16 {
        lemma_hex_char(n);
        assert(hex_text(n).drop_last() =~= Seq::<char>::empty());
        assert(hex_value(Seq::<char>::empty()) == 0);
        assert(hex_value(hex_text(n)) == hex_value(hex_text(n).drop_last()) * 16 + n);
    } else {
        lemma_hex_text(n / 16);
        lemma_hex_char(n % 16);
        let t = hex_text(n);
        assert(t.drop_last() =~= hex_text(n / 16));
        assert(t.last() == hex_char(n % 16));
        assert(hex_value(t) == hex_value(hex_text(n / 16)) * 16 + n % 16);
        assert((n / 16) * 16 + n % 16 == n);
        assert forall|i: int| 0 <= i < t.len() implies (#[trigger] hex_digit(t[i])) is Some by {
            if i < t.len() - 1 {
                assert(t[i] == hex_text(n / 16)[i]);
            }
        }
        assert forall|i: int| 0 <= i < t.len() implies !is_ascii_ws(#[trigger] t[i]) by {
            if i < t.len() - 1 {
                assert(t[i] == hex_text(n / 16)[i]);
            }
        }
    }
}

/// Reading `_` and the hexadecimal text of `n` gives `n`.
pub proof fn lemma_hex_roundtrip(n: u16)
    ensures
        spec_hex(seq!['_'] + hex_text(n as nat)) == Ok::<u16, crate::expr::HexErrorView>(n),
{
    lemma_hex_text(n as nat);
    let t = seq!['_'] + hex_text(n as nat);
    assert(t.drop_first() =~= hex_text(n as nat));
    assert(radix_digits(t.drop_first()) == hex_text(n as nat));
}


/// The upper case hexadecimal digit for `d < 16`.
pub open spec fn hex_char_upper(d: nat) -> char {
    if d < 10 {
        ('0' as int + d) as char
    } else {
        ('A' as int + d - 10) as char
    }
}

/// `n` in upper case hexadecimal, without leading zeros (as `{n:X}` formats it).
pub open spec fn hex_text_upper(n: nat) -> Seq<char>
    decreases n,
{
    if n < 16 {
        seq![hex_char_upper(n)]
    } else {
        hex_text_upper(n / 16).push(hex_char_upper(n % 16))
    }
}

/// `z` zero digits.
pub open spec fn zeros(z: nat) -> Seq<char> {
    Seq::new(z, |i: int| '0')
}

proof fn lemma_hex_text_upper(n: nat)
    ensures
        hex_text_upper(n).len() >= 1,
        all_hex_digits(hex_text_upper(n)),
        hex_value(hex_text_upper(n)) == n,
    decreases n,
{
    if n < 16 {
        assert(hex_digit(hex_char_upper(n)) == Some(n));
        assert(hex_text_upper(n).drop_last() =~= Seq::<char>::empty());
        assert(hex_value(Seq::<char>::empty()) == 0);
        assert(hex_value(hex_text_upper(n)) == hex_value(hex_text_upper(n).drop_last()) * 16 + n);
    } else {
        lemma_hex_text_upper(n / 16);
        let d = n % 16;
        assert(hex_digit(hex_char_upper(d)) == Some(d));
        let t = hex_text_upper(n);
        assert(t.drop_last() =~= hex_text_upper(n / 16));
        assert(t.last() == hex_char_upper(d));
        assert(hex_value(t) == hex_value(hex_text_upper(n / 16)) * 16 + d);
        assert((n / 16) * 16 + n % 16 == n);
        assert forall|i: int| 0 <= i < t.len() implies (#[trigger] hex_digit(t[i])) is Some by {
            if i < t.len() - 1 {
                assert(t[i] == hex_text_upper(n / 16)[i]);
            }
        }
    }
}

proof fn lemma_zeros_value(z: nat)
    ensures
        hex_value(zeros(z)) == 0,
        all_hex_digits(zeros(z)),
    decreases z,
{
    if z > 0 {
        lemma_zeros_value((z - 1) as nat);
        assert(zeros(z).drop_last() =~= zeros((z - 1) as nat));
        assert(hex_digit(zeros(z).last()) == Some(0nat));
    }
    assert forall|i: int| 0 <= i < zeros(z).len() implies (#[trigger] hex_digit(zeros(z)[i])) is Some by {
        assert(zeros(z)[i] == '0');
    }
}

proof fn lemma_padded_value(z: nat, d: Seq<char>)
    requires
        all_hex_digits(d),
    ensures
        hex_value(zeros(z) + d) == hex_value(d),
        all_hex_digits(zeros(z) + d),
    decreases d.len(),
{
    let t = zeros(z) + d;
    lemma_zeros_value(z);
    if d.len() == 0 {
        assert(t =~= zeros(z));
    } else {
        assert forall|i: int| 0 <= i < d.drop_last().len() implies (#[trigger] hex_digit(
            d.drop_last()[i],
        )) is Some by {
            assert(d.drop_last()[i] == d[i]);
        }
        lemma_padded_value(z, d.drop_last());
        assert(t.drop_last() =~= zeros(z) + d.drop_last());
        assert(t.last() == d.last());
    }
    assert forall|i: int| 0 <= i < t.len() implies (#[trigger] hex_digit(t[i])) is Some by {
        if i < z {
            assert(t[i] == zeros(z)[i]);
        } else {
            assert(t[i] == d[i - z]);
        }
    }
}

/// Reading `_` followed by the hexadecimal text of `n`, in lower or upper case, after any
/// number of leading zeros, gives `n` (as `_{n:x}`, `_{n:X}` and `_{n:04x}` write it).
pub proof fn lemma_hex_roundtrip_padded(n: u16, z: nat)
    ensures
        spec_hex(seq!['_'] + zeros(z) + hex_text(n as nat)) == Ok::<u16, crate::expr::HexErrorView>(n),
        spec_hex(seq!['_'] + zeros(z) + hex_text_upper(n as nat)) == Ok::<u16, crate::expr::HexErrorView>(n),
{
    lemma_hex_text(n as nat);
    lemma_hex_text_upper(n as nat);
    let lower = zeros(z) + hex_text(n as nat);
    let upper = zeros(z) + hex_text_upper(n as nat);
    lemma_padded_value(z, hex_text(n as nat));
    lemma_padded_value(z, hex_text_upper(n as nat));
    let tl = seq!['_'] + zeros(z) + hex_text(n as nat);
    let tu = seq!['_'] + zeros(z) + hex_text_upper(n as nat);
    assert(tl.drop_first() =~= lower);
    assert(tu.drop_first() =~= upper);
    assert(hex_digit(lower[0]) is Some);
    assert(hex_digit(upper[0]) is Some);
    assert(radix_digits(tl.drop_first()) == lower);
    assert(radix_digits(tu.drop_first()) == upper);
}

proof fn lemma_tokens_single(w: Seq<char>)
    requires
        is_token(w),
    ensures
        tokens(w) == seq![w],
{
    crate::text::lemma_first_index_none(w, ws());
}

proof fn lemma_tokens_cons(w: Seq<char>, rest: Seq<char>)
    requires
        is_token(w),
    ensures
        tokens(w + seq![' '] + rest) == seq![w] + tokens(rest),
{
    let s = w + seq![' '] + rest;
    assert forall|j: int| 0 <= j < w.len() implies !(ws())(#[trigger] s[j]) by {
        assert(s[j] == w[j]);
    }
    assert(s[w.len() as int] == ' ');
    lemma_first_index_unique(s, ws(), w.len() as int);
    assert(s.take(w.len() as int) =~= w);
    let t = s.skip(w.len() as int);
    assert(t =~= seq![' '] + rest);
    assert(t.drop_first() =~= rest);
    assert(is_ascii_ws(t[0]));
    assert(tokens(t) == tokens(rest));
    assert(!is_ascii_ws(s[0]));
    assert(tokens(s) == seq![s.take(w.len() as int)] + tokens(t));
}

/// `_` and hexadecimal digits form one token.
proof fn lemma_hex_token(n: nat)
    ensures
        is_token(seq!['_'] + hex_text(n)),
{
    lemma_hex_text(n);
    let t = seq!['_'] + hex_text(n);
    assert forall|i: int| 0 <= i < t.len() implies !is_ascii_ws(#[trigger] t[i]) by {
        if i > 0 {
            assert(t[i] == hex_text(n)[i - 1]);
        }
    }
}

/// The tokens of the text of an expression.
pub open spec fn expr_tokens(e: Expr, ct: Seq<char>) -> Seq<Seq<char>> {
    match e {
        Expr::VarX => seq![kw_var_x()],
        Expr::VarY => seq![kw_var_y()],
        Expr::Const(_) => seq![kw_const(), ct],
        Expr::Dyad(op, x, y) => seq![
            dyad_name(op),
            seq!['_'] + hex_text(x as nat),
            seq!['_'] + hex_text(y as nat),
        ],
        Expr::Monad(op, x) => seq![monad_name(op), seq!['_'] + hex_text(x as nat)],
    }
}

proof fn lemma_expr_tokens(e: Expr, ct: Seq<char>)
    requires
        e is Const ==> is_token(ct),
    ensures
        tokens(expr_text(e, ct)) == expr_tokens(e, ct),
{
    match e {
        Expr::VarX => {
            lemma_tokens_single(kw_var_x());
        },
        Expr::VarY => {
            lemma_tokens_single(kw_var_y());
        },
        Expr::Const(_) => {
            lemma_tokens_cons(kw_const(), ct);
            lemma_tokens_single(ct);
        },
        Expr::Dyad(op, x, y) => {
            let hx = seq!['_'] + hex_text(x as nat);
            let hy = seq!['_'] + hex_text(y as nat);
            lemma_hex_token(x as nat);
            lemma_hex_token(y as nat);
            assert(expr_text(e, ct) =~= dyad_name(op) + seq![' '] + (hx + seq![' '] + hy));
            lemma_tokens_cons(dyad_name(op), hx + seq![' '] + hy);
            lemma_tokens_cons(hx, hy);
            lemma_tokens_single(hy);
            assert(seq![dyad_name(op)] + (seq![hx] + seq![hy]) =~= expr_tokens(e, ct));
        },
        Expr::Monad(op, x) => {
            let hx = seq!['_'] + hex_text(x as nat);
            lemma_hex_token(x as nat);
            assert(expr_text(e, ct) =~= monad_name(op) + seq![' '] + hx);
            lemma_tokens_cons(monad_name(op), hx);
            lemma_tokens_single(hx);
        },
    }
}

#[verifier::rlimit(60)]
#[verifier::spinoff_prover]
proof fn lemma_dyad_roundtrip(op: Dyad, x: u16, y: u16, ct: Seq<char>, c: Option<u32>)
    ensures
        spec_parse_expr(expr_text(Expr::Dyad(op, x, y), ct), c) == Ok::<Expr, ExprErrorView>(
            Expr::Dyad(op, x, y),
        ),
        const_token(expr_text(Expr::Dyad(op, x, y), ct)) is None,
{
    let e = Expr::Dyad(op, x, y);
    lemma_expr_tokens(e, ct);
    let ts = tokens(expr_text(e, ct));
    lemma_name_roundtrip(op, Monad::Neg);
    assert(ts.len() == 3 && ts[0] == dyad_name(op));
    assert(dyad_name(op) != kw_var_x());
    assert(dyad_name(op) != kw_var_y());
    assert(dyad_name(op) != kw_const());
    lemma_hex_roundtrip(x);
    lemma_hex_roundtrip(y);
}

proof fn lemma_monad_roundtrip(op: Monad, x: u16, ct: Seq<char>, c: Option<u32>)
    ensures
        spec_parse_expr(expr_text(Expr::Monad(op, x), ct), c) == Ok::<Expr, ExprErrorView>(
            Expr::Monad(op, x),
        ),
        const_token(expr_text(Expr::Monad(op, x), ct)) is None,
{
    let e = Expr::Monad(op, x);
    lemma_expr_tokens(e, ct);
    let ts = tokens(expr_text(e, ct));
    lemma_name_roundtrip(Dyad::Add, op);
    assert(ts.len() == 2 && ts[0] == monad_name(op));
    assert(monad_name(op) != kw_var_x());
    assert(monad_name(op) != kw_var_y());
    assert(monad_name(op) != kw_const());
    assert(monad_name(op) != dyad_name(Dyad::Add));
    assert(monad_name(op) != dyad_name(Dyad::Sub));
    assert(monad_name(op) != dyad_name(Dyad::Mul));
    assert(monad_name(op) != dyad_name(Dyad::Max));
    assert(monad_name(op) != dyad_name(Dyad::Min));
    assert(dyad_of_name(monad_name(op)) is None);
    lemma_hex_roundtrip(x);
}

/// Reading back the text of an expression gives the expression, where a constant's value text
/// is one token that reads as the constant's bits.
pub proof fn lemma_expr_roundtrip(e: Expr, ct: Seq<char>, c: Option<u32>)
    requires
        e matches Expr::Const(b) ==> is_token(ct) && c == Some(b),
    ensures
        spec_parse_expr(expr_text(e, ct), c) == Ok::<Expr, ExprErrorView>(e),
        const_token(expr_text(e, ct)) == if e is Const {
            Some(ct)
        } else {
            None::<Seq<char>>
        },
{
    match e {
        Expr::Dyad(op, x, y) => lemma_dyad_roundtrip(op, x, y, ct, c),
        Expr::Monad(op, x) => lemma_monad_roundtrip(op, x, ct, c),
        _ => {
            lemma_expr_tokens(e, ct);
            assert(kw_var_x() != kw_var_y());
            assert(kw_var_x() != kw_const());
            assert(kw_var_y() != kw_const());
        },
    }
}


/// `s` holds no line feed, and does not end with a carriage return: it reads as one line.
pub open spec fn is_clean_line(s: Seq<char>) -> bool {
    &&& forall|i: int| 0 <= i < s.len() ==> #[trigger] s[i] != '\n'
    &&& !(s.len() > 0 && s.last() == '\r')
}

/// Splitting into lines after a line feed splits both parts.
pub proof fn lemma_lines_append(p: Seq<char>, q: Seq<char>)
    requires
        p.len() == 0 || p.last() == '\n',
    ensures
        lines(p + q) == lines(p) + lines(q),
    decreases p.len(),
{
    if p.len() == 0 {
        assert(p + q =~= q);
        assert(lines(p) =~= Seq::<Seq<char>>::empty());
        assert(lines(p) + lines(q) =~= lines(q));
    } else {
        lemma_first_index(p, nl());
        assert((nl())(p[p.len() - 1]));
        let i = first_index(p, nl())->Some_0;
        let pq = p + q;
        assert forall|j: int| 0 <= j < i implies !(nl())(#[trigger] pq[j]) by {
            assert(pq[j] == p[j]);
            assert(!(nl())(p[j]));
        }
        assert(pq[i] == p[i]);
        lemma_first_index_unique(pq, nl(), i);
        assert(pq.take(i) =~= p.take(i));
        assert(pq.skip(i + 1) =~= p.skip(i + 1) + q);
        let r = p.skip(i + 1);
        assert(r.len() == 0 || r.last() == p.last());
        lemma_lines_append(r, q);
        assert(lines(pq) == seq![strip_cr(p.take(i))] + lines(r + q));
        assert(lines(p) == seq![strip_cr(p.take(i))] + lines(r));
        assert(lines(pq) =~= lines(p) + lines(q));
    }
}

/// A clean line followed by a line feed reads as that line.
pub proof fn lemma_lines_one(l: Seq<char>)
    requires
        is_clean_line(l),
    ensures
        lines(l + seq!['\n']) == seq![l],
{
    let s = l + seq!['\n'];
    assert forall|j: int| 0 <= j < l.len() implies !(nl())(#[trigger] s[j]) by {
        assert(s[j] == l[j]);
    }
    lemma_first_index_unique(s, nl(), l.len() as int);
    assert(s.take(l.len() as int) =~= l);
    assert(s.skip(l.len() as int + 1) =~= Seq::<char>::empty());
    assert(lines(Seq::<char>::empty()) =~= Seq::<Seq<char>>::empty());
    assert(strip_cr(l) == l);
    assert(lines(s) =~= seq![l]);
}


/// Every character of `s` is a space or no whitespace at all.
pub open spec fn spaced(s: Seq<char>) -> bool {
    forall|i: int| 0 <= i < s.len() ==> #[trigger] s[i] == ' ' || !is_ascii_ws(s[i])
}

proof fn lemma_spaced_concat(a: Seq<char>, b: Seq<char>)
    requires
        spaced(a),
        spaced(b),
    ensures
        spaced(a + b),
{
    assert forall|i: int| 0 <= i < (a + b).len() implies #[trigger] (a + b)[i] == ' ' || !is_ascii_ws((a + b)[i]) by {
        if i < a.len() {
            assert((a + b)[i] == a[i]);
        } else {
            assert((a + b)[i] == b[i - a.len()]);
        }
    }
}

proof fn lemma_token_spaced(t: Seq<char>)
    requires
        is_token(t),
    ensures
        spaced(t),
        !is_ascii_ws(t.last()),
{
}

/// The text of an expression holds no whitespace but single spaces, and ends with no
/// whitespace.
proof fn lemma_expr_text_spaced(e: Expr, ct: Seq<char>)
    requires
        e is Const ==> is_token(ct),
    ensures
        spaced(expr_text(e, ct)),
        expr_text(e, ct).len() > 0,
        !is_ascii_ws(expr_text(e, ct).last()),
{
    let sp = seq![' '];
    let su = seq![' ', '_'];
    assert(spaced(sp));
    assert(spaced(su));
    match e {
        Expr::VarX => {
            assert(spaced(kw_var_x()));
        },
        Expr::VarY => {
            assert(spaced(kw_var_y()));
        },
        Expr::Const(_) => {
            assert(spaced(kw_const()));
            lemma_token_spaced(ct);
            lemma_spaced_concat(kw_const(), sp);
            lemma_spaced_concat(kw_const() + sp, ct);
        },
        Expr::Dyad(op, x, y) => {
            assert(spaced(dyad_name(op)));
            lemma_hex_text(x as nat);
            lemma_hex_text(y as nat);
            lemma_token_spaced(hex_text(x as nat));
            lemma_token_spaced(hex_text(y as nat));
            lemma_spaced_concat(dyad_name(op), su);
            lemma_spaced_concat(dyad_name(op) + su, hex_text(x as nat));
            lemma_spaced_concat(dyad_name(op) + su + hex_text(x as nat), su);
            lemma_spaced_concat(dyad_name(op) + su + hex_text(x as nat) + su, hex_text(y as nat));
        },
        Expr::Monad(op, x) => {
            assert(spaced(monad_name(op)));
            lemma_hex_text(x as nat);
            lemma_token_spaced(hex_text(x as nat));
            lemma_spaced_concat(monad_name(op), su);
            lemma_spaced_concat(monad_name(op) + su, hex_text(x as nat));
        },
    }
}

/// A line of a program's text is a clean line.
proof fn lemma_line_text_clean(i: nat, e: Expr, ct: Seq<char>)
    requires
        e is Const ==> is_token(ct),
    ensures
        is_clean_line(line_text(i, e, ct)),
        spaced(line_text(i, e, ct)),
{
    lemma_hex_text(i);
    lemma_token_spaced(hex_text(i));
    lemma_expr_text_spaced(e, ct);
    let u = seq!['_'];
    let sp = seq![' '];
    assert(spaced(u));
    assert(spaced(sp));
    lemma_spaced_concat(u, hex_text(i));
    lemma_spaced_concat(u + hex_text(i), sp);
    lemma_spaced_concat(u + hex_text(i) + sp, expr_text(e, ct));
    let l = line_text(i, e, ct);
    assert(l.last() == expr_text(e, ct).last());
}

/// Reading the `i`-th line of a program's text, where `k` constants came before.
proof fn lemma_line_roundtrip(i: nat, e: Expr, ct: Seq<char>, k: int, dec: ConstReader)
    requires
        i <= 0xffff,
        args_before(e, i as int),
        e is Const ==> is_token(ct) && dec(k, ct) is Some,
    ensures
        ({
            let r = spec_parse_line(line_text(i, e, ct), i as int, k, dec);
            &&& r.0 is Ok
            &&& r.1 == if e is Const {
                Some(ct)
            } else {
                None::<Seq<char>>
            }
            &&& (e matches Expr::Const(b) ==> dec(k, ct) == Some(b)) ==> r.0 == Ok::<
                Expr,
                ParseErrorView,
            >(e)
        }),
{
    let l = line_text(i, e, ct);
    let h = seq!['_'] + hex_text(i);
    lemma_hex_token(i);
    lemma_expr_text_spaced(e, ct);
    assert forall|j: int| 0 <= j < h.len() implies !(ws())(#[trigger] l[j]) by {
        assert(l[j] == h[j]);
    }
    assert(l[h.len() as int] == ' ');
    lemma_first_index_unique(l, ws(), h.len() as int);
    assert(l.take(h.len() as int) =~= h);
    lemma_hex_roundtrip(i as u16);
    assert(l.skip(h.len() as int + 1) =~= expr_text(e, ct));
    match e {
        Expr::Const(b) => {
            let v = dec(k, ct)->Some_0;
            lemma_expr_roundtrip(Expr::Const(v), ct, Some(v));
            assert(expr_text(Expr::Const(v), ct) == expr_text(e, ct));
        },
        _ => {
            lemma_expr_roundtrip(e, ct, None);
        },
    }
}


/// The number of constants among the first `i` expressions of `xs`.
pub open spec fn consts_before(xs: Seq<Expr>, i: int) -> int
    decreases i,
{
    if i <= 0 {
        0
    } else {
        consts_before(xs, i - 1) + if xs[i - 1] is Const {
            1int
        } else {
            0int
        }
    }
}

/// The values of the constants of `xs` from the `i`-th expression on, in order.
pub open spec fn const_values_from(xs: Seq<Expr>, i: int) -> Seq<Option<u32>>
    decreases xs.len() - i,
{
    if i < 0 || i >= xs.len() {
        seq![]
    } else {
        (match xs[i] {
            Expr::Const(b) => seq![Some(b)],
            _ => seq![],
        }) + const_values_from(xs, i + 1)
    }
}

/// The value texts of the constants of `xs` from the `i`-th expression on, in order, where
/// `texts[j]` is the value text of the `j`-th expression if it is a constant.
pub open spec fn const_texts_from(xs: Seq<Expr>, texts: Seq<Seq<char>>, i: int) -> Seq<Seq<char>>
    decreases xs.len() - i,
{
    if i < 0 || i >= xs.len() {
        seq![]
    } else {
        (if xs[i] is Const {
            seq![texts[i]]
        } else {
            seq![]
        }) + const_texts_from(xs, texts, i + 1)
    }
}

proof fn lemma_const_values_index(xs: Seq<Expr>, i: int)
    requires
        0 <= i <= xs.len(),
    ensures
        0 <= consts_before(xs, i) <= const_values_from(xs, 0).len(),
        const_values_from(xs, 0).skip(consts_before(xs, i)) == const_values_from(xs, i),
    decreases i,
{
    if i == 0 {
        assert(const_values_from(xs, 0).skip(0) =~= const_values_from(xs, 0));
    } else {
        lemma_const_values_index(xs, i - 1);
        let all = const_values_from(xs, 0);
        let c = consts_before(xs, i - 1);
        let d = if xs[i - 1] is Const { 1int } else { 0int };
        assert(const_values_from(xs, i - 1).len() >= d);
        assert(all.skip(c + d) =~= all.skip(c).skip(d));
        assert(const_values_from(xs, i - 1).skip(d) =~= const_values_from(xs, i));
    }
}

/// With the values of its constants listed in order, the `i`-th expression of `xs`, if a
/// constant, reads as its value.
proof fn lemma_list_reader_values(xs: Seq<Expr>, texts: Seq<Seq<char>>, i: int)
    requires
        0 <= i < xs.len(),
        xs[i] is Const,
    ensures
        xs[i] matches Expr::Const(b) && (list_reader(const_values_from(xs, 0)))(
            consts_before(xs, i),
            texts[i],
        ) == Some(b),
{
    lemma_const_values_index(xs, i);
    let all = const_values_from(xs, 0);
    let b = xs[i]->Const_0;
    assert(const_values_from(xs, i) == seq![Some(b)] + const_values_from(xs, i + 1));
    assert(const_values_from(xs, i)[0] == Some(b));
    assert(all.skip(consts_before(xs, i)).len() > 0);
    assert(all.skip(consts_before(xs, i))[0] == all[consts_before(xs, i)]);
}

/// Reading the expression lines of a program's text, `ls`, from the `i`-th on.
proof fn lemma_body_roundtrip(
    xs: Seq<Expr>,
    texts: Seq<Seq<char>>,
    ls: Seq<Seq<char>>,
    dec: ConstReader,
    i: int,
    acc: Seq<Expr>,
)
    requires
        ls.len() == xs.len(),
        texts.len() == xs.len(),
        xs.len() <= 0x10000,
        well_formed(xs),
        0 <= i <= xs.len(),
        forall|j: int| 0 <= j < ls.len() ==> #[trigger] ls[j] == line_text(j as nat, xs[j], texts[j]),
        forall|j: int|
            0 <= j < xs.len() && (#[trigger] xs[j]) is Const ==> is_token(texts[j]) && dec(
                consts_before(xs, j),
                texts[j],
            ) is Some,
    ensures
        parse_body(ls, i, consts_before(xs, i), dec, acc).0 is Ok,
        parse_body(ls, i, consts_before(xs, i), dec, acc).1 == const_texts_from(xs, texts, i),
        (forall|j: int|
            0 <= j < xs.len() ==> ((#[trigger] xs[j]) matches Expr::Const(b) ==> dec(
                consts_before(xs, j),
                texts[j],
            ) == Some(b))) ==> parse_body(ls, i, consts_before(xs, i), dec, acc).0 == Ok::<
            Seq<Expr>,
            ParseErrorView,
        >(acc + xs.skip(i)),
    decreases xs.len() - i,
{
    let k = consts_before(xs, i);
    if i == xs.len() {
        lemma_body_end(ls, i, k, dec, acc);
        assert(acc + xs.skip(i) =~= acc);
    } else {
        lemma_body_step(ls, i, k, dec, acc);
        assert(args_before(xs[i], i));
        lemma_line_roundtrip(i as nat, xs[i], texts[i], k, dec);
        let (r, ct) = spec_parse_line(ls[i], i, k, dec);
        let e = r->Ok_0;
        assert(consts_before(xs, i + 1) == if ct is Some { k + 1 } else { k });
        lemma_body_roundtrip(xs, texts, ls, dec, i + 1, acc.push(e));
        if forall|j: int|
            0 <= j < xs.len() ==> ((#[trigger] xs[j]) matches Expr::Const(b) ==> dec(
                consts_before(xs, j),
                texts[j],
            ) == Some(b)) {
            assert(e == xs[i]);
            assert(acc.push(e) + xs.skip(i + 1) =~= acc + xs.skip(i));
        }
    }
}

proof fn lemma_body_lines(xs: Seq<Expr>, texts: Seq<Seq<char>>, n: nat)
    requires
        n <= xs.len(),
        texts.len() == xs.len(),
        forall|j: int| 0 <= j < xs.len() && (#[trigger] xs[j]) is Const ==> is_token(texts[j]),
    ensures
        lines(body_text(xs, texts, n)) == Seq::new(n, |j: int| line_text(j as nat, xs[j], texts[j])),
        body_text(xs, texts, n).len() == 0 || body_text(xs, texts, n).last() == '\n',
    decreases n,
{
    if n == 0 {
        assert(lines(Seq::<char>::empty()) =~= Seq::<Seq<char>>::empty());
        assert(body_text(xs, texts, 0) =~= Seq::<char>::empty());
        assert(Seq::new(0, |j: int| line_text(j as nat, xs[j], texts[j])) =~= Seq::<Seq<char>>::empty());
    } else {
        let m = (n - 1) as nat;
        lemma_body_lines(xs, texts, m);
        let l = line_text(m, xs[m as int], texts[m as int]);
        lemma_line_text_clean(m, xs[m as int], texts[m as int]);
        lemma_lines_append(body_text(xs, texts, m), l + seq!['\n']);
        lemma_lines_one(l);
        assert(body_text(xs, texts, n) =~= body_text(xs, texts, m) + (l + seq!['\n']));
        assert(Seq::new(n, |j: int| line_text(j as nat, xs[j], texts[j])) =~= Seq::new(
            m,
            |j: int| line_text(j as nat, xs[j], texts[j]),
        ) + seq![l]);
    }
}

/// The header `h` fits on the header line: it holds no line feed and does not end with a
/// carriage return.
pub open spec fn header_fits(h: Seq<char>) -> bool {
    &&& forall|i: int| 0 <= i < h.len() ==> #[trigger] h[i] != '\n'
    &&& !(h.len() > 0 && h.last() == '\r')
}

/// Writing a program as text and reading it back gives the program: the constants' value
/// tokens read are the texts their values were written with, and where each of them reads as
/// its constant's bits, the header and the expressions read are those written.
///
/// This holds of every program that parsing can give: a header that fits on one line, at most
/// `0x10000` expressions (their indices must be `u16`s), each reading only earlier ones, and
/// each constant's value written as one token.
pub proof fn lemma_program_roundtrip(h: Seq<char>, xs: Seq<Expr>, texts: Seq<Seq<char>>)
    requires
        header_fits(h),
        well_formed(xs),
        xs.len() <= 0x10000,
        texts.len() == xs.len(),
        forall|j: int| 0 <= j < xs.len() && (#[trigger] xs[j]) is Const ==> is_token(texts[j]),
    ensures
        spec_parse(program_text(h, xs, texts), reader_accepting_all()).1 == const_texts_from(
            xs,
            texts,
            0,
        ),
        spec_parse(program_text(h, xs, texts), list_reader(const_values_from(xs, 0))).0 == Ok::<
            (Seq<char>, Seq<Expr>),
            ParseErrorView,
        >((h, xs)),
{
    let hl = seq!['#', ' '] + h;
    let p = hl + seq!['\n'];
    let body = body_text(xs, texts, xs.len());
    let ls_body = Seq::new(xs.len(), |j: int| line_text(j as nat, xs[j], texts[j]));
    assert(program_text(h, xs, texts) =~= p + body);
    lemma_lines_append(p, body);
    assert(is_clean_line(hl)) by {
        assert forall|i: int| 0 <= i < hl.len() implies #[trigger] hl[i] != '\n' by {
            if i >= 2 {
                assert(hl[i] == h[i - 2]);
            }
        }
        if h.len() > 0 {
            assert(hl.last() == h.last());
        }
    }
    lemma_lines_one(hl);
    lemma_body_lines(xs, texts, xs.len());
    let ls = lines(program_text(h, xs, texts));
    assert(ls =~= seq![hl] + ls_body);
    assert(ls[0] == hl);
    assert(ls.skip(1) =~= ls_body);
    assert(hl.skip(2) =~= h);
    assert(consts_before(xs, 0) == 0);
    lemma_body_roundtrip(xs, texts, ls_body, reader_accepting_all(), 0, seq![]);
    let values = list_reader(const_values_from(xs, 0));
    assert forall|j: int|
        0 <= j < xs.len() && (#[trigger] xs[j]) is Const implies is_token(texts[j]) && values(
            consts_before(xs, j),
            texts[j],
        ) is Some by {
        lemma_list_reader_values(xs, texts, j);
    }
    assert forall|j: int|
        0 <= j < xs.len() implies ((#[trigger] xs[j]) matches Expr::Const(b) ==> values(
            consts_before(xs, j),
            texts[j],
        ) == Some(b)) by {
        if xs[j] is Const {
            lemma_list_reader_values(xs, texts, j);
        }
    }
    lemma_body_roundtrip(xs, texts, ls_body, values, 0, seq![]);
    assert(Seq::<Expr>::empty() + xs.skip(0) =~= xs);
}


/// The reader that reads each constant's value token with `f`, whatever its position.
pub open spec fn token_reader(f: spec_fn(Seq<char>) -> Option<u32>) -> ConstReader {
    |k: int, t: Seq<char>| f(t)
}

/// Reading a line depends on the constant reader only through what it gives for the line's
/// constant, if any; and the constant's token does not depend on it at all.
proof fn lemma_line_reader(l: Seq<char>, line: int, k: int, d1: ConstReader, d2: ConstReader)
    ensures
        spec_parse_line(l, line, k, d1).1 == spec_parse_line(l, line, k, d2).1,
        (spec_parse_line(l, line, k, d1).1 matches Some(t) ==> d1(k, t) == d2(k, t))
            ==> spec_parse_line(l, line, k, d1) == spec_parse_line(l, line, k, d2),
{
}

/// Reading the lines from the `line`-th on with the values listed in `vals` gives what reading
/// them with `f` gives, where the values from the `k`-th on are what `f` gives for the tokens
/// that reading them needs.
proof fn lemma_body_readers(
    ls: Seq<Seq<char>>,
    line: int,
    k: int,
    vals: Seq<Option<u32>>,
    f: spec_fn(Seq<char>) -> Option<u32>,
    acc: Seq<Expr>,
    acc_all: Seq<Expr>,
)
    requires
        0 <= k,
        0 <= line,
        ({
            let toks = parse_body(ls, line, k, reader_accepting_all(), acc_all).1;
            &&& k + toks.len() <= vals.len()
            &&& forall|m: int| 0 <= m < toks.len() ==> vals[k + m] == f(#[trigger] toks[m])
        }),
    ensures
        parse_body(ls, line, k, list_reader(vals), acc).0 == parse_body(
            ls,
            line,
            k,
            token_reader(f),
            acc,
        ).0,
    decreases ls.len() - line,
{
    let all = reader_accepting_all();
    let dl = list_reader(vals);
    let dt = token_reader(f);
    if line >= ls.len() {
        lemma_body_end(ls, line, k, dl, acc);
        lemma_body_end(ls, line, k, dt, acc);
    } else {
        lemma_body_step(ls, line, k, dl, acc);
        lemma_body_step(ls, line, k, dt, acc);
        lemma_body_step(ls, line, k, all, acc_all);
        lemma_line_reader(ls[line], line, k, dl, all);
        lemma_line_reader(ls[line], line, k, dt, all);
        let (ra, ct) = spec_parse_line(ls[line], line, k, all);
        let toks = parse_body(ls, line, k, all, acc_all).1;
        if let Some(t) = ct {
            assert(toks[0] == t);
            assert(vals[k + 0] == f(toks[0]));
            assert(dl(k, t) == dt(k, t));
        }
        lemma_line_reader(ls[line], line, k, dl, dt);
        let (r, ct2) = spec_parse_line(ls[line], line, k, dl);
        if let Ok(e) = r {
            if let Ok(ea) = ra {
                let nk = if ct is Some { k + 1 } else { k };
                let rest = parse_body(ls, line + 1, nk, all, acc_all.push(ea)).1;
                assert(toks == seen(ct) + rest);
                assert forall|m: int| 0 <= m < rest.len() implies vals[nk + m] == f(#[trigger] rest[m]) by {
                    let mm = m + seen(ct).len();
                    assert(toks[mm] == rest[m]);
                }
                lemma_body_readers(ls, line + 1, nk, vals, f, acc.push(e), acc_all.push(ea));
            } else {
                // Accepting every constant value can only make a line readable, never less.
                assert(false);
            }
        }
    }
}

/// Reading a program in two passes, as [`crate::expr::parse`] and
/// [`crate::expr::const_tokens`] let a caller do, is reading it directly: listing what `f`
/// reads each of the value tokens that [`crate::expr::const_tokens`] gives as, and parsing with
/// those values, gives what parsing with `f` reading each constant's value token gives.
pub proof fn lemma_two_pass_parse(s: Seq<char>, f: spec_fn(Seq<char>) -> Option<u32>)
    ensures
        spec_parse(s, list_reader(spec_parse(s, reader_accepting_all()).1.map_values(f))).0
            == spec_parse(s, token_reader(f)).0,
{
    let toks = spec_parse(s, reader_accepting_all()).1;
    let vals = toks.map_values(f);
    let ls = lines(s);
    if ls.len() > 0 && good_header(ls[0]) {
        lemma_body_readers(ls.skip(1), 0, 0, vals, f, seq![], seq![]);
    }
}

} // verus!
