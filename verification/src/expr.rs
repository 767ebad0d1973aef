//! Expressions and the programs made out of them: their packing into a `u64`, their textual
//! form, and the parser that reads a program from text.
use vstd::prelude::*;
use crate::text::{chars_of, push_chars, first_index, is_ascii_ws, is_ws_char, lemma_first_index_none, lemma_first_index_unique, lines, next_line, ws, join_space, push_span, span_is, string_from, string_of_span, token_spans, tokens};

verus! {

/// A dyadic (A.K.A. binary) operation.
#[derive(Clone, Copy, PartialEq, Eq, Structural, PartialOrd, Ord, Hash, Debug)]
pub enum Dyad {
    Add,
    Sub,
    Mul,
    Max,
    Min,
}

/// A monadic (A.K.A. unary) operation.
#[derive(Clone, Copy, PartialEq, Eq, Structural, PartialOrd, Ord, Hash, Debug)]
pub enum Monad {
    Neg,
    Square,
    Sqrt,
}

/// An expression is either:
/// - the input variable _x_,
/// - the input variable _y_,
/// - a constant single precision floating point value, held as its IEEE-754 bit pattern,
/// - a [`Dyad`] (A.K.A. binary operation),
/// - or a [`Monad`] (A.K.A. unary operation).
///
/// For the latter two, the `u16`s are indices of earlier expressions in a [`Program`].
///
/// Two expressions are equal exactly when their packings into a `u64` are equal (see
/// [`Expr::to_u64`]); holding a constant by its bits makes that the structural equality.
#[derive(Clone, Copy, PartialEq, Eq, Structural, Hash, Debug)]
pub enum Expr {
    VarX,
    VarY,
    Const(u32),
    Dyad(Dyad, u16, u16),
    Monad(Monad, u16),
}

/// The 3 bit code of a dyadic operation in the packed form.
pub open spec fn dyad_code(op: Dyad) -> u64 {
    match op {
        Dyad::Add => 0,
        Dyad::Sub => 1,
        Dyad::Mul => 2,
        Dyad::Max => 3,
        Dyad::Min => 4,
    }
}

/// The 3 bit code of a monadic operation in the packed form.
pub open spec fn monad_code(op: Monad) -> u64 {
    match op {
        Monad::Neg => 0,
        Monad::Square => 1,
        Monad::Sqrt => 2,
    }
}

/// Packing an [`Expr`] into a `u64`:
/// ```text
/// | 32 bit payload | 26 zero bits (junk) | 3 bit op | 3 bit tag |
/// ```
/// with tags `0` to `4` for `VarX`, `VarY`, `Const`, `Dyad` and `Monad`; the op code of a dyad or
/// monad; and as payload the bits of a constant, `x | y << 16` for a dyad and `x` for a monad.
pub open spec fn spec_to_u64(e: Expr) -> u64 {
    match e {
        Expr::VarX => 0,
        Expr::VarY => 1,
        Expr::Const(b) => 2u64 | ((b as u64) << 32u64),
        Expr::Dyad(op, x, y) => 3u64 | (dyad_code(op) << 3u64) | ((x as u64) << 32u64) | ((y as u64) << 48u64),
        Expr::Monad(op, x) => 4u64 | (monad_code(op) << 3u64) | ((x as u64) << 32u64),
    }
}

/// Errors that can arise when trying to read a `u64` as an [`Expr`].
#[derive(Clone, Copy, PartialEq, Eq, Structural, Debug)]
pub enum ExprU64Error {
    Junk(u64),
    NzX(u64),
    NzY(u64),
    NzC(u64),
    DyadOp(u64),
    NzM(u64),
    MonadOp(u64),
    Tag(u64),
}

/// What reading `n` as an [`Expr`] gives: the inverse of [`spec_to_u64`] on packed
/// expressions, and otherwise the first defect found, in this order: junk bits, the section that
/// must be zero for the tag, an unknown op, a nonzero high half of a monad's payload, an unknown
/// tag.
pub open spec fn spec_from_u64(n: u64) -> Result<Expr, ExprU64Error> {
    let junk = (n >> 6u64) & 0x3ff_ffffu64;
    let tag = n & 7u64;
    let op = (n >> 3u64) & 7u64;
    let payload = n >> 32u64;
    let x = (payload & 0xffffu64) as u16;
    let y = (payload >> 16u64) as u16;
    if junk != 0 {
        Err(ExprU64Error::Junk(junk))
    } else if tag == 0 {
        if op == 0 && payload == 0 {
            Ok(Expr::VarX)
        } else {
            Err(ExprU64Error::NzX((op << 3u64) | (payload << 32u64)))
        }
    } else if tag == 1 {
        if op == 0 && payload == 0 {
            Ok(Expr::VarY)
        } else {
            Err(ExprU64Error::NzY((op << 3u64) | (payload << 32u64)))
        }
    } else if tag == 2 {
        if op == 0 {
            Ok(Expr::Const(payload as u32))
        } else {
            Err(ExprU64Error::NzC((op << 3u64) | (payload << 32u64)))
        }
    } else if tag == 3 {
        if op == 0 {
            Ok(Expr::Dyad(Dyad::Add, x, y))
        } else if op == 1 {
            Ok(Expr::Dyad(Dyad::Sub, x, y))
        } else if op == 2 {
            Ok(Expr::Dyad(Dyad::Mul, x, y))
        } else if op == 3 {
            Ok(Expr::Dyad(Dyad::Max, x, y))
        } else if op == 4 {
            Ok(Expr::Dyad(Dyad::Min, x, y))
        } else {
            Err(ExprU64Error::DyadOp(op << 3u64))
        }
    } else if tag == 4 {
        if y != 0 {
            Err(ExprU64Error::NzM((y as u64) << 48u64))
        } else if op == 0 {
            Ok(Expr::Monad(Monad::Neg, x))
        } else if op == 1 {
            Ok(Expr::Monad(Monad::Square, x))
        } else if op == 2 {
            Ok(Expr::Monad(Monad::Sqrt, x))
        } else {
            Err(ExprU64Error::MonadOp(op << 3u64))
        }
    } else {
        Err(ExprU64Error::Tag(tag))
    }
}

impl Dyad {
    /// The op code of this operation.
    pub fn code(self) -> (c: u64)
        ensures
            c == dyad_code(self),
    {
        match self {
            Dyad::Add => 0,
            Dyad::Sub => 1,
            Dyad::Mul => 2,
            Dyad::Max => 3,
            Dyad::Min => 4,
        }
    }
}

impl Monad {
    /// The op code of this operation.
    pub fn code(self) -> (c: u64)
        ensures
            c == monad_code(self),
    {
        match self {
            Monad::Neg => 0,
            Monad::Square => 1,
            Monad::Sqrt => 2,
        }
    }
}

impl Expr {
    /// Pack this expression into a `u64`.
    pub fn to_u64(&self) -> (n: u64)
        ensures
            n == spec_to_u64(*self),
    {
        match *self {
            Expr::VarX => 0,
            Expr::VarY => 1,
            Expr::Const(b) => 2u64 | ((b as u64) << 32u64),
            Expr::Dyad(op, x, y) => 3u64 | (op.code() << 3u64) | ((x as u64) << 32u64) | ((y as u64) << 48u64),
            Expr::Monad(op, x) => 4u64 | (op.code() << 3u64) | ((x as u64) << 32u64),
        }
    }

    /// Read a `u64` as an [`Expr`].
    pub fn try_from_u64(n: u64) -> (r: Result<Expr, ExprU64Error>)
        ensures
            r == spec_from_u64(n),
    {
        let junk = (n >> 6u64) & 0x3ff_ffffu64;
        let tag = n & 7u64;
        let op = (n >> 3u64) & 7u64;
        let payload = n >> 32u64;
        let x = (payload & 0xffffu64) as u16;
        let y = (payload >> 16u64) as u16;
        if junk != 0 {
            Err(ExprU64Error::Junk(junk))
        } else if tag == 0 {
            if op == 0 && payload == 0 {
                Ok(Expr::VarX)
            } else {
                Err(ExprU64Error::NzX((op << 3u64) | (payload << 32u64)))
            }
        } else if tag == 1 {
            if op == 0 && payload == 0 {
                Ok(Expr::VarY)
            } else {
                Err(ExprU64Error::NzY((op << 3u64) | (payload << 32u64)))
            }
        } else if tag == 2 {
            if op == 0 {
                Ok(Expr::Const(payload as u32))
            } else {
                Err(ExprU64Error::NzC((op << 3u64) | (payload << 32u64)))
            }
        } else if tag == 3 {
            if op == 0 {
                Ok(Expr::Dyad(Dyad::Add, x, y))
            } else if op == 1 {
                Ok(Expr::Dyad(Dyad::Sub, x, y))
            } else if op == 2 {
                Ok(Expr::Dyad(Dyad::Mul, x, y))
            } else if op == 3 {
                Ok(Expr::Dyad(Dyad::Max, x, y))
            } else if op == 4 {
                Ok(Expr::Dyad(Dyad::Min, x, y))
            } else {
                Err(ExprU64Error::DyadOp(op << 3u64))
            }
        } else if tag == 4 {
            if y != 0 {
                Err(ExprU64Error::NzM((y as u64) << 48u64))
            } else if op == 0 {
                Ok(Expr::Monad(Monad::Neg, x))
            } else if op == 1 {
                Ok(Expr::Monad(Monad::Square, x))
            } else if op == 2 {
                Ok(Expr::Monad(Monad::Sqrt, x))
            } else {
                Err(ExprU64Error::MonadOp(op << 3u64))
            }
        } else {
            Err(ExprU64Error::Tag(tag))
        }
    }
}

impl From<Expr> for u64 {
    /// Pack an expression into a `u64` (see [`Expr::to_u64`]).
    fn from(x: Expr) -> (r: u64) {
        x.to_u64()
    }
}

impl vstd::std_specs::convert::FromSpecImpl<Expr> for u64 {
    open spec fn obeys_from_spec() -> bool {
        true
    }

    open spec fn from_spec(x: Expr) -> u64 {
        spec_to_u64(x)
    }
}

impl TryFrom<u64> for Expr {
    type Error = ExprU64Error;

    /// Read a `u64` as an expression (see [`Expr::try_from_u64`]).
    fn try_from(n: u64) -> (r: Result<Expr, ExprU64Error>) {
        Expr::try_from_u64(n)
    }
}

impl vstd::std_specs::convert::TryFromSpecImpl<u64> for Expr {
    open spec fn obeys_try_from_spec() -> bool {
        true
    }

    open spec fn try_from_spec(n: u64) -> Result<Expr, ExprU64Error> {
        spec_from_u64(n)
    }
}

proof fn lemma_unpack_dyad(c: u64, x: u64, y: u64)
    by (bit_vector)
    requires
        c < 8,
        x < 0x10000,
        y < 0x10000,
    ensures
        ({
            let n = 3u64 | (c << 3u64) | (x << 32u64) | (y << 48u64);
            &&& (n >> 6u64) & 0x3ff_ffffu64 == 0
            &&& n & 7u64 == 3
            &&& (n >> 3u64) & 7u64 == c
            &&& ((n >> 32u64) & 0xffffu64) == x
            &&& ((n >> 32u64) >> 16u64) == y
        }),
{
}

proof fn lemma_unpack_monad(c: u64, x: u64)
    by (bit_vector)
    requires
        c < 8,
        x < 0x10000,
    ensures
        ({
            let n = 4u64 | (c << 3u64) | (x << 32u64);
            &&& (n >> 6u64) & 0x3ff_ffffu64 == 0
            &&& n & 7u64 == 4
            &&& (n >> 3u64) & 7u64 == c
            &&& ((n >> 32u64) & 0xffffu64) == x
            &&& ((n >> 32u64) >> 16u64) == 0
        }),
{
}

proof fn lemma_unpack_const(b: u64)
    by (bit_vector)
    requires
        b < 0x1_0000_0000,
    ensures
        ({
            let n = 2u64 | (b << 32u64);
            &&& (n >> 6u64) & 0x3ff_ffffu64 == 0
            &&& n & 7u64 == 2
            &&& (n >> 3u64) & 7u64 == 0
            &&& (n >> 32u64) == b
        }),
{
}

proof fn lemma_repack(n: u64)
    by (bit_vector)
    requires
        (n >> 6u64) & 0x3ff_ffffu64 == 0,
    ensures
        n & 7u64 == 0 && (n >> 3u64) & 7u64 == 0 && (n >> 32u64) == 0 ==> n == 0,
        n & 7u64 == 1 && (n >> 3u64) & 7u64 == 0 && (n >> 32u64) == 0 ==> n == 1,
        n & 7u64 == 2 && (n >> 3u64) & 7u64 == 0 ==> n == 2u64 | ((n >> 32u64) << 32u64),
        n & 7u64 == 3 ==> n == 3u64 | (((n >> 3u64) & 7u64) << 3u64) | (((n >> 32u64) & 0xffffu64) << 32u64) | (((n >> 32u64) >> 16u64) << 48u64),
        n & 7u64 == 4 && (n >> 32u64) >> 16u64 == 0 ==> n == 4u64 | (((n >> 3u64) & 7u64) << 3u64) | (((n >> 32u64) & 0xffffu64) << 32u64),
        (n >> 32u64) < 0x1_0000_0000,
        (n >> 32u64) & 0xffffu64 < 0x10000,
        (n >> 32u64) >> 16u64 < 0x10000,
{
}

/// Reading back a packed expression gives the expression.
pub proof fn lemma_u64_roundtrip(e: Expr)
    ensures
        spec_from_u64(spec_to_u64(e)) == Ok::<Expr, ExprU64Error>(e),
{
    match e {
        Expr::VarX => {
            assert((0u64 >> 6u64) & 0x3ff_ffffu64 == 0 && (0u64 >> 32u64) == 0 && (0u64 >> 3u64) & 7 == 0 && 0u64 & 7 == 0) by (bit_vector);
        },
        Expr::VarY => {
            assert((1u64 >> 6u64) & 0x3ff_ffffu64 == 0 && (1u64 >> 32u64) == 0 && (1u64 >> 3u64) & 7 == 0 && 1u64 & 7 == 1) by (bit_vector);
        },
        Expr::Const(b) => {
            lemma_unpack_const(b as u64);
        },
        Expr::Dyad(op, x, y) => {
            lemma_unpack_dyad(dyad_code(op), x as u64, y as u64);
        },
        Expr::Monad(op, x) => {
            lemma_unpack_monad(monad_code(op), x as u64);
        },
    }
}

/// Whatever reads as an expression is that expression's packing: the packing is canonical.
pub proof fn lemma_u64_canonical(n: u64)
    requires
        spec_from_u64(n) is Ok,
    ensures
        spec_to_u64(spec_from_u64(n)->Ok_0) == n,
{
    lemma_repack(n);
}

/// The packed form of each kind of expression, with its tag and op code written out: the tags
/// `0` to `4` for `VarX`, `VarY`, `Const`, `Dyad` and `Monad`; the op codes `0` to `4` for
/// add, sub, mul, max and min, and `0` to `2` for neg, square and sqrt, in bits 3 to 5; the
/// payload from bit 32 on. Reading each packed form back gives the expression.
pub proof fn lemma_u64_layout(x: u16, y: u16, b: u32)
    ensures
        spec_to_u64(Expr::VarX) == 0u64,
        spec_to_u64(Expr::VarY) == 1u64,
        spec_to_u64(Expr::Const(b)) == 2u64 | ((b as u64) << 32u64),
        spec_to_u64(Expr::Dyad(Dyad::Add, x, y)) == 0x03u64 | ((x as u64) << 32u64) | ((y as u64) << 48u64),
        spec_to_u64(Expr::Dyad(Dyad::Sub, x, y)) == 0x0bu64 | ((x as u64) << 32u64) | ((y as u64) << 48u64),
        spec_to_u64(Expr::Dyad(Dyad::Mul, x, y)) == 0x13u64 | ((x as u64) << 32u64) | ((y as u64) << 48u64),
        spec_to_u64(Expr::Dyad(Dyad::Max, x, y)) == 0x1bu64 | ((x as u64) << 32u64) | ((y as u64) << 48u64),
        spec_to_u64(Expr::Dyad(Dyad::Min, x, y)) == 0x23u64 | ((x as u64) << 32u64) | ((y as u64) << 48u64),
        spec_to_u64(Expr::Monad(Monad::Neg, x)) == 0x04u64 | ((x as u64) << 32u64),
        spec_to_u64(Expr::Monad(Monad::Square, x)) == 0x0cu64 | ((x as u64) << 32u64),
        spec_to_u64(Expr::Monad(Monad::Sqrt, x)) == 0x14u64 | ((x as u64) << 32u64),
        spec_from_u64(0u64) == Ok::<Expr, ExprU64Error>(Expr::VarX),
        spec_from_u64(1u64) == Ok::<Expr, ExprU64Error>(Expr::VarY),
        spec_from_u64(2u64 | ((b as u64) << 32u64)) == Ok::<Expr, ExprU64Error>(Expr::Const(b)),
        spec_from_u64(0x03u64 | ((x as u64) << 32u64) | ((y as u64) << 48u64)) == Ok::<Expr, ExprU64Error>(Expr::Dyad(Dyad::Add, x, y)),
        spec_from_u64(0x0bu64 | ((x as u64) << 32u64) | ((y as u64) << 48u64)) == Ok::<Expr, ExprU64Error>(Expr::Dyad(Dyad::Sub, x, y)),
        spec_from_u64(0x13u64 | ((x as u64) << 32u64) | ((y as u64) << 48u64)) == Ok::<Expr, ExprU64Error>(Expr::Dyad(Dyad::Mul, x, y)),
        spec_from_u64(0x1bu64 | ((x as u64) << 32u64) | ((y as u64) << 48u64)) == Ok::<Expr, ExprU64Error>(Expr::Dyad(Dyad::Max, x, y)),
        spec_from_u64(0x23u64 | ((x as u64) << 32u64) | ((y as u64) << 48u64)) == Ok::<Expr, ExprU64Error>(Expr::Dyad(Dyad::Min, x, y)),
        spec_from_u64(0x04u64 | ((x as u64) << 32u64)) == Ok::<Expr, ExprU64Error>(Expr::Monad(Monad::Neg, x)),
        spec_from_u64(0x0cu64 | ((x as u64) << 32u64)) == Ok::<Expr, ExprU64Error>(Expr::Monad(Monad::Square, x)),
        spec_from_u64(0x14u64 | ((x as u64) << 32u64)) == Ok::<Expr, ExprU64Error>(Expr::Monad(Monad::Sqrt, x)),
{
    assert(3u64 | (0u64 << 3u64) == 0x03u64 && 3u64 | (1u64 << 3u64) == 0x0bu64 && 3u64 | (2u64
        << 3u64) == 0x13u64 && 3u64 | (3u64 << 3u64) == 0x1bu64 && 3u64 | (4u64 << 3u64) == 0x23u64
        && 4u64 | (0u64 << 3u64) == 0x04u64 && 4u64 | (1u64 << 3u64) == 0x0cu64 && 4u64 | (2u64
        << 3u64) == 0x14u64) by (bit_vector);
    lemma_u64_roundtrip(Expr::VarX);
    lemma_u64_roundtrip(Expr::VarY);
    lemma_u64_roundtrip(Expr::Const(b));
    lemma_u64_roundtrip(Expr::Dyad(Dyad::Add, x, y));
    lemma_u64_roundtrip(Expr::Dyad(Dyad::Sub, x, y));
    lemma_u64_roundtrip(Expr::Dyad(Dyad::Mul, x, y));
    lemma_u64_roundtrip(Expr::Dyad(Dyad::Max, x, y));
    lemma_u64_roundtrip(Expr::Dyad(Dyad::Min, x, y));
    lemma_u64_roundtrip(Expr::Monad(Monad::Neg, x));
    lemma_u64_roundtrip(Expr::Monad(Monad::Square, x));
    lemma_u64_roundtrip(Expr::Monad(Monad::Sqrt, x));
}

/// Two expressions are equal exactly when their packings are equal.
pub proof fn lemma_u64_injective(a: Expr, b: Expr)
    ensures
        (spec_to_u64(a) == spec_to_u64(b)) <==> (a == b),
{
    lemma_u64_roundtrip(a);
    lemma_u64_roundtrip(b);
}

proof fn lemma_fields(tag: u64, op: u64, junk: u64, payload: u64)
    by (bit_vector)
    requires
        tag < 8,
        op < 8,
        junk < 0x400_0000,
        payload < 0x1_0000_0000,
    ensures
        ({
            let n = tag | (op << 3u64) | (junk << 6u64) | (payload << 32u64);
            &&& (n >> 6u64) & 0x3ff_ffffu64 == junk
            &&& n & 7u64 == tag
            &&& (n >> 3u64) & 7u64 == op
            &&& n >> 32u64 == payload
        }),
{
}

/// Junk bits make the error `Junk`, with the junk bits, whatever the tag and payload.
pub proof fn lemma_u64_junk(tag: u64, junk: u64, payload: u64)
    requires
        tag < 5,
        1 <= junk < 0x400_0000,
        payload < 0x1_0000_0000,
    ensures
        spec_from_u64(tag | (junk << 6u64) | (payload << 32u64)) == Err::<Expr, ExprU64Error>(
            ExprU64Error::Junk(junk),
        ),
{
    lemma_fields(tag, 0, junk, payload);
    assert(tag | (0u64 << 3u64) | (junk << 6u64) | (payload << 32u64) == tag | (junk << 6u64) | (
    payload << 32u64)) by (bit_vector);
}

/// The tag of `VarX` with a nonzero op or payload is the error `NzX`, holding those sections.
pub proof fn lemma_u64_nzx(op: u64, payload: u64)
    requires
        op < 8,
        payload < 0x1_0000_0000,
        op != 0 || payload != 0,
    ensures
        spec_from_u64((op << 3u64) | (payload << 32u64)) == Err::<Expr, ExprU64Error>(
            ExprU64Error::NzX((op << 3u64) | (payload << 32u64)),
        ),
{
    lemma_fields(0, op, 0, payload);
    assert(0u64 | (op << 3u64) | (0u64 << 6u64) | (payload << 32u64) == (op << 3u64) | (payload
        << 32u64)) by (bit_vector);
}

/// The tag of `VarY` with a nonzero op or payload is the error `NzY`, holding those sections.
pub proof fn lemma_u64_nzy(op: u64, payload: u64)
    requires
        op < 8,
        payload < 0x1_0000_0000,
        op != 0 || payload != 0,
    ensures
        spec_from_u64(1u64 | (op << 3u64) | (payload << 32u64)) == Err::<Expr, ExprU64Error>(
            ExprU64Error::NzY((op << 3u64) | (payload << 32u64)),
        ),
{
    lemma_fields(1, op, 0, payload);
    assert(1u64 | (op << 3u64) | (0u64 << 6u64) | (payload << 32u64) == 1u64 | (op << 3u64) | (
    payload << 32u64)) by (bit_vector);
}

/// The tag of `Const` with a nonzero op is the error `NzC`, holding the op and payload.
pub proof fn lemma_u64_nzc(op: u64, payload: u64)
    requires
        1 <= op < 8,
        payload < 0x1_0000_0000,
    ensures
        spec_from_u64(2u64 | (op << 3u64) | (payload << 32u64)) == Err::<Expr, ExprU64Error>(
            ExprU64Error::NzC((op << 3u64) | (payload << 32u64)),
        ),
{
    lemma_fields(2, op, 0, payload);
    assert(2u64 | (op << 3u64) | (0u64 << 6u64) | (payload << 32u64) == 2u64 | (op << 3u64) | (
    payload << 32u64)) by (bit_vector);
}

/// The tag of a dyadic operation with an op beyond the five is the error `DyadOp`, holding the
/// op's bits.
pub proof fn lemma_u64_dyad_op(op: u64, payload: u64)
    requires
        5 <= op < 8,
        payload < 0x1_0000_0000,
    ensures
        spec_from_u64(3u64 | (op << 3u64) | (payload << 32u64)) == Err::<Expr, ExprU64Error>(
            ExprU64Error::DyadOp(op << 3u64),
        ),
{
    lemma_fields(3, op, 0, payload);
    assert(3u64 | (op << 3u64) | (0u64 << 6u64) | (payload << 32u64) == 3u64 | (op << 3u64) | (
    payload << 32u64)) by (bit_vector);
}

/// The tag of a monadic operation with an op beyond the three (and an argument in the low half
/// of the payload) is the error `MonadOp`, holding the op's bits.
pub proof fn lemma_u64_monad_op(op: u64, x: u64)
    requires
        3 <= op < 8,
        x < 0x1_0000,
    ensures
        spec_from_u64(4u64 | (op << 3u64) | (x << 32u64)) == Err::<Expr, ExprU64Error>(
            ExprU64Error::MonadOp(op << 3u64),
        ),
{
    lemma_fields(4, op, 0, x);
    assert(4u64 | (op << 3u64) | (0u64 << 6u64) | (x << 32u64) == 4u64 | (op << 3u64) | (x
        << 32u64)) by (bit_vector);
    assert(x >> 16u64 == 0) by (bit_vector)
        requires
            x < 0x1_0000,
    ;
}

/// The tag of a monadic operation with a nonzero high half of the payload is the error `NzM`,
/// holding that half in place, whatever the op.
pub proof fn lemma_u64_nzm(op: u64, x: u64, y: u64)
    requires
        op < 8,
        x < 0x1_0000,
        1 <= y < 0x1_0000,
    ensures
        spec_from_u64(4u64 | (op << 3u64) | (x << 32u64) | (y << 48u64)) == Err::<
            Expr,
            ExprU64Error,
        >(ExprU64Error::NzM(y << 48u64)),
{
    let payload = x | (y << 16u64);
    assert(payload < 0x1_0000_0000 && payload >> 16u64 == y && 4u64 | (op << 3u64) | (0u64 << 6u64)
        | (payload << 32u64) == 4u64 | (op << 3u64) | (x << 32u64) | (y << 48u64)) by (bit_vector)
        requires
            x < 0x1_0000,
            y < 0x1_0000,
            payload == x | (y << 16u64),
    ;
    lemma_fields(4, op, 0, payload);
}

/// A tag beyond the five is the error `Tag`, holding the tag.
pub proof fn lemma_u64_tag(tag: u64, op: u64, payload: u64)
    requires
        5 <= tag < 8,
        op < 8,
        payload < 0x1_0000_0000,
    ensures
        spec_from_u64(tag | (op << 3u64) | (payload << 32u64)) == Err::<Expr, ExprU64Error>(
            ExprU64Error::Tag(tag),
        ),
{
    lemma_fields(tag, op, 0, payload);
    assert(tag | (op << 3u64) | (0u64 << 6u64) | (payload << 32u64) == tag | (op << 3u64) | (
    payload << 32u64)) by (bit_vector);
}


// ---------------------------------------------------------------------------------------------
// Names of the operations.

/// The name of a dyadic operation in the program text.
pub open spec fn dyad_name(op: Dyad) -> Seq<char> {
    match op {
        Dyad::Add => seq!['a', 'd', 'd'],
        Dyad::Sub => seq!['s', 'u', 'b'],
        Dyad::Mul => seq!['m', 'u', 'l'],
        Dyad::Max => seq!['m', 'a', 'x'],
        Dyad::Min => seq!['m', 'i', 'n'],
    }
}

/// The name of a monadic operation in the program text.
pub open spec fn monad_name(op: Monad) -> Seq<char> {
    match op {
        Monad::Neg => seq!['n', 'e', 'g'],
        Monad::Square => seq!['s', 'q', 'u', 'a', 'r', 'e'],
        Monad::Sqrt => seq!['s', 'q', 'r', 't'],
    }
}

/// The dyadic operation named `t`, if any.
pub open spec fn dyad_of_name(t: Seq<char>) -> Option<Dyad> {
    if t == dyad_name(Dyad::Add) {
        Some(Dyad::Add)
    } else if t == dyad_name(Dyad::Sub) {
        Some(Dyad::Sub)
    } else if t == dyad_name(Dyad::Mul) {
        Some(Dyad::Mul)
    } else if t == dyad_name(Dyad::Max) {
        Some(Dyad::Max)
    } else if t == dyad_name(Dyad::Min) {
        Some(Dyad::Min)
    } else {
        None
    }
}

/// The monadic operation named `t`, if any.
pub open spec fn monad_of_name(t: Seq<char>) -> Option<Monad> {
    if t == monad_name(Monad::Neg) {
        Some(Monad::Neg)
    } else if t == monad_name(Monad::Square) {
        Some(Monad::Square)
    } else if t == monad_name(Monad::Sqrt) {
        Some(Monad::Sqrt)
    } else {
        None
    }
}

/// Reading back the name of an operation gives the operation.
pub proof fn lemma_name_roundtrip(d: Dyad, m: Monad)
    ensures
        dyad_of_name(dyad_name(d)) == Some(d),
        monad_of_name(monad_name(m)) == Some(m),
{
    assert(dyad_name(Dyad::Add) != dyad_name(Dyad::Sub));
    assert(dyad_name(Dyad::Add) != dyad_name(Dyad::Mul));
    assert(dyad_name(Dyad::Add) != dyad_name(Dyad::Max));
    assert(dyad_name(Dyad::Add) != dyad_name(Dyad::Min));
    assert(dyad_name(Dyad::Sub) != dyad_name(Dyad::Mul));
    assert(dyad_name(Dyad::Sub) != dyad_name(Dyad::Max));
    assert(dyad_name(Dyad::Sub) != dyad_name(Dyad::Min));
    assert(dyad_name(Dyad::Mul) != dyad_name(Dyad::Max));
    assert(dyad_name(Dyad::Mul) != dyad_name(Dyad::Min));
    assert(dyad_name(Dyad::Max) != dyad_name(Dyad::Min));
    assert(monad_name(Monad::Neg) != monad_name(Monad::Square));
    assert(monad_name(Monad::Neg) != monad_name(Monad::Sqrt));
    assert(monad_name(Monad::Square) != monad_name(Monad::Sqrt));
}

impl Dyad {
    /// The name of this operation in the program text.
    pub fn name(self) -> (r: String)
        ensures
            r@ == dyad_name(self),
    {
        let w: &[char] = match self {
            Dyad::Add => &['a', 'd', 'd'],
            Dyad::Sub => &['s', 'u', 'b'],
            Dyad::Mul => &['m', 'u', 'l'],
            Dyad::Max => &['m', 'a', 'x'],
            Dyad::Min => &['m', 'i', 'n'],
        };
        string_from(w)
    }

    /// The operation with the given name, if any.
    pub fn from_name(t: &str) -> (r: Option<Dyad>)
        ensures
            r == dyad_of_name(t@),
    {
        let v = chars_of(t);
        proof {
            assert(v@.subrange(0, v@.len() as int) =~= v@);
        }
        dyad_of_span(&v, 0, v.len())
    }
}

impl Monad {
    /// The name of this operation in the program text.
    pub fn name(self) -> (r: String)
        ensures
            r@ == monad_name(self),
    {
        let w: &[char] = match self {
            Monad::Neg => &['n', 'e', 'g'],
            Monad::Square => &['s', 'q', 'u', 'a', 'r', 'e'],
            Monad::Sqrt => &['s', 'q', 'r', 't'],
        };
        string_from(w)
    }

    /// The operation with the given name, if any.
    pub fn from_name(t: &str) -> (r: Option<Monad>)
        ensures
            r == monad_of_name(t@),
    {
        let v = chars_of(t);
        proof {
            assert(v@.subrange(0, v@.len() as int) =~= v@);
        }
        monad_of_span(&v, 0, v.len())
    }
}

/// The dyadic operation named `s[a..b]`, if any.
fn dyad_of_span(s: &Vec<char>, a: usize, b: usize) -> (r: Option<Dyad>)
    requires
        a <= b <= s.len(),
    ensures
        r == dyad_of_name(s@.subrange(a as int, b as int)),
{
    if span_is(s, a, b, &['a', 'd', 'd']) {
        Some(Dyad::Add)
    } else if span_is(s, a, b, &['s', 'u', 'b']) {
        Some(Dyad::Sub)
    } else if span_is(s, a, b, &['m', 'u', 'l']) {
        Some(Dyad::Mul)
    } else if span_is(s, a, b, &['m', 'a', 'x']) {
        Some(Dyad::Max)
    } else if span_is(s, a, b, &['m', 'i', 'n']) {
        Some(Dyad::Min)
    } else {
        None
    }
}

/// The monadic operation named `s[a..b]`, if any.
fn monad_of_span(s: &Vec<char>, a: usize, b: usize) -> (r: Option<Monad>)
    requires
        a <= b <= s.len(),
    ensures
        r == monad_of_name(s@.subrange(a as int, b as int)),
{
    if span_is(s, a, b, &['n', 'e', 'g']) {
        Some(Monad::Neg)
    } else if span_is(s, a, b, &['s', 'q', 'u', 'a', 'r', 'e']) {
        Some(Monad::Square)
    } else if span_is(s, a, b, &['s', 'q', 'r', 't']) {
        Some(Monad::Sqrt)
    } else {
        None
    }
}

// ---------------------------------------------------------------------------------------------
// Hexadecimal numbers, written `_` and the digits.

/// Errors that can arise when trying to read a hex `u16`.
#[derive(PartialEq, Eq, Debug)]
pub enum HexParseError {
    /// The value does not start with `_`; holds the whole token.
    Underscore(String),
    /// What follows `_` is not a hexadecimal `usize`; holds the whole token.
    NotHex(String),
    /// The value does not fit in a `u16`.
    TooBig(usize),
}

/// A [`HexParseError`] with its text as a sequence of characters.
pub enum HexErrorView {
    Underscore(Seq<char>),
    NotHex(Seq<char>),
    TooBig(int),
}

impl View for HexParseError {
    type V = HexErrorView;

    open spec fn view(&self) -> HexErrorView {
        match self {
            HexParseError::Underscore(s) => HexErrorView::Underscore(s@),
            HexParseError::NotHex(s) => HexErrorView::NotHex(s@),
            HexParseError::TooBig(n) => HexErrorView::TooBig(*n as int),
        }
    }
}

/// The value of a hexadecimal digit (either case).
pub open spec fn hex_digit(c: char) -> Option<nat> {
    if '0' <= c <= '9' {
        Some((c as int - '0' as int) as nat)
    } else if 'a' <= c <= 'f' {
        Some((c as int - 'a' as int + 10) as nat)
    } else if 'A' <= c <= 'F' {
        Some((c as int - 'A' as int + 10) as nat)
    } else {
        None
    }
}

/// All characters of `d` are hexadecimal digits.
pub open spec fn all_hex_digits(d: Seq<char>) -> bool {
    forall|i: int| 0 <= i < d.len() ==> (#[trigger] hex_digit(d[i])) is Some
}

/// The value of the hexadecimal digits `d` (a non-digit counts as zero).
pub open spec fn hex_value(d: Seq<char>) -> nat
    decreases d.len(),
{
    if d.len() == 0 {
        0
    } else {
        hex_value(d.drop_last()) * 16 + match hex_digit(d.last()) {
            Some(v) => v,
            None => 0,
        }
    }
}

/// The digits that `usize::from_str_radix` reads: one leading `+` is allowed.
pub open spec fn radix_digits(d: Seq<char>) -> Seq<char> {
    if d.len() > 0 && d[0] == '+' {
        d.drop_first()
    } else {
        d
    }
}

/// What reading `t` as `_` followed by a hexadecimal `u16` gives.
pub open spec fn spec_hex(t: Seq<char>) -> Result<u16, HexErrorView> {
    if t.len() == 0 || t[0] != '_' {
        Err(HexErrorView::Underscore(t))
    } else {
        let d = radix_digits(t.drop_first());
        if d.len() == 0 || !all_hex_digits(d) || hex_value(d) > usize::MAX {
            Err(HexErrorView::NotHex(t))
        } else if hex_value(d) > u16::MAX {
            Err(HexErrorView::TooBig(hex_value(d) as int))
        } else {
            Ok(hex_value(d) as u16)
        }
    }
}

/// A `Result` with its error by its view.
pub open spec fn hex_result_view(r: Result<u16, HexParseError>) -> Result<u16, HexErrorView> {
    match r {
        Ok(v) => Ok(v),
        Err(e) => Err(e@),
    }
}

proof fn lemma_hex_value_prefix(d: Seq<char>, k: int)
    requires
        0 <= k <= d.len(),
    ensures
        hex_value(d.take(k)) <= hex_value(d),
    decreases d.len(),
{
    if k < d.len() {
        assert(d.drop_last().take(k) =~= d.take(k));
        lemma_hex_value_prefix(d.drop_last(), k);
    } else {
        assert(d.take(k) =~= d);
    }
}

/// The value of the digit `c`, if it is one.
fn hex_digit_of(c: char) -> (r: Option<usize>)
    ensures
        match hex_digit(c) {
            Some(v) => r == Some(v as usize),
            None => r is None,
        },
{
    if '0' <= c && c <= '9' {
        Some((c as u32 - '0' as u32) as usize)
    } else if 'a' <= c && c <= 'f' {
        Some((c as u32 - 'a' as u32 + 10) as usize)
    } else if 'A' <= c && c <= 'F' {
        Some((c as u32 - 'A' as u32 + 10) as usize)
    } else {
        None
    }
}

/// Read `s[a..b]` as `_` followed by a hexadecimal `u16`.
pub fn hex_span(s: &Vec<char>, a: usize, b: usize) -> (r: Result<u16, HexParseError>)
    requires
        a <= b <= s.len(),
    ensures
        hex_result_view(r) == spec_hex(s@.subrange(a as int, b as int)),
{
    let ghost t = s@.subrange(a as int, b as int);
    if a == b || s[a] != '_' {
        return Err(HexParseError::Underscore(string_of_span(s, a, b)));
    }
    let mut d0: usize = a + 1;
    if d0 < b && s[d0] == '+' {
        d0 = d0 + 1;
    }
    let ghost d = radix_digits(t.drop_first());
    proof {
        assert(d =~= s@.subrange(d0 as int, b as int));
    }
    if d0 == b {
        return Err(HexParseError::NotHex(string_of_span(s, a, b)));
    }
    let mut v: usize = 0;
    let mut i: usize = d0;
    while i < b
        invariant
            a < d0 <= i <= b <= s.len(),
            d == s@.subrange(d0 as int, b as int),
            t == s@.subrange(a as int, b as int),
            d == radix_digits(t.drop_first()),
            s@[a as int] == '_',
            v == hex_value(s@.subrange(d0 as int, i as int)),
            all_hex_digits(s@.subrange(d0 as int, i as int)),
        decreases b - i,
    {
        let ghost pre = s@.subrange(d0 as int, i as int);
        let ghost next = s@.subrange(d0 as int, i + 1);
        proof {
            assert(next.drop_last() =~= pre);
            assert(next.last() == s@[i as int]);
        }
        match hex_digit_of(s[i]) {
            None => {
                proof {
                    assert(d[i - d0] == s@[i as int]);
                    assert(hex_digit(d[i - d0]) is None);
                }
                return Err(HexParseError::NotHex(string_of_span(s, a, b)));
            },
            Some(dv) => {
                if v > (usize::MAX - dv) / 16 {
                    proof {
                        assert(hex_digit(next.last()) == Some(dv as nat));
                        assert(hex_value(next) == hex_value(pre) * 16 + dv);
                        assert(hex_value(next) > usize::MAX) by (nonlinear_arith)
                            requires
                                hex_value(next) == v * 16 + dv,
                                v > (usize::MAX - dv) / 16,
                                dv <= usize::MAX,
                        ;
                        assert(d.take(i + 1 - d0) =~= next);
                        lemma_hex_value_prefix(d, i + 1 - d0);
                    }
                    return Err(HexParseError::NotHex(string_of_span(s, a, b)));
                }
                proof {
                    assert(v * 16 + dv <= usize::MAX) by (nonlinear_arith)
                        requires
                            v <= (usize::MAX - dv) / 16,
                            dv <= usize::MAX,
                    ;
                    assert forall|j: int| 0 <= j < next.len() implies (#[trigger] hex_digit(
                        next[j],
                    )) is Some by {
                        if j < pre.len() {
                            assert(next[j] == pre[j]);
                        }
                    }
                }
                v = v * 16 + dv;
                i = i + 1;
            },
        }
    }
    if v > 0xffff {
        Err(HexParseError::TooBig(v))
    } else {
        Ok(v as u16)
    }
}

/// Read `t` as `_` followed by a hexadecimal `u16`.
pub fn hex(t: &str) -> (r: Result<u16, HexParseError>)
    ensures
        hex_result_view(r) == spec_hex(t@),
{
    let v = chars_of(t);
    proof {
        assert(v@.subrange(0, v@.len() as int) =~= v@);
    }
    hex_span(&v, 0, v.len())
}


// ---------------------------------------------------------------------------------------------
// Reading one expression.

/// The keyword of the input variable _x_.
pub open spec fn kw_var_x() -> Seq<char> {
    seq!['v', 'a', 'r', '-', 'x']
}

/// The keyword of the input variable _y_.
pub open spec fn kw_var_y() -> Seq<char> {
    seq!['v', 'a', 'r', '-', 'y']
}

/// The keyword of a constant.
pub open spec fn kw_const() -> Seq<char> {
    seq!['c', 'o', 'n', 's', 't']
}

/// Errors that can arise when trying to read an expression.
#[derive(PartialEq, Eq, Debug)]
pub enum ExprParseError {
    /// There is no token at all.
    MissingOp,
    /// `const` is missing its value.
    ConstValue,
    /// The value of a `const` is not a floating point number; holds the value's token.
    BadF32(String),
    /// A dyadic operator is missing an operand.
    DyadMissing(Dyad),
    /// A monadic operator is missing its operand.
    MonadMissing(Monad),
    /// An operand is not a hex `u16`.
    BadHex(HexParseError),
    /// The first token names no operation; holds that token.
    BadOp(String),
    /// Tokens follow the operands; holds them, joined by single spaces.
    Extra(String),
}

/// An [`ExprParseError`] with its text as sequences of characters.
pub enum ExprErrorView {
    MissingOp,
    ConstValue,
    BadF32(Seq<char>),
    DyadMissing(Dyad),
    MonadMissing(Monad),
    BadHex(HexErrorView),
    BadOp(Seq<char>),
    Extra(Seq<char>),
}

impl View for ExprParseError {
    type V = ExprErrorView;

    open spec fn view(&self) -> ExprErrorView {
        match self {
            ExprParseError::MissingOp => ExprErrorView::MissingOp,
            ExprParseError::ConstValue => ExprErrorView::ConstValue,
            ExprParseError::BadF32(s) => ExprErrorView::BadF32(s@),
            ExprParseError::DyadMissing(op) => ExprErrorView::DyadMissing(*op),
            ExprParseError::MonadMissing(op) => ExprErrorView::MonadMissing(*op),
            ExprParseError::BadHex(e) => ExprErrorView::BadHex(e@),
            ExprParseError::BadOp(s) => ExprErrorView::BadOp(s@),
            ExprParseError::Extra(s) => ExprErrorView::Extra(s@),
        }
    }
}

/// A `Result` with its error by its view.
pub open spec fn expr_result_view(r: Result<Expr, ExprParseError>) -> Result<Expr, ExprErrorView> {
    match r {
        Ok(e) => Ok(e),
        Err(e) => Err(e@),
    }
}

/// The token that holds the value of a constant, if `s` is the text of one: the one after a
/// first token `const`. Reading that value as an `f32` is not done here (see
/// [`spec_parse_expr`]).
pub open spec fn const_token(s: Seq<char>) -> Option<Seq<char>> {
    let ts = tokens(s);
    if ts.len() >= 2 && ts[0] == kw_const() {
        Some(ts[1])
    } else {
        None
    }
}

/// What reading the expression text `s` gives, where `c` is the bit pattern that the value
/// token of a constant reads as (`None` where it is no `f32`).
///
/// The first token names the expression: `var-x`, `var-y` and `const` (whose value is the next
/// token) ignore any further tokens; a dyadic operation reads two hex operands and a monadic one
/// reads one, and then no more tokens may follow.
pub open spec fn spec_parse_expr(s: Seq<char>, c: Option<u32>) -> Result<Expr, ExprErrorView> {
    let ts = tokens(s);
    if ts.len() == 0 {
        Err(ExprErrorView::MissingOp)
    } else if ts[0] == kw_var_x() {
        Ok(Expr::VarX)
    } else if ts[0] == kw_var_y() {
        Ok(Expr::VarY)
    } else if ts[0] == kw_const() {
        if ts.len() < 2 {
            Err(ExprErrorView::ConstValue)
        } else {
            match c {
                Some(b) => Ok(Expr::Const(b)),
                None => Err(ExprErrorView::BadF32(ts[1])),
            }
        }
    } else {
        match dyad_of_name(ts[0]) {
            Some(op) => {
                if ts.len() < 2 {
                    Err(ExprErrorView::DyadMissing(op))
                } else {
                    match spec_hex(ts[1]) {
                        Err(e) => Err(ExprErrorView::BadHex(e)),
                        Ok(x) => {
                            if ts.len() < 3 {
                                Err(ExprErrorView::DyadMissing(op))
                            } else {
                                match spec_hex(ts[2]) {
                                    Err(e) => Err(ExprErrorView::BadHex(e)),
                                    Ok(y) => {
                                        if ts.len() > 3 {
                                            Err(ExprErrorView::Extra(join_space(ts.skip(3))))
                                        } else {
                                            Ok(Expr::Dyad(op, x, y))
                                        }
                                    },
                                }
                            }
                        },
                    }
                }
            },
            None => match monad_of_name(ts[0]) {
                Some(op) => {
                    if ts.len() < 2 {
                        Err(ExprErrorView::MonadMissing(op))
                    } else {
                        match spec_hex(ts[1]) {
                            Err(e) => Err(ExprErrorView::BadHex(e)),
                            Ok(x) => {
                                if ts.len() > 2 {
                                    Err(ExprErrorView::Extra(join_space(ts.skip(2))))
                                } else {
                                    Ok(Expr::Monad(op, x))
                                }
                            },
                        }
                    }
                },
                None => Err(ExprErrorView::BadOp(ts[0])),
            },
        }
    }
}

/// The spans in `spans` are those of the tokens of `s[a..b]`.
pub open spec fn spans_of_tokens(s: Seq<char>, a: int, b: int, spans: Seq<(usize, usize)>) -> bool {
    &&& spans.len() == tokens(s.subrange(a, b)).len()
    &&& forall|k: int|
        0 <= k < spans.len() ==> {
            &&& a <= (#[trigger] spans[k]).0 < spans[k].1 <= b
            &&& s.subrange(spans[k].0 as int, spans[k].1 as int) == tokens(s.subrange(a, b))[k]
        }
}

/// The tokens from the `from`-th one on, joined by single spaces, as a string.
fn join_spans(s: &Vec<char>, spans: &Vec<(usize, usize)>, from: usize, ghost_a: Ghost<int>, ghost_b: Ghost<int>) -> (r: String)
    requires
        spans_of_tokens(s@, ghost_a@, ghost_b@, spans@),
        0 <= ghost_a@ <= ghost_b@ <= s@.len(),
        from <= spans@.len(),
    ensures
        r@ == join_space(tokens(s@.subrange(ghost_a@, ghost_b@)).skip(from as int)),
{
    let ghost ts = tokens(s@.subrange(ghost_a@, ghost_b@));
    let mut out: Vec<char> = Vec::new();
    let mut k: usize = from;
    while k < spans.len()
        invariant
            spans_of_tokens(s@, ghost_a@, ghost_b@, spans@),
            0 <= ghost_a@ <= ghost_b@ <= s@.len(),
            ts == tokens(s@.subrange(ghost_a@, ghost_b@)),
            from <= k <= spans@.len(),
            out@ == join_space(ts.subrange(from as int, k as int)),
        decreases spans@.len() - k,
    {
        let ghost before = ts.subrange(from as int, k as int);
        let ghost after = ts.subrange(from as int, k + 1);
        proof {
            assert(after.drop_last() =~= before);
            assert(after.last() == ts[k as int]);
        }
        if k > from {
            out.push(' ');
        } else {
            proof {
                assert(before.len() == 0);
                assert(out@ =~= Seq::<char>::empty());
            }
        }
        let (p, q) = spans[k];
        push_span(&mut out, s, p, q);
        proof {
            if k > from {
                assert(out@ =~= join_space(before) + seq![' '] + ts[k as int]);
            } else {
                assert(out@ =~= ts[k as int]);
            }
        }
        k = k + 1;
    }
    proof {
        assert(ts.subrange(from as int, spans@.len() as int) =~= ts.skip(from as int));
    }
    string_from(out.as_slice())
}


/// Read the expression whose tokens are `spans` (the tokens of `s[a..b]`), with `c` what the
/// value token of a constant reads as.
fn parse_expr_spans(
    s: &Vec<char>,
    spans: &Vec<(usize, usize)>,
    c: Option<u32>,
    ghost_a: Ghost<int>,
    ghost_b: Ghost<int>,
) -> (r: Result<Expr, ExprParseError>)
    requires
        0 <= ghost_a@ <= ghost_b@ <= s@.len(),
        spans_of_tokens(s@, ghost_a@, ghost_b@, spans@),
    ensures
        expr_result_view(r) == spec_parse_expr(s@.subrange(ghost_a@, ghost_b@), c),
{
    let ghost ts = tokens(s@.subrange(ghost_a@, ghost_b@));
    let n = spans.len();
    if n == 0 {
        return Err(ExprParseError::MissingOp);
    }
    let (p0, q0) = spans[0];
    if span_is(s, p0, q0, &['v', 'a', 'r', '-', 'x']) {
        return Ok(Expr::VarX);
    }
    if span_is(s, p0, q0, &['v', 'a', 'r', '-', 'y']) {
        return Ok(Expr::VarY);
    }
    if span_is(s, p0, q0, &['c', 'o', 'n', 's', 't']) {
        if n < 2 {
            return Err(ExprParseError::ConstValue);
        }
        return match c {
            Some(bits) => Ok(Expr::Const(bits)),
            None => {
                let (p1, q1) = spans[1];
                Err(ExprParseError::BadF32(string_of_span(s, p1, q1)))
            },
        };
    }
    match dyad_of_span(s, p0, q0) {
        Some(op) => {
            if n < 2 {
                return Err(ExprParseError::DyadMissing(op));
            }
            let (p1, q1) = spans[1];
            let x = match hex_span(s, p1, q1) {
                Ok(x) => x,
                Err(e) => return Err(ExprParseError::BadHex(e)),
            };
            if n < 3 {
                return Err(ExprParseError::DyadMissing(op));
            }
            let (p2, q2) = spans[2];
            let y = match hex_span(s, p2, q2) {
                Ok(y) => y,
                Err(e) => return Err(ExprParseError::BadHex(e)),
            };
            if n > 3 {
                return Err(ExprParseError::Extra(join_spans(s, spans, 3, ghost_a, ghost_b)));
            }
            Ok(Expr::Dyad(op, x, y))
        },
        None => match monad_of_span(s, p0, q0) {
            Some(op) => {
                if n < 2 {
                    return Err(ExprParseError::MonadMissing(op));
                }
                let (p1, q1) = spans[1];
                let x = match hex_span(s, p1, q1) {
                    Ok(x) => x,
                    Err(e) => return Err(ExprParseError::BadHex(e)),
                };
                if n > 2 {
                    return Err(ExprParseError::Extra(join_spans(s, spans, 2, ghost_a, ghost_b)));
                }
                Ok(Expr::Monad(op, x))
            },
            None => Err(ExprParseError::BadOp(string_of_span(s, p0, q0))),
        },
    }
}

/// Whether the tokens `spans` (of `s[a..b]`) are those of a constant; if so, the span of its
/// value token.
fn const_token_span(
    s: &Vec<char>,
    spans: &Vec<(usize, usize)>,
    ghost_a: Ghost<int>,
    ghost_b: Ghost<int>,
) -> (r: Option<(usize, usize)>)
    requires
        0 <= ghost_a@ <= ghost_b@ <= s@.len(),
        spans_of_tokens(s@, ghost_a@, ghost_b@, spans@),
    ensures
        match const_token(s@.subrange(ghost_a@, ghost_b@)) {
            Some(t) => r matches Some(sp) && sp.0 <= sp.1 <= s@.len() && s@.subrange(
                sp.0 as int,
                sp.1 as int,
            ) == t,
            None => r is None,
        },
{
    if spans.len() >= 2 {
        let (p0, q0) = spans[0];
        if span_is(s, p0, q0, &['c', 'o', 'n', 's', 't']) {
            return Some(spans[1]);
        }
    }
    None
}

impl Expr {
    /// Read the expression text `s`, where `const_bits` is the bit pattern that the value token
    /// of a constant reads as as an `f32` (`None` where it reads as none).
    pub fn from_text(s: &str, const_bits: Option<u32>) -> (r: Result<Expr, ExprParseError>)
        ensures
            expr_result_view(r) == spec_parse_expr(s@, const_bits),
    {
        let v = chars_of(s);
        let spans = token_spans(&v, 0, v.len());
        proof {
            assert(v@.subrange(0, v@.len() as int) =~= v@);
        }
        parse_expr_spans(&v, &spans, const_bits, Ghost(0), Ghost(v@.len() as int))
    }

    /// The value token of the constant whose text is `s`, if `s` is the text of a constant.
    pub fn const_token(s: &str) -> (r: Option<String>)
        ensures
            match const_token(s@) {
                Some(t) => r matches Some(x) && x@ == t,
                None => r is None,
            },
    {
        let v = chars_of(s);
        let spans = token_spans(&v, 0, v.len());
        proof {
            assert(v@.subrange(0, v@.len() as int) =~= v@);
        }
        match const_token_span(&v, &spans, Ghost(0), Ghost(v@.len() as int)) {
            Some((p, q)) => Some(string_of_span(&v, p, q)),
            None => None,
        }
    }
}


// ---------------------------------------------------------------------------------------------
// Programs.

/// The indices of earlier expressions that `e` reads.
pub open spec fn spec_args(e: Expr) -> Seq<u16> {
    match e {
        Expr::VarX | Expr::VarY | Expr::Const(_) => seq![],
        Expr::Dyad(_, x, y) => seq![x, y],
        Expr::Monad(_, x) => seq![x],
    }
}

/// Every expression that `e` reads has an index below `line`.
pub open spec fn args_before(e: Expr, line: int) -> bool {
    forall|j: int| 0 <= j < spec_args(e).len() ==> (spec_args(e)[j] as int) < line
}

/// Every expression of `xs` reads only expressions before it: `xs` can be run in order.
pub open spec fn well_formed(xs: Seq<Expr>) -> bool {
    forall|i: int| 0 <= i < xs.len() ==> args_before(#[trigger] xs[i], i)
}

impl Expr {
    /// Whether every expression that this one reads has an index below `line`.
    pub fn args_before(&self, line: usize) -> (r: bool)
        ensures
            r == args_before(*self, line as int),
    {
        match *self {
            Expr::VarX | Expr::VarY | Expr::Const(_) => {
                assert(spec_args(*self) =~= Seq::<u16>::empty());
                true
            },
            Expr::Dyad(_, x, y) => {
                proof {
                    let a = spec_args(*self);
                    assert(a.len() == 2 && a[0] == x && a[1] == y);
                    assert((forall|j: int| 0 <= j < 2 ==> (a[j] as int) < line) <==> (x < line && y < line)) by {
                        if x < line && y < line {
                            assert forall|j: int| 0 <= j < 2 implies (a[j] as int) < line by {
                                if j == 0 {} else {}
                            }
                        }
                    }
                }
                (x as usize) < line && (y as usize) < line
            },
            Expr::Monad(_, x) => {
                proof {
                    let a = spec_args(*self);
                    assert(a.len() == 1 && a[0] == x);
                }
                (x as usize) < line
            },
        }
    }
}

/// Whether every expression of `xs` reads only expressions before it.
pub fn well_formed_exprs(xs: &[Expr]) -> (b: bool)
    ensures
        b == well_formed(xs@),
{
    let mut i: usize = 0;
    while i < xs.len()
        invariant
            i <= xs@.len(),
            forall|j: int| 0 <= j < i ==> args_before(#[trigger] xs@[j], j),
        decreases xs@.len() - i,
    {
        if !xs[i].args_before(i) {
            return false;
        }
        i = i + 1;
    }
    true
}

/// A collection of [`Expr`] expressions, in order, with a header string.
#[derive(PartialEq, Eq, Clone, Debug)]
pub struct Program {
    pub header: String,
    pub exprs: Vec<Expr>,
}

impl Program {
    /// The number of expressions.
    pub fn len(&self) -> (n: usize)
        ensures
            n == self.exprs@.len(),
    {
        self.exprs.len()
    }

    /// Whether there are no expressions.
    pub fn is_empty(&self) -> (b: bool)
        ensures
            b == (self.exprs@.len() == 0),
    {
        self.exprs.len() == 0
    }
}

/// Errors that can arise when trying to [`parse`] a [`Program`]. Lines are counted from the one
/// after the header, from zero.
#[allow(inconsistent_fields)]
#[derive(PartialEq, Eq, Debug)]
pub enum ParseError {
    /// There is no line at all.
    EmptyProg,
    /// The first line does not start with `# `; holds that line.
    BadHeader(String),
    /// A line has no whitespace after its number.
    EmptyLine(usize),
    /// A line's number is not a hex `u16`.
    BadHex { line: usize, error: HexParseError },
    /// A line's number is not its index.
    LineNumber { line: usize, value: u16 },
    /// A line's expression cannot be read.
    BadExpr { line: usize, error: ExprParseError },
    /// A line's expression reads itself or a later one.
    FutureOrSelfArgs { line: usize, expr: Expr },
}

/// A [`ParseError`] with its text as sequences of characters.
#[allow(inconsistent_fields)]
pub enum ParseErrorView {
    EmptyProg,
    BadHeader(Seq<char>),
    EmptyLine(int),
    BadHex { line: int, error: HexErrorView },
    LineNumber { line: int, value: u16 },
    BadExpr { line: int, error: ExprErrorView },
    FutureOrSelfArgs { line: int, expr: Expr },
}

impl View for ParseError {
    type V = ParseErrorView;

    open spec fn view(&self) -> ParseErrorView {
        match self {
            ParseError::EmptyProg => ParseErrorView::EmptyProg,
            ParseError::BadHeader(s) => ParseErrorView::BadHeader(s@),
            ParseError::EmptyLine(l) => ParseErrorView::EmptyLine(*l as int),
            ParseError::BadHex { line, error } => ParseErrorView::BadHex {
                line: *line as int,
                error: error@,
            },
            ParseError::LineNumber { line, value } => ParseErrorView::LineNumber {
                line: *line as int,
                value: *value,
            },
            ParseError::BadExpr { line, error } => ParseErrorView::BadExpr {
                line: *line as int,
                error: error@,
            },
            ParseError::FutureOrSelfArgs { line, expr } => ParseErrorView::FutureOrSelfArgs {
                line: *line as int,
                expr: *expr,
            },
        }
    }
}

/// A program as its header and its expressions.
pub open spec fn program_view(p: Program) -> (Seq<char>, Seq<Expr>) {
    (p.header@, p.exprs@)
}

/// A `Result` of parsing by its views.
pub open spec fn program_result_view(r: Result<Program, ParseError>) -> Result<
    (Seq<char>, Seq<Expr>),
    ParseErrorView,
> {
    match r {
        Ok(p) => Ok(program_view(p)),
        Err(e) => Err(e@),
    }
}

/// What the value tokens of constants read as: `dec(k, t)` is the bit pattern of the `k`-th
/// constant's value token `t` read as an `f32`, or `None` where it is none.
pub type ConstReader = spec_fn(int, Seq<char>) -> Option<u32>;

/// The constants' values taken in order from a list; a constant beyond its end reads as none.
pub open spec fn list_reader(consts: Seq<Option<u32>>) -> ConstReader {
    |k: int, t: Seq<char>|
        if 0 <= k < consts.len() {
            consts[k]
        } else {
            None
        }
}

/// Every constant's value token reads as some value: the reading that finds every line whose
/// constant will need a value.
pub open spec fn reader_accepting_all() -> ConstReader {
    |k: int, t: Seq<char>| Some(0u32)
}

/// The value token of a constant, as a list of the tokens that were read.
pub open spec fn seen(ct: Option<Seq<char>>) -> Seq<Seq<char>> {
    match ct {
        Some(t) => seq![t],
        None => seq![],
    }
}

/// Reading the `line`-th expression line `l`, where `k` constants came before: the expression
/// or the error, and the value token of the constant if the line is one (and got as far).
///
/// A line is its number (`_` and hex, equal to its index), whitespace, and an expression that
/// may only read earlier lines.
pub open spec fn spec_parse_line(l: Seq<char>, line: int, k: int, dec: ConstReader) -> (
    Result<Expr, ParseErrorView>,
    Option<Seq<char>>,
) {
    match first_index(l, ws()) {
        None => (Err(ParseErrorView::EmptyLine(line)), None),
        Some(i) => match spec_hex(l.take(i)) {
            Err(e) => (Err(ParseErrorView::BadHex { line, error: e }), None),
            Ok(j) => {
                if j as int != line {
                    (Err(ParseErrorView::LineNumber { line, value: j }), None)
                } else {
                    let rest = l.skip(i + 1);
                    let ct = const_token(rest);
                    let c = match ct {
                        Some(t) => dec(k, t),
                        None => None,
                    };
                    match spec_parse_expr(rest, c) {
                        Err(e) => (Err(ParseErrorView::BadExpr { line, error: e }), ct),
                        Ok(e) => {
                            if !args_before(e, line) {
                                (Err(ParseErrorView::FutureOrSelfArgs { line, expr: e }), ct)
                            } else {
                                (Ok(e), ct)
                            }
                        },
                    }
                }
            },
        },
    }
}

/// Reading the expression lines `ls` from the `line`-th on, where `k` constants came before and
/// `acc` holds the expressions read so far: the result, and the value tokens of the constants
/// that were read, in order.
#[verifier::opaque]
pub open spec fn parse_body(
    ls: Seq<Seq<char>>,
    line: int,
    k: int,
    dec: ConstReader,
    acc: Seq<Expr>,
) -> (Result<Seq<Expr>, ParseErrorView>, Seq<Seq<char>>)
    decreases ls.len() - line,
{
    if line < 0 || line >= ls.len() {
        (Ok(acc), seq![])
    } else {
        let (r, ct) = spec_parse_line(ls[line], line, k, dec);
        match r {
            Err(e) => (Err(e), seen(ct)),
            Ok(e) => {
                let next = parse_body(
                    ls,
                    line + 1,
                    if ct is Some {
                        k + 1
                    } else {
                        k
                    },
                    dec,
                    acc.push(e),
                );
                (next.0, seen(ct) + next.1)
            },
        }
    }
}


/// One step of [`parse_body`]: the `line`-th line read, then the rest.
pub proof fn lemma_body_step(ls: Seq<Seq<char>>, line: int, k: int, dec: ConstReader, acc: Seq<Expr>)
    requires
        0 <= line < ls.len(),
    ensures
        ({
            let (r, ct) = spec_parse_line(ls[line], line, k, dec);
            let here = parse_body(ls, line, k, dec, acc);
            match r {
                Err(e) => here == (Err::<Seq<Expr>, ParseErrorView>(e), seen(ct)),
                Ok(e) => {
                    let next = parse_body(ls, line + 1, if ct is Some { k + 1 } else { k }, dec, acc.push(e));
                    here.0 == next.0 && here.1 == seen(ct) + next.1
                },
            }
        }),
{
    reveal(parse_body);
}

/// [`parse_body`] past the last line gives what was read.
pub proof fn lemma_body_end(ls: Seq<Seq<char>>, line: int, k: int, dec: ConstReader, acc: Seq<Expr>)
    requires
        line >= ls.len(),
    ensures
        parse_body(ls, line, k, dec, acc) == (Ok::<Seq<Expr>, ParseErrorView>(acc), Seq::<Seq<char>>::empty()),
{
    reveal(parse_body);
}

/// The header line starts with `# `.
pub open spec fn good_header(l: Seq<char>) -> bool {
    l.len() >= 2 && l[0] == '#' && l[1] == ' '
}

/// Reading the program text `s` with the constant reader `dec`: the header (the first line,
/// after `# `) and the expressions, or the first error; and the value tokens of the constants
/// that were read.
pub open spec fn spec_parse(s: Seq<char>, dec: ConstReader) -> (
    Result<(Seq<char>, Seq<Expr>), ParseErrorView>,
    Seq<Seq<char>>,
) {
    let ls = lines(s);
    if ls.len() == 0 {
        (Err(ParseErrorView::EmptyProg), seq![])
    } else if !good_header(ls[0]) {
        (Err(ParseErrorView::BadHeader(ls[0])), seq![])
    } else {
        let b = parse_body(ls.skip(1), 0, 0, dec, seq![]);
        (
            match b.0 {
                Ok(xs) => Ok((ls[0].skip(2), xs)),
                Err(e) => Err(e),
            },
            b.1,
        )
    }
}

proof fn lemma_body_shape(ls: Seq<Seq<char>>, line: int, k: int, dec: ConstReader, acc: Seq<Expr>)
    requires
        0 <= line,
        acc.len() == line,
        line <= 0x10000,
        well_formed(acc),
    ensures
        parse_body(ls, line, k, dec, acc).0 matches Ok(xs) ==> well_formed(xs) && xs.len()
            <= 0x10000,
    decreases ls.len() - line,
{
    if line >= ls.len() {
        lemma_body_end(ls, line, k, dec, acc);
    } else {
        lemma_body_step(ls, line, k, dec, acc);
        let (r, ct) = spec_parse_line(ls[line], line, k, dec);
        if let Ok(e) = r {
            let next = acc.push(e);
            assert forall|i: int| 0 <= i < next.len() implies args_before(#[trigger] next[i], i) by {
                if i < acc.len() {
                    assert(next[i] == acc[i]);
                }
            }
            lemma_body_shape(ls, line + 1, if ct is Some { k + 1 } else { k }, dec, next);
        }
    }
}

/// What parsing gives is a program that the translations take: each expression reads only
/// earlier ones (a line reading itself or a later one is an error), and there are at most
/// `0x10000` expressions (each line's number is a `u16` equal to its index).
pub proof fn lemma_parse_shape(s: Seq<char>, dec: ConstReader)
    ensures
        spec_parse(s, dec).0 matches Ok(p) ==> well_formed(p.1) && p.1.len() <= 0x10000,
{
    let ls = lines(s);
    if ls.len() > 0 && good_header(ls[0]) {
        lemma_body_shape(ls.skip(1), 0, 0, dec, seq![]);
    }
}

/// The characters of each span of `s`.
pub open spec fn spans_view(s: Seq<char>, spans: Seq<(usize, usize)>) -> Seq<Seq<char>> {
    spans.map_values(|sp: (usize, usize)| s.subrange(sp.0 as int, sp.1 as int))
}



/// Read the `line`-th expression line, `v[pos..end]`, where `k` constants came before: the
/// expression or the error, and the span of the value token of the constant if the line is one.
#[verifier::rlimit(80)]
#[verifier::spinoff_prover]
fn parse_line(
    v: &Vec<char>,
    pos: usize,
    end: usize,
    line: usize,
    k: usize,
    consts: &Vec<Option<u32>>,
    accept_all: bool,
) -> (r: (Result<Expr, ParseError>, Option<(usize, usize)>))
    requires
        pos <= end <= v.len(),
    ensures
        ({
            let want = spec_parse_line(
                v@.subrange(pos as int, end as int),
                line as int,
                k as int,
                chosen_reader(consts@, accept_all),
            );
            &&& match r.0 {
                Ok(e) => want.0 == Ok::<Expr, ParseErrorView>(e),
                Err(e) => want.0 == Err::<Expr, ParseErrorView>(e@),
            }
            &&& match want.1 {
                Some(t) => r.1 matches Some(sp) && sp.0 <= sp.1 <= v@.len() && v@.subrange(
                    sp.0 as int,
                    sp.1 as int,
                ) == t,
                None => r.1 is None,
            }
        }),
{
    let ghost dec = chosen_reader(consts@, accept_all);
    let ghost l = v@.subrange(pos as int, end as int);
    let mut i: usize = pos;
    while i < end && !is_ws_char(v[i])
        invariant
            pos <= i <= end <= v.len(),
            forall|j: int| pos <= j < i ==> !is_ascii_ws(v@[j]),
        decreases end - i,
    {
        i = i + 1;
    }
    if i == end {
        proof {
            assert forall|j: int| 0 <= j < l.len() implies !(ws())(#[trigger] l[j]) by {
                assert(l[j] == v@[pos + j]);
            }
            lemma_first_index_none(l, ws());
        }
        return (Err(ParseError::EmptyLine(line)), None);
    }
    proof {
        assert forall|j: int| 0 <= j < i - pos implies !(ws())(#[trigger] l[j]) by {
            assert(l[j] == v@[pos + j]);
        }
        lemma_first_index_unique(l, ws(), i - pos);
        assert(l.take(i - pos) =~= v@.subrange(pos as int, i as int));
        assert(l.skip(i - pos + 1) =~= v@.subrange(i + 1, end as int));
    }
    let j = match hex_span(v, pos, i) {
        Ok(j) => j,
        Err(e) => {
            return (Err(ParseError::BadHex { line, error: e }), None);
        },
    };
    if j as usize != line {
        return (Err(ParseError::LineNumber { line, value: j }), None);
    }
    let ghost rest = v@.subrange(i + 1, end as int);
    let spans = token_spans(v, i + 1, end);
    let ct = const_token_span(v, &spans, Ghost(i + 1), Ghost(end as int));
    let c: Option<u32> = match ct {
        Some(_) => {
            if accept_all {
                Some(0u32)
            } else if k < consts.len() {
                consts[k]
            } else {
                None
            }
        },
        None => None,
    };
    proof {
        assert(c == match const_token(rest) {
            Some(t) => dec(k as int, t),
            None => None::<u32>,
        });
    }
    let e = match parse_expr_spans(v, &spans, c, Ghost(i + 1), Ghost(end as int)) {
        Ok(e) => e,
        Err(err) => {
            return (Err(ParseError::BadExpr { line, error: err }), ct);
        },
    };
    if !e.args_before(line) {
        return (Err(ParseError::FutureOrSelfArgs { line, expr: e }), ct);
    }
    (Ok(e), ct)
}

/// The constant reader that `parse_chars` follows.
pub open spec fn chosen_reader(consts: Seq<Option<u32>>, accept_all: bool) -> ConstReader {
    if accept_all {
        reader_accepting_all()
    } else {
        list_reader(consts)
    }
}

/// Read the program text `v`, with the constants' values from `consts` (or, with `accept_all`,
/// every constant's value token taken as readable); also gives the spans of the value tokens of
/// the constants that were read.
#[verifier::rlimit(100)]
#[verifier::spinoff_prover]
fn parse_chars(v: &Vec<char>, consts: &Vec<Option<u32>>, accept_all: bool) -> (r: (
    Result<Program, ParseError>,
    Vec<(usize, usize)>,
))
    ensures
        program_result_view(r.0) == spec_parse(v@, chosen_reader(consts@, accept_all)).0,
        spans_view(v@, r.1@) == spec_parse(v@, chosen_reader(consts@, accept_all)).1,
        forall|q: int| 0 <= q < r.1@.len() ==> (#[trigger] r.1@[q]).0 <= r.1@[q].1 <= v@.len(),
{
    let ghost dec = chosen_reader(consts@, accept_all);
    let mut toks: Vec<(usize, usize)> = Vec::new();
    proof {
        assert(spans_view(v@, toks@) =~= Seq::<Seq<char>>::empty());
    }
    if v.len() == 0 {
        return (Err(ParseError::EmptyProg), toks);
    }
    let (hend, body_start) = next_line(v, 0);
    let ghost ls = lines(v@);
    let ghost body = lines(v@.skip(body_start as int));
    proof {
        assert(v@.skip(0) =~= v@);
        assert(ls[0] == v@.subrange(0, hend as int));
        assert(ls.skip(1) =~= body);
    }
    if !(hend >= 2 && v[0] == '#' && v[1] == ' ') {
        return (Err(ParseError::BadHeader(string_of_span(v, 0, hend))), toks);
    }
    let ghost whole = parse_body(body, 0, 0, dec, seq![]);
    let mut pos: usize = body_start;
    let mut line: usize = 0;
    let mut k: usize = 0;
    let mut exprs: Vec<Expr> = Vec::new();
    proof {
        assert(body.skip(0) =~= body);
    }
    while pos < v.len()
        invariant
            body_start <= pos <= v.len(),
            line <= pos,
            k <= line,
            line <= body.len(),
            dec == chosen_reader(consts@, accept_all),
            body == lines(v@.skip(body_start as int)),
            ls == lines(v@),
            ls.len() > 0,
            good_header(ls[0]),
            ls.skip(1) == body,
            lines(v@.skip(pos as int)) == body.skip(line as int),
            whole == parse_body(body, 0, 0, dec, seq![]),
            whole.0 == parse_body(body, line as int, k as int, dec, exprs@).0,
            whole.1 == spans_view(v@, toks@) + parse_body(body, line as int, k as int, dec, exprs@).1,
            forall|q: int| 0 <= q < toks@.len() ==> (#[trigger] toks@[q]).0 <= toks@[q].1 <= v@.len(),
        decreases v.len() - pos,
    {
        let (end, next) = next_line(v, pos);
        let ghost l = v@.subrange(pos as int, end as int);
        let ghost cur = parse_body(body, line as int, k as int, dec, exprs@);
        proof {
            assert(body.skip(line as int).len() >= 1);
            assert(body[line as int] == body.skip(line as int)[0]);
            assert(body.skip(line as int + 1) =~= body.skip(line as int).drop_first());
            assert(body[line as int] == l);
        }
        let (res, ct) = parse_line(v, pos, end, line, k, consts, accept_all);
        let ghost toks_before = toks@;
        match ct {
            Some(sp) => {
                toks.push(sp);
            },
            None => {},
        }
        proof {
            assert(spans_view(v@, toks@) =~= spans_view(v@, toks_before) + seen(
                spec_parse_line(l, line as int, k as int, dec).1,
            ));
            lemma_body_step(body, line as int, k as int, dec, exprs@);
            let sv = spans_view(v@, toks_before);
            let sn = seen(spec_parse_line(l, line as int, k as int, dec).1);
            if let Ok(e) = spec_parse_line(l, line as int, k as int, dec).0 {
                let nk = if spec_parse_line(l, line as int, k as int, dec).1 is Some { k + 1 } else { k as int };
                let rest = parse_body(body, line as int + 1, nk, dec, exprs@.push(e)).1;
                assert(sv + (sn + rest) =~= (sv + sn) + rest);
            } else {
                assert(sv + sn =~= (sv + sn) + Seq::<Seq<char>>::empty());
            }
        }
        let e = match res {
            Ok(e) => e,
            Err(err) => {
                return (Err(err), toks);
            },
        };
        exprs.push(e);
        if ct.is_some() {
            k = k + 1;
        }
        line = line + 1;
        pos = next;
    }
    proof {
        assert(v@.skip(pos as int) =~= Seq::<char>::empty());
        assert(body.skip(line as int).len() == 0);
        lemma_body_end(body, line as int, k as int, dec, exprs@);
        assert(spans_view(v@, toks@) =~= spans_view(v@, toks@) + Seq::<Seq<char>>::empty());
    }
    let header = string_of_span(v, 2, hend);
    proof {
        assert(ls[0].skip(2) =~= v@.subrange(2, hend as int));
    }
    (Ok(Program { header, exprs }), toks)
}

/// Read a program from its text `s`, where `const_bits[k]` is the bit pattern that the value
/// token of the `k`-th constant reads as as an `f32` (`None` where it reads as none, as it does
/// for a constant beyond the list's end). The value tokens are those that [`const_tokens`]
/// gives.
pub fn parse(s: &str, const_bits: &Vec<Option<u32>>) -> (r: Result<Program, ParseError>)
    ensures
        program_result_view(r) == spec_parse(s@, list_reader(const_bits@)).0,
{
    let v = chars_of(s);
    let (r, _) = parse_chars(&v, const_bits, false);
    r
}

/// The value tokens of the constants that reading the program text `s` reads, in order: those
/// of the lines before the first error other than an unreadable constant.
pub fn const_tokens(s: &str) -> (r: Vec<String>)
    ensures
        r@.map_values(|t: String| t@) == spec_parse(s@, reader_accepting_all()).1,
{
    let v = chars_of(s);
    let none: Vec<Option<u32>> = Vec::new();
    let (_, spans) = parse_chars(&v, &none, true);
    let mut out: Vec<String> = Vec::new();
    let mut i: usize = 0;
    while i < spans.len()
        invariant
            i <= spans@.len(),
            forall|q: int| 0 <= q < spans@.len() ==> (#[trigger] spans@[q]).0 <= spans@[q].1 <= v@.len(),
            out@.map_values(|t: String| t@) == spans_view(v@, spans@).take(i as int),
        decreases spans@.len() - i,
    {
        let (p, q) = spans[i];
        let ghost before = out@;
        out.push(string_of_span(&v, p, q));
        proof {
            assert(out@.map_values(|t: String| t@) =~= before.map_values(|t: String| t@).push(
                v@.subrange(p as int, q as int),
            ));
            assert(spans_view(v@, spans@).take(i + 1) =~= spans_view(v@, spans@).take(i as int).push(
                v@.subrange(p as int, q as int),
            ));
        }
        i = i + 1;
    }
    proof {
        assert(spans_view(v@, spans@).take(i as int) =~= spans_view(v@, spans@));
    }
    out
}

/// Just a unit struct, a place to hang the program reader.
pub struct Parser;

impl Parser {
    /// Read a program from its text; see [`parse`].
    pub fn translate(&self, input: &str, const_bits: &Vec<Option<u32>>) -> (r: Result<
        Program,
        ParseError,
    >)
        ensures
            program_result_view(r) == spec_parse(input@, list_reader(const_bits@)).0,
    {
        parse(input, const_bits)
    }
}


// ---------------------------------------------------------------------------------------------
// Writing expressions and programs as text.

/// The lower case hexadecimal digit for `d < 16`.
pub open spec fn hex_char(d: nat) -> char {
    if d < 10 {
        ('0' as int + d) as char
    } else {
        ('a' as int + d - 10) as char
    }
}

/// `n` in lower case hexadecimal, without leading zeros (as `{n:x}` formats it).
pub open spec fn hex_text(n: nat) -> Seq<char>
    decreases n,
{
    if n < 16 {
        seq![hex_char(n)]
    } else {
        hex_text(n / 16).push(hex_char(n % 16))
    }
}

/// The text of the expression `e`, where `ct` is the text of its value if it is a constant.
pub open spec fn expr_text(e: Expr, ct: Seq<char>) -> Seq<char> {
    match e {
        Expr::VarX => kw_var_x(),
        Expr::VarY => kw_var_y(),
        Expr::Const(_) => kw_const() + seq![' '] + ct,
        Expr::Dyad(op, x, y) => dyad_name(op) + seq![' ', '_'] + hex_text(x as nat) + seq![
            ' ',
            '_',
        ] + hex_text(y as nat),
        Expr::Monad(op, x) => monad_name(op) + seq![' ', '_'] + hex_text(x as nat),
    }
}

/// The text of the `i`-th line of a program, without its line feed.
pub open spec fn line_text(i: nat, e: Expr, ct: Seq<char>) -> Seq<char> {
    seq!['_'] + hex_text(i) + seq![' '] + expr_text(e, ct)
}

/// The lines of the first `n` expressions of `xs`, each ended by a line feed, where `texts[i]`
/// is the text of the value of the `i`-th expression if it is a constant.
pub open spec fn body_text(xs: Seq<Expr>, texts: Seq<Seq<char>>, n: nat) -> Seq<char>
    decreases n,
{
    if n == 0 {
        seq![]
    } else {
        body_text(xs, texts, (n - 1) as nat) + line_text((n - 1) as nat, xs[n - 1], texts[n - 1])
            + seq!['\n']
    }
}

/// The text of the program with header `h` and expressions `xs`, where `texts[i]` is the text
/// of the value of the `i`-th expression if it is a constant.
pub open spec fn program_text(h: Seq<char>, xs: Seq<Expr>, texts: Seq<Seq<char>>) -> Seq<char> {
    seq!['#', ' '] + h + seq!['\n'] + body_text(xs, texts, xs.len())
}

/// Append the hexadecimal text of `n` to `out`.
pub fn push_hex(out: &mut Vec<char>, n: usize)
    ensures
        final(out)@ == old(out)@ + hex_text(n as nat),
    decreases n,
{
    if n >= 16 {
        push_hex(out, n / 16);
    }
    let d = n % 16;
    let c: char = if d < 10 {
        char_of_code(('0' as u32) + (d as u32))
    } else {
        char_of_code(('a' as u32) + (d as u32) - 10)
    };
    out.push(c);
    proof {
        if n >= 16 {
            assert(hex_text(n as nat) == hex_text((n / 16) as nat).push(hex_char((n % 16) as nat)));
        }
    }
}

/// The character of a hexadecimal digit's code.
fn char_of_code(code: u32) -> (c: char)
    requires
        ('0' as u32) <= code <= ('9' as u32) || ('a' as u32) <= code <= ('f' as u32),
    ensures
        c as u32 == code,
{
    if code <= ('9' as u32) {
        if code == '0' as u32 { '0' } else if code == '1' as u32 { '1' } else if code == '2' as u32 { '2' }
        else if code == '3' as u32 { '3' } else if code == '4' as u32 { '4' } else if code == '5' as u32 { '5' }
        else if code == '6' as u32 { '6' } else if code == '7' as u32 { '7' } else if code == '8' as u32 { '8' }
        else { '9' }
    } else {
        if code == 'a' as u32 { 'a' } else if code == 'b' as u32 { 'b' } else if code == 'c' as u32 { 'c' }
        else if code == 'd' as u32 { 'd' } else if code == 'e' as u32 { 'e' } else { 'f' }
    }
}

impl Expr {
    /// Append the text of this expression to `out`, with `const_text` as the text of its value
    /// if it is a constant.
    pub fn push_text(&self, out: &mut Vec<char>, const_text: &str)
        ensures
            final(out)@ == old(out)@ + expr_text(*self, const_text@),
    {
        let ghost start = out@;
        match *self {
            Expr::VarX => push_chars(out, &['v', 'a', 'r', '-', 'x']),
            Expr::VarY => push_chars(out, &['v', 'a', 'r', '-', 'y']),
            Expr::Const(_) => {
                push_chars(out, &['c', 'o', 'n', 's', 't', ' ']);
                let t = chars_of(const_text);
                push_chars(out, t.as_slice());
                proof {
                    assert(out@ =~= start + expr_text(*self, const_text@));
                }
            },
            Expr::Dyad(op, x, y) => {
                let name = op.name();
                let nc = chars_of(name.as_str());
                push_chars(out, nc.as_slice());
                push_chars(out, &[' ', '_']);
                push_hex(out, x as usize);
                push_chars(out, &[' ', '_']);
                push_hex(out, y as usize);
                proof {
                    assert(out@ =~= start + expr_text(*self, const_text@));
                }
            },
            Expr::Monad(op, x) => {
                let name = op.name();
                let nc = chars_of(name.as_str());
                push_chars(out, nc.as_slice());
                push_chars(out, &[' ', '_']);
                push_hex(out, x as usize);
                proof {
                    assert(out@ =~= start + expr_text(*self, const_text@));
                }
            },
        }
    }

    /// The text of this expression, with `const_text` as the text of its value if it is a
    /// constant.
    pub fn to_text(&self, const_text: &str) -> (r: String)
        ensures
            r@ == expr_text(*self, const_text@),
    {
        let mut out: Vec<char> = Vec::new();
        self.push_text(&mut out, const_text);
        proof {
            assert(out@ =~= expr_text(*self, const_text@));
        }
        string_from(out.as_slice())
    }
}

impl Program {
    /// The text of this program: `# ` and the header, then one line per expression, its index
    /// in hexadecimal after `_`, a space and its text; every line ends with a line feed.
    /// `const_texts[i]` is the text of the value of the `i`-th expression if it is a constant.
    pub fn to_text(&self, const_texts: &Vec<String>) -> (r: String)
        requires
            const_texts@.len() == self.exprs@.len(),
        ensures
            r@ == program_text(
                self.header@,
                self.exprs@,
                const_texts@.map_values(|t: String| t@),
            ),
    {
        let ghost texts = const_texts@.map_values(|t: String| t@);
        let mut out: Vec<char> = Vec::new();
        push_chars(&mut out, &['#', ' ']);
        let hc = chars_of(self.header.as_str());
        push_chars(&mut out, hc.as_slice());
        push_chars(&mut out, &['\n']);
        let ghost head = out@;
        proof {
            assert(out@ =~= head + body_text(self.exprs@, texts, 0));
        }
        let mut i: usize = 0;
        while i < self.exprs.len()
            invariant
                i <= self.exprs@.len(),
                const_texts@.len() == self.exprs@.len(),
                texts == const_texts@.map_values(|t: String| t@),
                head == seq!['#', ' '] + self.header@ + seq!['\n'],
                out@ == head + body_text(self.exprs@, texts, i as nat),
            decreases self.exprs@.len() - i,
        {
            let ghost before = out@;
            push_chars(&mut out, &['_']);
            push_hex(&mut out, i);
            push_chars(&mut out, &[' ']);
            self.exprs[i].push_text(&mut out, const_texts[i].as_str());
            push_chars(&mut out, &['\n']);
            proof {
                assert(texts[i as int] == const_texts@[i as int]@);
                assert(out@ =~= before + line_text(i as nat, self.exprs@[i as int], texts[i as int]) + seq!['\n']);
            }
            i = i + 1;
        }
        string_from(out.as_slice())
    }
}


// ---------------------------------------------------------------------------------------------
// What an expression of a program computes, as a tree.

/// The computation an expression stands for, with the expressions it reads put in place.
pub enum Term {
    X,
    Y,
    C(u32),
    D(Dyad, Box<Term>, Box<Term>),
    M(Monad, Box<Term>),
}

/// The computation that the `i`-th expression of `xs` stands for. (An argument that is not an
/// earlier expression stands for `X`; a well formed program has none.)
pub open spec fn term(xs: Seq<Expr>, i: int) -> Term
    decreases i,
{
    if i < 0 || i >= xs.len() {
        Term::X
    } else {
        match xs[i] {
            Expr::VarX => Term::X,
            Expr::VarY => Term::Y,
            Expr::Const(b) => Term::C(b),
            Expr::Dyad(op, x, y) => {
                if (x as int) < i && (y as int) < i {
                    Term::D(op, Box::new(term(xs, x as int)), Box::new(term(xs, y as int)))
                } else {
                    Term::X
                }
            },
            Expr::Monad(op, x) => {
                if (x as int) < i {
                    Term::M(op, Box::new(term(xs, x as int)))
                } else {
                    Term::X
                }
            },
        }
    }
}

} // verus!
