use std::collections::HashSet;
use trinculo::expr::{
    const_tokens, hex, parse, Dyad, Expr, ExprParseError, ExprU64Error, HexParseError, Monad,
    ParseError, Parser, Program,
};
use trinculo::expr::well_formed_exprs;

/// Read a program, reading its constants' value tokens as `f32`s.
fn read_program(s: &str) -> Result<Program, ParseError> {
    let bits: Vec<Option<u32>> = const_tokens(s)
        .iter()
        .map(|t| t.parse::<f32>().ok().map(f32::to_bits))
        .collect();
    parse(s, &bits)
}

/// Read one expression, reading a constant's value token as an `f32`.
fn read_expr(s: &str) -> Result<Expr, ExprParseError> {
    let bits = Expr::const_token(s).and_then(|t| t.parse::<f32>().ok().map(f32::to_bits));
    Expr::from_text(s, bits)
}

/// The text of a constant's value, as `{:?}` writes an `f32`.
fn const_text(e: &Expr) -> String {
    match e {
        Expr::Const(b) => format!("{:?}", f32::from_bits(*b)),
        _ => String::new(),
    }
}

fn expr_text(e: &Expr) -> String {
    e.to_text(&const_text(e))
}

fn program_text(p: &Program) -> String {
    let texts: Vec<String> = p.exprs.iter().map(const_text).collect();
    p.to_text(&texts)
}

fn c(x: f32) -> Expr {
    Expr::Const(x.to_bits())
}

const DYADS: [Dyad; 5] = [Dyad::Add, Dyad::Sub, Dyad::Mul, Dyad::Max, Dyad::Min];
const MONADS: [Monad; 3] = [Monad::Neg, Monad::Square, Monad::Sqrt];

fn sample_exprs() -> Vec<Expr> {
    let mut v = vec![
        Expr::VarX,
        Expr::VarY,
        c(0.0),
        c(-0.0),
        c(1.5),
        c(-2.25e-7),
        c(3.4028235e38),
        c(f32::INFINITY),
        c(f32::NEG_INFINITY),
    ];
    for d in DYADS {
        v.push(Expr::Dyad(d, 0, 0));
        v.push(Expr::Dyad(d, 0x1a, 0xffff));
        v.push(Expr::Dyad(d, 0xffff, 7));
    }
    for m in MONADS {
        v.push(Expr::Monad(m, 0));
        v.push(Expr::Monad(m, 0xabc));
        v.push(Expr::Monad(m, 0xffff));
    }
    v
}

fn sample_program() -> Program {
    Program {
        header: "sample program".to_string(),
        exprs: vec![
            Expr::VarX,
            Expr::VarY,
            c(2.5),
            Expr::Dyad(Dyad::Mul, 0, 0),
            Expr::Dyad(Dyad::Mul, 1, 1),
            Expr::Dyad(Dyad::Add, 3, 4),
            Expr::Monad(Monad::Sqrt, 5),
            Expr::Dyad(Dyad::Sub, 6, 2),
            c(-0.125),
            Expr::Dyad(Dyad::Max, 7, 8),
            Expr::Monad(Monad::Neg, 9),
            Expr::Monad(Monad::Square, 10),
            Expr::Dyad(Dyad::Min, 11, 7),
        ],
    }
}

#[test]
fn dyad_roundtrip() {
    for x in DYADS {
        let y = Dyad::from_name(&x.name());
        assert!(y.is_some());
        assert_eq!(x, y.unwrap());
    }
}

#[test]
fn monad_roundtrip() {
    for x in MONADS {
        let y = Monad::from_name(&x.name());
        assert!(y.is_some());
        assert_eq!(x, y.unwrap());
    }
}

#[test]
fn op_names() {
    let names: Vec<String> = DYADS.iter().map(|d| d.name()).collect();
    assert_eq!(names, vec!["add", "sub", "mul", "max", "min"]);
    let names: Vec<String> = MONADS.iter().map(|m| m.name()).collect();
    assert_eq!(names, vec!["neg", "square", "sqrt"]);
    assert_eq!(Dyad::from_name("Add"), None);
    assert_eq!(Dyad::from_name("neg"), None);
    assert_eq!(Monad::from_name("add"), None);
    assert_eq!(Monad::from_name(""), None);
}

#[test]
fn expr_roundtrip() {
    for x in sample_exprs() {
        let y = read_expr(&expr_text(&x));
        assert!(y.is_ok());
        let y = y.unwrap();
        assert_eq!(x, y);
    }
}

#[test]
fn expr_text_exact() {
    assert_eq!(expr_text(&Expr::VarX), "var-x");
    assert_eq!(expr_text(&Expr::VarY), "var-y");
    assert_eq!(expr_text(&c(1.0)), "const 1.0");
    assert_eq!(expr_text(&Expr::Dyad(Dyad::Add, 0x1a, 0xffff)), "add _1a _ffff");
    assert_eq!(expr_text(&Expr::Monad(Monad::Sqrt, 0)), "sqrt _0");
    assert_eq!(Expr::Const(0).to_text("2.5"), "const 2.5");
}

#[test]
fn expr_hash_eq() {
    let xs = sample_exprs();
    for &x in &xs {
        for &y in &xs {
            assert_eq!(x == y, HashSet::from([x]) == HashSet::from([y]));
        }
    }
}

#[test]
fn expr_u64_roundtrip() {
    for x in sample_exprs() {
        let b = u64::from(x);
        assert_eq!(b, x.to_u64());
        let y = Expr::try_from(b);
        assert!(y.is_ok());
        let y = y.unwrap();
        assert_eq!(x, y);
    }
}

#[test]
fn expr_u64_exact() {
    assert_eq!(Expr::VarX.to_u64(), 0);
    assert_eq!(Expr::VarY.to_u64(), 1);
    assert_eq!(c(1.0).to_u64(), 2 | (0x3f80_0000u64 << 32));
    assert_eq!(Expr::Dyad(Dyad::Max, 1, 2).to_u64(), 3 | (3 << 3) | (1 << 32) | (2 << 48));
    assert_eq!(Expr::Monad(Monad::Sqrt, 5).to_u64(), 4 | (2 << 3) | (5 << 32));
    assert_eq!(Dyad::Min.code(), 4);
    assert_eq!(Monad::Square.code(), 1);
}

#[test]
fn expr_u64_injective_on_samples() {
    let xs = sample_exprs();
    for &x in &xs {
        for &y in &xs {
            assert_eq!(x.to_u64() == y.to_u64(), x == y);
        }
    }
}

const PAYLOADS: [u64; 5] = [0, 1, 0xffff, 0xdead_beef, (1 << 32) - 1];

#[test]
fn expr_u64_junk() {
    for tag in 0u64..5 {
        for junk in [1u64, 2, 0x12345, (1 << 26) - 1] {
            for payload in PAYLOADS {
                let x = Expr::try_from(tag | (junk << 6) | (payload << 32));
                assert_eq!(x, Err(ExprU64Error::Junk(junk)));
            }
        }
    }
}

#[test]
fn expr_u64_nzx() {
    for op in 0u64..(1 << 3) {
        for payload in PAYLOADS {
            if (op, payload) != (0, 0) {
                let x = Expr::try_from((op << 3) | (payload << 32));
                assert_eq!(x, Err(ExprU64Error::NzX((op << 3) | (payload << 32))));
            }
        }
    }
}

#[test]
fn expr_u64_nzy() {
    for op in 0u64..(1 << 3) {
        for payload in PAYLOADS {
            if (op, payload) != (0, 0) {
                let x = Expr::try_from(1 | (op << 3) | (payload << 32));
                assert_eq!(x, Err(ExprU64Error::NzY((op << 3) | (payload << 32))));
            }
        }
    }
}

#[test]
fn expr_u64_nzc() {
    for op in 1u64..(1 << 3) {
        for payload in PAYLOADS {
            let x = Expr::try_from(2 | (op << 3) | (payload << 32));
            assert_eq!(x, Err(ExprU64Error::NzC((op << 3) | (payload << 32))));
        }
    }
}

#[test]
fn expr_u64_dyadop() {
    for op in 5u64..(1 << 3) {
        for payload in PAYLOADS {
            let x = Expr::try_from(3 | (op << 3) | (payload << 32));
            assert_eq!(x, Err(ExprU64Error::DyadOp(op << 3)));
        }
    }
}

#[test]
fn expr_u64_monadop() {
    for op in 3u64..(1 << 3) {
        for x in [0u64, 1, 0x1234, (1 << 16) - 1] {
            let r = Expr::try_from_u64(4 | (op << 3) | (x << 32));
            assert_eq!(r, Err(ExprU64Error::MonadOp(op << 3)));
        }
    }
}

#[test]
fn expr_u64_nzm() {
    for op in 0u64..3 {
        for x in [0u64, 1, (1 << 16) - 1] {
            for y in [1u64, 2, 0x8000, (1 << 16) - 1] {
                let r = Expr::try_from_u64(4 | (op << 3) | (x << 32) | (y << 48));
                assert_eq!(r, Err(ExprU64Error::NzM(y << 48)));
            }
        }
    }
}

#[test]
fn exp_u64_tag() {
    for tag in 6u64..8 {
        for op in 0u64..3 {
            for payload in PAYLOADS {
                let x = Expr::try_from(tag | (op << 3) | (payload << 32));
                assert_eq!(x, Err(ExprU64Error::Tag(tag)));
            }
        }
    }
}

#[test]
fn prog_roundtrip() {
    let empty = Program { header: "nothing here".to_string(), exprs: vec![] };
    for p in [sample_program(), empty] {
        let q = read_program(&program_text(&p));
        assert!(q.is_ok());
        let q = q.unwrap();
        assert_eq!(p, q);
    }
}

#[test]
fn prog_text_exact() {
    let p = Program {
        header: "tiny".to_string(),
        exprs: vec![Expr::VarX, c(0.5), Expr::Dyad(Dyad::Add, 0, 1)],
    };
    assert_eq!(program_text(&p), "# tiny\n_0 var-x\n_1 const 0.5\n_2 add _0 _1\n");
    let mut exprs = vec![Expr::VarX; 17];
    exprs[16] = Expr::Monad(Monad::Neg, 15);
    let p = Program { header: "hex".to_string(), exprs };
    let text = program_text(&p);
    assert!(text.ends_with("_f var-x\n_10 neg _f\n"));
}

#[test]
fn prog_empty_len_match() {
    let empty = Program { header: "e".to_string(), exprs: vec![] };
    for p in [sample_program(), empty] {
        assert_eq!(p.is_empty(), p.len() == 0);
    }
    assert_eq!(sample_program().len(), 13);
    assert!(!sample_program().is_empty());
}

#[test]
fn prog_parse_ok() {
    let p = read_program("# hello world\n_0 var-x\n_1 var-y\n_2 const -1.5\n_3 add _0 _1\n_4 neg _3");
    assert!(p.is_ok());
    let p = p.unwrap();
    assert_eq!(p.header, "hello world");
    assert!(well_formed_exprs(&p.exprs));
    assert_eq!(
        p.exprs,
        vec![Expr::VarX, Expr::VarY, c(-1.5), Expr::Dyad(Dyad::Add, 0, 1), Expr::Monad(Monad::Neg, 3)]
    );
    // carriage returns before line feeds, a trailing line feed, and extra blanks.
    let q = read_program("# hello world\r\n_0   var-x  \r\n_1\tvar-y\n_2 const   -1.5 \n_3 add   _0\t_1\n_4 neg _3\n");
    assert_eq!(q, Ok(p));
    // the header alone.
    let h = read_program("# just a header");
    assert_eq!(h, Ok(Program { header: "just a header".to_string(), exprs: vec![] }));
}

#[test]
fn parser_translate_same_as_parse() {
    let s = "# t\n_0 const 3\n_1 square _0";
    let bits = vec![Some(3.0f32.to_bits())];
    assert_eq!(Parser.translate(s, &bits), parse(s, &bits));
    assert_eq!(Parser.translate(s, &bits), read_program(s));
}

#[test]
fn const_tokens_in_order() {
    let s = "# t\n_0 const 1e3\n_1 var-x\n_2 const -7\n_3 max _0 _2";
    assert_eq!(const_tokens(s), vec!["1e3".to_string(), "-7".to_string()]);
    // a constant whose value is no f32 is still listed; what follows the first other error is
    // not.
    let s = "# t\n_0 const pi\n_1 sqrt _5\n_2 const 1";
    assert_eq!(const_tokens(s), vec!["pi".to_string()]);
    assert_eq!(const_tokens(""), Vec::<String>::new());
}

#[test]
fn parse_missing_const_values() {
    let s = "# t\n_0 const 1\n_1 const 2";
    let one = vec![Some(1.0f32.to_bits())];
    assert_eq!(
        parse(s, &one),
        Err(ParseError::BadExpr { line: 1, error: ExprParseError::BadF32("2".to_string()) })
    );
    let two = vec![Some(1.0f32.to_bits()), Some(2.0f32.to_bits())];
    assert!(parse(s, &two).is_ok());
}

#[test]
fn hex_parse_errors() {
    let cases = [
        ("0", HexParseError::Underscore("0".to_string())),
        ("_q", HexParseError::NotHex("_q".to_string())),
        ("_10000", HexParseError::TooBig(0x10000)),
        ("", HexParseError::Underscore(String::new())),
        ("_", HexParseError::NotHex("_".to_string())),
        ("_+", HexParseError::NotHex("_+".to_string())),
        ("_-1", HexParseError::NotHex("_-1".to_string())),
        ("_1_0", HexParseError::NotHex("_1_0".to_string())),
        ("_fffffffffffffffff", HexParseError::NotHex("_fffffffffffffffff".to_string())),
    ];
    for (input, expected) in cases {
        let h = hex(input);
        assert!(h.is_err());
        assert_eq!(h.err().unwrap(), expected);
    }
}

#[test]
fn hex_parse_ok() {
    assert_eq!(hex("_0"), Ok(0));
    assert_eq!(hex("_ffff"), Ok(0xffff));
    assert_eq!(hex("_FfFf"), Ok(0xffff));
    assert_eq!(hex("_+1a"), Ok(0x1a));
    assert_eq!(hex("_000000000000000000000001"), Ok(1));
    assert_eq!(hex("_ffffffffffffffff"), Err(HexParseError::TooBig(usize::MAX)));
}

#[test]
fn expr_parse_errors() {
    let cases = [
        ("", ExprParseError::MissingOp),
        ("const", ExprParseError::ConstValue),
        ("add _1", ExprParseError::DyadMissing(Dyad::Add)),
        ("sub", ExprParseError::DyadMissing(Dyad::Sub)),
        ("neg", ExprParseError::MonadMissing(Monad::Neg)),
        ("sqrt", ExprParseError::MonadMissing(Monad::Sqrt)),
        ("mul _1 0", ExprParseError::BadHex(HexParseError::Underscore("0".to_string()))),
        ("max _q _1", ExprParseError::BadHex(HexParseError::NotHex("_q".to_string()))),
        ("square _10000", ExprParseError::BadHex(HexParseError::TooBig(0x10000))),
        ("transmogrify _1 _2", ExprParseError::BadOp("transmogrify".to_string())),
        ("const asdf", ExprParseError::BadF32("asdf".to_string())),
        ("min _1 _2 pretty please", ExprParseError::Extra("pretty please".to_string())),
        ("neg _1 pretty please", ExprParseError::Extra("pretty please".to_string())),
    ];
    for (input, expected) in cases {
        let x = read_expr(input);
        assert!(x.is_err());
        assert_eq!(x.err().unwrap(), expected);
    }
}

#[test]
fn expr_parse_lenient() {
    assert_eq!(read_expr("  var-x and more"), Ok(Expr::VarX));
    assert_eq!(read_expr("var-y\t_3"), Ok(Expr::VarY));
    assert_eq!(read_expr("const 2 trailing"), Ok(c(2.0)));
    assert_eq!(read_expr("max   _a\t _b "), Ok(Expr::Dyad(Dyad::Max, 10, 11)));
    assert_eq!(
        read_expr("add _1 _2   a  b\tc"),
        Err(ExprParseError::Extra("a b c".to_string()))
    );
    assert_eq!(Expr::const_token("const 12 13"), Some("12".to_string()));
    assert_eq!(Expr::const_token("const"), None);
    assert_eq!(Expr::const_token("add _1 _2"), None);
}

#[test]
fn prog_parse_errors() {
    let cases = [
        ("", ParseError::EmptyProg),
        ("test\n_0 var-x", ParseError::BadHeader("test".to_string())),
        (
            "# test\n_q var-x",
            ParseError::BadHex { line: 0, error: HexParseError::NotHex("_q".to_string()) },
        ),
        ("# test\n_1 var-x", ParseError::LineNumber { line: 0, value: 1 }),
        (
            "# test\n_0 nonsense",
            ParseError::BadExpr { line: 0, error: ExprParseError::BadOp("nonsense".to_string()) },
        ),
        ("# test\n_1", ParseError::EmptyLine(0)),
        (
            "# test\n_0 add _1 _2",
            ParseError::FutureOrSelfArgs { line: 0, expr: Expr::Dyad(Dyad::Add, 1, 2) },
        ),
        (
            "# test\n_0 var-x\n_1 neg _1",
            ParseError::FutureOrSelfArgs { line: 1, expr: Expr::Monad(Monad::Neg, 1) },
        ),
        ("#test\n_0 var-x", ParseError::BadHeader("#test".to_string())),
        ("# test\n_0 var-x\n\n_1 var-y", ParseError::EmptyLine(1)),
        ("# test\n_0 var-x\n_2 var-y", ParseError::LineNumber { line: 1, value: 2 }),
    ];
    for (input, expected) in cases {
        let p = read_program(input);
        assert!(p.is_err());
        assert_eq!(p.err().unwrap(), expected);
    }
}

#[test]
fn well_formed_checks() {
    assert!(well_formed_exprs(&sample_program().exprs));
    assert!(well_formed_exprs(&[]));
    assert!(!well_formed_exprs(&[Expr::Monad(Monad::Neg, 0)]));
    assert!(!well_formed_exprs(&[Expr::VarX, Expr::Dyad(Dyad::Add, 0, 2), Expr::VarY]));
    assert!(Expr::Dyad(Dyad::Add, 0, 1).args_before(2));
    assert!(!Expr::Dyad(Dyad::Add, 0, 1).args_before(1));
}

#[test]
fn hex_reads_written_forms() {
    for v in [0u16, 1, 9, 0xa, 0xf, 0x10, 0x1a, 0xabc, 0x7fff, 0xffff] {
        assert_eq!(hex(&format!("_{v:x}")), Ok(v));
        assert_eq!(hex(&format!("_{v:X}")), Ok(v));
        assert_eq!(hex(&format!("_{v:04x}")), Ok(v));
        assert_eq!(hex(&format!("_{v:08X}")), Ok(v));
    }
}
