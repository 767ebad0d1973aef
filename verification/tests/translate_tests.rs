use trinculo::expr::{const_tokens, parse, Dyad, Expr, Monad, ParseError, Program};
use trinculo::reclaim::{ExprOrDel, Reclaim};
use trinculo::reuse::{Error, Reuse};
use trinculo::options::{translate_all, Translation};
use trinculo::unused::Unused;

fn read_program(s: &str) -> Result<Program, ParseError> {
    let bits: Vec<Option<u32>> = const_tokens(s)
        .iter()
        .map(|t| t.parse::<f32>().ok().map(f32::to_bits))
        .collect();
    parse(s, &bits)
}

fn c(x: f32) -> Expr {
    Expr::Const(x.to_bits())
}

/// What the expressions compute at the point `(vx, vy)`, one value per expression.
fn values(xs: &[Expr], vx: f32, vy: f32) -> Vec<f32> {
    let mut out: Vec<f32> = Vec::new();
    for &e in xs {
        let v = match e {
            Expr::VarX => vx,
            Expr::VarY => vy,
            Expr::Const(b) => f32::from_bits(b),
            Expr::Dyad(op, x, y) => {
                let (a, b) = (out[usize::from(x)], out[usize::from(y)]);
                match op {
                    Dyad::Add => a + b,
                    Dyad::Sub => a - b,
                    Dyad::Mul => a * b,
                    Dyad::Max => a.max(b),
                    Dyad::Min => a.min(b),
                }
            }
            Expr::Monad(op, x) => {
                let a = out[usize::from(x)];
                match op {
                    Monad::Neg => -a,
                    Monad::Square => a * a,
                    Monad::Sqrt => a.sqrt(),
                }
            }
        };
        out.push(v);
    }
    out
}

fn last_value(xs: &[Expr], vx: f32, vy: f32) -> f32 {
    *values(xs, vx, vy).last().unwrap()
}

const POINTS: [(f32, f32); 5] = [(0.0, 0.0), (0.5, -0.25), (-1.0, 1.0), (0.75, 0.125), (-0.3, -0.9)];

/// A program with repeated, swapped and anti-symmetric subexpressions and unused lines.
fn busy_program() -> Vec<Expr> {
    vec![
        Expr::VarX,                     // 0
        Expr::VarY,                     // 1
        Expr::Dyad(Dyad::Mul, 0, 0),    // 2 x*x
        Expr::Dyad(Dyad::Mul, 1, 1),    // 3 y*y
        Expr::Dyad(Dyad::Add, 2, 3),    // 4
        Expr::Dyad(Dyad::Add, 3, 2),    // 5 same as 4
        c(0.25),                        // 6
        Expr::Dyad(Dyad::Sub, 4, 6),    // 7
        Expr::Dyad(Dyad::Sub, 6, 5),    // 8 = -(7)
        Expr::Monad(Monad::Neg, 1),     // 9 unused
        c(0.25),                        // 10 same as 6
        Expr::Dyad(Dyad::Max, 7, 10),   // 11
        Expr::Dyad(Dyad::Min, 8, 11),   // 12
        Expr::VarX,                     // 13 same as 0, unused
        Expr::Monad(Monad::Square, 12), // 14
    ]
}

#[test]
fn reuse_ok() {
    let cases = [
        ("# empty\n", "# empty\n"),
        (
            "# add comm\n_0 var-x\n_1 var-y\n_2 add _0 _1\n_3 add _1 _0",
            "# add comm\n_0 var-x\n_1 var-y\n_2 add _0 _1",
        ),
        (
            "# anti-sub\n_0 var-x\n_1 var-y\n_2 sub _0 _1\n_3 sub _1 _0",
            "# anti-sub\n_0 var-x\n_1 var-y\n_2 sub _0 _1\n_3 neg _2",
        ),
    ];
    for (input, expected) in cases {
        let p = read_program(input);
        assert!(p.is_ok());
        let p = p.unwrap();
        let q = read_program(expected);
        let o = Reuse.translate(p.exprs);
        assert!(o.is_ok());
        let o = o.unwrap();
        assert!(q.is_ok());
        let q = q.unwrap();
        assert_eq!(o, q.exprs);
    }
}

#[test]
fn reuse_exact() {
    let o = Reuse.translate(busy_program()).unwrap();
    assert_eq!(
        o,
        vec![
            Expr::VarX,
            Expr::VarY,
            Expr::Dyad(Dyad::Mul, 0, 0),
            Expr::Dyad(Dyad::Mul, 1, 1),
            Expr::Dyad(Dyad::Add, 2, 3),
            c(0.25),
            Expr::Dyad(Dyad::Sub, 4, 5),
            Expr::Monad(Monad::Neg, 6),
            Expr::Monad(Monad::Neg, 1),
            Expr::Dyad(Dyad::Max, 5, 6),
            Expr::Dyad(Dyad::Min, 7, 9),
            Expr::Monad(Monad::Square, 10),
        ]
    );
}

#[test]
fn reuse_shortens() {
    let p = read_program("# p\n_0 var-x\n_1 var-y\n_2 max _0 _1\n_3 min _1 _0\n_4 sub _3 _2").unwrap();
    for xs in [p.exprs.clone(), busy_program(), vec![]] {
        let o = Reuse.translate(xs.clone());
        assert!(o.is_ok());
        let o = o.unwrap();
        assert!(xs.len() >= o.len());
    }
}

#[test]
fn reuse_idempotent() {
    for xs in [busy_program(), vec![Expr::VarY, Expr::Dyad(Dyad::Sub, 0, 0)], vec![]] {
        let q = Reuse.translate(xs);
        assert!(q.is_ok());
        let q = q.unwrap();
        let r = Reuse.translate(q.clone());
        assert!(r.is_ok());
        assert_eq!(r.unwrap(), q);
    }
}

#[test]
fn reuse_keeps_values() {
    let xs = busy_program();
    let o = Reuse.translate(xs.clone()).unwrap();
    for (vx, vy) in POINTS {
        assert_eq!(last_value(&xs, vx, vy), last_value(&o, vx, vy));
    }
}

#[test]
fn reuse_too_big() {
    let n = 65536;
    let p = Program {
        header: "too big".to_string(),
        exprs: (0..=n).map(|i| c(i as f32)).collect(),
    };
    let o = Reuse.translate(p.exprs);
    assert!(o.is_err());
    assert_eq!(o.unwrap_err(), Error::TooBig(n));
}

#[test]
fn reuse_at_the_limit() {
    // as many distinct expressions as u16 indices reach, and repeats after them, are fine.
    let mut xs: Vec<Expr> = (0..65536).map(|i| Expr::Const(i as u32)).collect();
    xs.push(Expr::Const(7));
    let o = Reuse.translate(xs).unwrap();
    assert_eq!(o.len(), 65536);
}

#[test]
fn unused_ok() {
    let cases = [
        ("# empty\n", "# empty\n"),
        ("# unused y\n_0 var-x\n_1 var-y\n_2 neg _0", "# unused y\n_0 var-x\n_1 neg _0"),
        (
            "# gaps\n_0 var-x\n_1 var-y\n_2 const 1\n_3 neg _1\n_4 add _0 _2\n_5 square _0\n_6 mul _4 _2",
            "# gaps\n_0 var-x\n_1 const 1\n_2 add _0 _1\n_3 mul _2 _1",
        ),
    ];
    for (input, expected) in cases {
        let p = read_program(input);
        assert!(p.is_ok());
        let p = p.unwrap();
        let q = read_program(expected);
        let o = Unused.translate(p.exprs);
        assert!(q.is_ok());
        let q = q.unwrap();
        assert_eq!(o, q.exprs);
    }
}

#[test]
fn unused_shortens() {
    for xs in [busy_program(), vec![Expr::VarX], vec![]] {
        let o = Unused.translate(xs.clone());
        assert!(xs.len() >= o.len());
    }
    assert_eq!(Unused.translate(busy_program()).len(), 13);
}

#[test]
fn unused_keeps_values() {
    let xs = busy_program();
    let o = Unused.translate(xs.clone());
    for (vx, vy) in POINTS {
        assert_eq!(last_value(&xs, vx, vy), last_value(&o, vx, vy));
    }
    // every kept expression but the last is read by a later one.
    for i in 0..o.len() - 1 {
        let read = o[i + 1..].iter().any(|e| match *e {
            Expr::Dyad(_, a, b) => usize::from(a) == i || usize::from(b) == i,
            Expr::Monad(_, a) => usize::from(a) == i,
            _ => false,
        });
        assert!(read);
    }
}

#[test]
fn reclaim_exact() {
    let p = read_program("# r\n_0 var-x\n_1 var-y\n_2 add _0 _1\n_3 mul _2 _2\n_4 neg _3\n_5 sub _4 _0").unwrap();
    let g = Reclaim(16).translate(p.clone());
    assert_eq!(g.header, "r");
    let expected = vec![
        ExprOrDel::Expr(Expr::VarX),
        ExprOrDel::Expr(Expr::VarY),
        ExprOrDel::Expr(Expr::Dyad(Dyad::Add, 0, 1)),
        ExprOrDel::Delete(1),
        ExprOrDel::Delete(0),
        ExprOrDel::Expr(Expr::Dyad(Dyad::Mul, 2, 2)),
        ExprOrDel::Delete(2),
        ExprOrDel::Expr(Expr::Monad(Monad::Neg, 3)),
        ExprOrDel::Delete(3),
        ExprOrDel::Expr(Expr::Dyad(Dyad::Sub, 4, 0)),
    ];
    assert_eq!(g.exprs.len(), expected.len());
    for (i, x) in expected.iter().enumerate() {
        assert_eq!(g.exprs.get(&i), Some(x));
    }
}

#[test]
fn reclaim_keeps_exprs() {
    let xs = busy_program();
    let g = Reclaim(8).translate(Program { header: "busy".to_string(), exprs: xs.clone() });
    let mut kept = Vec::new();
    for i in 0..g.exprs.len() {
        if let Some(ExprOrDel::Expr(e)) = g.exprs.get(&i) {
            kept.push(*e);
        }
    }
    assert_eq!(kept, xs);
    let empty = Reclaim(8).translate(Program { header: String::new(), exprs: vec![] });
    assert!(empty.exprs.is_empty());
}

fn reads(e: &Expr, z: usize) -> bool {
    match *e {
        Expr::Dyad(_, a, b) => usize::from(a) == z || usize::from(b) == z,
        Expr::Monad(_, a) => usize::from(a) == z,
        _ => false,
    }
}

#[test]
fn reclaim_releases_once() {
    let xs = busy_program();
    let n = xs.len();
    let g = Reclaim(8).translate(Program { header: "busy".to_string(), exprs: xs.clone() });
    let entries: Vec<ExprOrDel> = (0..g.exprs.len()).map(|i| g.exprs[&i]).collect();
    for z in 0..n {
        let releases: Vec<usize> = entries
            .iter()
            .enumerate()
            .filter(|(_, e)| **e == ExprOrDel::Delete(z as u16))
            .map(|(p, _)| p)
            .collect();
        let last_reader = (0..n - 1).filter(|&j| reads(&xs[j], z)).max();
        match last_reader {
            None => assert!(releases.is_empty()),
            Some(j) => {
                assert_eq!(releases.len(), 1);
                // the release follows the entry of the j-th expression, before the next one.
                let expr_positions: Vec<usize> = entries
                    .iter()
                    .enumerate()
                    .filter(|(_, e)| matches!(e, ExprOrDel::Expr(_)))
                    .map(|(p, _)| p)
                    .collect();
                assert!(expr_positions[j] < releases[0]);
                assert!(releases[0] < expr_positions[j + 1]);
            }
        }
    }
}

#[test]
fn reclaim_releases_behind() {
    let g = Reclaim(8).translate(Program { header: "busy".to_string(), exprs: busy_program() });
    let mut releases = 0;
    for p in 0..g.exprs.len() {
        if let ExprOrDel::Delete(z) = g.exprs[&p] {
            assert!(usize::from(z) < p);
            releases += 1;
        }
    }
    assert!(releases > 0);
}

#[test]
fn translations_in_order() {
    let xs = busy_program();
    assert_eq!(translate_all(xs.clone(), &[]), Ok(xs.clone()));
    let both = translate_all(xs.clone(), &[Translation::Reuse, Translation::Unused]).unwrap();
    assert_eq!(both, Unused.translate(Reuse.translate(xs.clone()).unwrap()));
    let other = translate_all(xs.clone(), &[Translation::Unused, Translation::Reuse]).unwrap();
    assert_eq!(other, Reuse.translate(Unused.translate(xs.clone())).unwrap());
    for (vx, vy) in POINTS {
        assert_eq!(last_value(&xs, vx, vy), last_value(&both, vx, vy));
    }
    let big: Vec<Expr> = (0..=65536).map(|i| c(i as f32)).collect();
    assert_eq!(translate_all(big.clone(), &[Translation::Reuse]), Err(Error::TooBig(65536)));
    assert_eq!(
        translate_all(big, &[Translation::Unused, Translation::Reuse]),
        Ok(vec![c(65536.0)])
    );
}
