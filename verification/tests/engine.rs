use cycle::{AOp, Algebra, BOp, Constant, Dom, Expr, Form, Function, Number, Rel, Symbol, UOp};
use cycle::{Sequence, SqOp};
use cycle::{Interpreter, LangError};

fn num(z: i128) -> Expr {
    Expr::Num(Number::Z(z))
}

fn sym(name: &str) -> Expr {
    Expr::Sym(Symbol::new(name, Dom::C))
}

fn add2(a: Expr, b: Expr) -> Expr {
    Expr::Alg(Algebra::AssocExpr { map: AOp::Add, arg: vec![a, b] })
}

fn mul2(a: Expr, b: Expr) -> Expr {
    Expr::Alg(Algebra::AssocExpr { map: AOp::Mul, arg: vec![a, b] })
}

fn pow2(a: Expr, b: Expr) -> Expr {
    Expr::Alg(Algebra::BExpr { map: BOp::Pow, arg: (Box::new(a), Box::new(b)) })
}

fn seq_node(op: SqOp, idx: &str, lo: Expr, up: Expr, body: Expr) -> Expr {
    Expr::Sq(Sequence {
        map: op,
        idx: Symbol::new(idx, Dom::C),
        lo: Box::new(lo),
        up: Box::new(up),
        arg: Box::new(body),
    })
}

#[test]
fn leaves_come_before_compounds() {
    let fact0 = Expr::Alg(Algebra::UExpr { map: UOp::Fact, arg: Box::new(num(0)) });
    assert!(matches!(Expr::Cte(Constant::Pi).cmp(&fact0), Rel::Less));
    assert!(matches!(fact0.cmp(&Expr::Cte(Constant::Pi)), Rel::Greater));
    assert!(matches!(num(7).cmp(&Expr::Cte(Constant::E)), Rel::Less));
    assert!(matches!(sym("x").cmp(&Expr::Cte(Constant::Pi)), Rel::Less));
    assert!(matches!(Expr::Cte(Constant::Pi).cmp(&Expr::Cte(Constant::E)), Rel::Less));
}

#[test]
fn same_shape_compounds_compare_structurally() {
    let f1 = Expr::Fun(Function::MapExpr { map: vec!['f'], arg: vec![num(1)] });
    let f2 = Expr::Fun(Function::MapExpr { map: vec!['f'], arg: vec![num(2)] });
    let g1 = Expr::Fun(Function::MapExpr { map: vec!['g'], arg: vec![num(1)] });
    assert!(matches!(f1.cmp(&f2), Rel::Less));
    assert!(matches!(f1.cmp(&g1), Rel::Less));
    assert!(matches!(f1.cmp(&f1), Rel::Equal));
    let s1 = seq_node(SqOp::Sum, "i", num(1), num(3), sym("i"));
    let s2 = seq_node(SqOp::Sum, "i", num(1), num(4), sym("i"));
    let p1 = seq_node(SqOp::Prod, "i", num(1), num(3), sym("i"));
    assert!(matches!(s1.cmp(&s2), Rel::Less));
    assert!(matches!(s1.cmp(&p1), Rel::Less));
    assert!(matches!(s1.cmp(&s1), Rel::Equal));
}

#[test]
fn order_trichotomy_on_samples() {
    let pairs = vec![
        (num(1), num(2)),
        (num(2), sym("x")),
        (sym("x"), sym("y")),
        (sym("x"), Expr::Cte(Constant::Pi)),
        (add2(sym("x"), num(1)), sym("x")),
        (pow2(sym("x"), num(2)), sym("x")),
        (
            Expr::Alg(Algebra::UExpr { map: UOp::Fact, arg: Box::new(num(0)) }),
            Expr::Fun(Function::MapExpr { map: vec!['f'], arg: vec![] }),
        ),
        (
            Expr::Fun(Function::MapExpr { map: vec!['f'], arg: vec![] }),
            seq_node(SqOp::Sum, "i", num(1), num(2), sym("i")),
        ),
    ];
    for (a, b) in pairs {
        let ab = a.cmp(&b);
        let ba = b.cmp(&a);
        match ab {
            Rel::Less => assert!(matches!(ba, Rel::Greater)),
            Rel::Equal => assert!(matches!(ba, Rel::Equal)),
            Rel::Greater => assert!(matches!(ba, Rel::Less)),
        }
    }
}

#[test]
fn normalize_sorts_associative_children() {
    let e = add2(sym("y"), sym("x"));
    let n = e.trivial().unwrap();
    let expected = add2(sym("x"), sym("y"));
    assert_eq!(n, expected);
}

#[test]
fn substitute_with_itself_is_identity() {
    let e = add2(sym("x"), pow2(sym("y"), num(2)));
    let p = sym("y");
    assert_eq!(e.subs(&p, &p), e);
}

#[test]
fn substitute_eliminates_leaf_pattern() {
    let e = add2(sym("x"), mul2(sym("x"), sym("y")));
    let p = sym("x");
    let r = num(7);
    let s = e.subs(&p, &r);
    assert!(s.free(&p));
}

#[test]
fn never_free_of_itself() {
    let e = add2(sym("x"), num(1));
    assert!(!e.free(&e));
    assert!(sym("z").free(&sym("w")));
}

#[test]
fn sum_unrolls_like_a_literal_sum() {
    let s = seq_node(SqOp::Sum, "i", num(1), num(3), sym("i"));
    let unrolled = match s {
        Expr::Sq(q) => q.sq_trivial().unwrap(),
        _ => unreachable!(),
    };
    let literal = cycle::lang::parse("1+2+3").unwrap().trivial().unwrap();
    assert_eq!(unrolled, literal);
    assert_eq!(unrolled, num(6));
}

#[test]
fn empty_sum_is_zero() {
    let s = seq_node(SqOp::Sum, "i", num(5), num(1), sym("i"));
    let unrolled = match s {
        Expr::Sq(q) => q.sq_trivial().unwrap(),
        _ => unreachable!(),
    };
    assert_eq!(unrolled, num(0));
}

#[test]
fn product_unrolls_to_factorial_value() {
    let s = seq_node(SqOp::Prod, "i", num(1), num(3), sym("i"));
    let unrolled = match s {
        Expr::Sq(q) => q.sq_trivial().unwrap(),
        _ => unreachable!(),
    };
    assert_eq!(unrolled, num(6));
}

#[test]
fn symbolic_bound_keeps_sequence() {
    let s = seq_node(SqOp::Sum, "i", num(1), sym("n"), sym("i"));
    let kept = match s {
        Expr::Sq(q) => q.sq_trivial().unwrap(),
        _ => unreachable!(),
    };
    assert!(matches!(kept, Expr::Sq(_)));
}

#[test]
fn rule_declaration_then_use() {
    let mut it = Interpreter::new(1);
    assert!(matches!(it.parse("x = 2"), Ok(None)));
    let out = it.parse("x+1").unwrap().unwrap();
    assert_eq!(out, num(3));
}

#[test]
fn recursive_rule_is_rejected() {
    let mut it = Interpreter::new(1);
    let r = it.parse("x = x+1");
    assert!(matches!(r, Err(LangError::Rec)));
}

#[test]
fn numeric_pattern_is_rejected() {
    let mut it = Interpreter::new(1);
    let r = it.parse("2 = 3");
    assert!(matches!(r, Err(LangError::Rule { .. })));
}

#[test]
fn definition_then_application() {
    let mut it = Interpreter::new(1);
    assert!(matches!(it.parse("f(x) = x^2"), Ok(None)));
    let out = it.parse("f(3)").unwrap().unwrap();
    assert_eq!(out, num(9));
}

#[test]
fn arity_mismatch_is_reported() {
    let mut it = Interpreter::new(1);
    assert!(matches!(it.parse("f(x) = x^2"), Ok(None)));
    match it.parse("f(1,2)") {
        Err(LangError::Arity { map, expected, actual }) => {
            assert_eq!(map, vec!['f']);
            assert_eq!(expected, 1);
            assert_eq!(actual, 2);
        }
        other => panic!("expected an arity error, got {:?}", other),
    }
}

#[test]
fn empty_statement_is_a_no_op() {
    let mut it = Interpreter::new(1);
    assert!(matches!(it.parse(""), Ok(None)));
}

#[test]
fn unary_minus_binds_weaker_than_power() {
    let e = cycle::lang::parse("-2^2").unwrap();
    assert_eq!(e, mul2(num(-1), pow2(num(2), num(2))));
    assert_eq!(e.trivial().unwrap(), num(-4));
}

#[test]
fn power_is_right_associative() {
    let e = cycle::lang::parse("2^3^2").unwrap();
    assert_eq!(e, pow2(num(2), pow2(num(3), num(2))));
    assert_eq!(e.trivial().unwrap(), num(512));
}

#[test]
fn product_binds_tighter_than_sum() {
    let e = cycle::lang::parse("2+3*4").unwrap();
    assert_eq!(e, add2(num(2), mul2(num(3), num(4))));
    assert_eq!(e.trivial().unwrap(), num(14));
}

#[test]
fn factorial_postfix() {
    let e = cycle::lang::parse("5!").unwrap();
    assert_eq!(
        e,
        Expr::Alg(Algebra::UExpr { map: UOp::Fact, arg: Box::new(num(5)) })
    );
    assert_eq!(e.trivial().unwrap(), num(120));
}

#[test]
fn power_overflow_reports_form_error() {
    let e = cycle::lang::parse("2^200").unwrap();
    assert!(matches!(e.trivial(), Err(Form)));
}

#[test]
fn statement_normalization_failure_is_passed_through() {
    let mut it = Interpreter::new(1);
    assert!(matches!(it.parse("2^200"), Err(LangError::Form(Form))));
}

#[test]
fn token_spans_cover_input_modulo_whitespace() {
    let src = "12 + alpha";
    let mut lx = cycle::Lexer::new(src);
    let mut spans: Vec<(usize, usize)> = Vec::new();
    while let Some(t) = lx.next() {
        let t = t.unwrap();
        assert!(t.span.start < t.span.end);
        assert!(t.span.end <= src.len());
        spans.push((t.span.start, t.span.end));
    }
    assert_eq!(spans, vec![(0, 2), (3, 4), (5, 10)]);
    let bytes = src.as_bytes();
    let mut covered = vec![false; bytes.len()];
    for (a, b) in spans {
        for k in a..b {
            covered[k] = true;
        }
    }
    for (k, b) in bytes.iter().enumerate() {
        assert_eq!(covered[k], !b.is_ascii_whitespace());
    }
}

#[test]
fn integer_overflow_has_span() {
    let mut lx = cycle::Lexer::new("18446744073709551616");
    match lx.next() {
        Some(Err(LangError::Integer { span })) => {
            assert_eq!((span.start, span.end), (0, 20));
        }
        other => panic!("expected an overflow error, got {:?}", other),
    }
}

#[test]
fn lexical_and_parse_errors() {
    assert!(matches!(cycle::lang::parse("$"), Err(LangError::Lex)));
    assert!(matches!(cycle::lang::parse("2 3"), Err(LangError::Expected { .. })));
    assert!(matches!(cycle::lang::parse("*2"), Err(LangError::Expected { .. })));
    assert!(matches!(cycle::lang::parse("(2"), Err(LangError::End)));
    assert!(matches!(cycle::lang::parse(""), Err(LangError::End)));
    assert!(matches!(cycle::lang::parse("x = 2"), Err(LangError::Rule { .. })));
    assert!(matches!(cycle::lang::parse("Sum"), Err(LangError::Expected { .. })));
}

#[test]
fn traversal_yields_children_right_to_left() {
    let e = add2(sym("a"), sym("b"));
    let subs: Vec<Expr> = e.iter();
    assert_eq!(subs.len(), 3);
    assert_eq!(subs[0], add2(sym("a"), sym("b")));
    assert_eq!(subs[1], sym("b"));
    assert_eq!(subs[2], sym("a"));
}

#[test]
fn leaf_measures() {
    assert_eq!(sym("x").len(), 1);
    assert_eq!(sym("x").ord(), 0);
    assert_eq!(num(-3).dom(), Dom::Z);
    assert_eq!(num(3).dom(), Dom::N);
    assert_eq!(Expr::Cte(Constant::E).dom(), Dom::SR);
    let e = add2(sym("x"), num(1));
    assert_eq!(e.len(), 3);
    assert_eq!(e.ord(), 1);
    assert_eq!(e.dom(), Dom::C);
}

#[test]
fn function_nodes_compare_and_substitute() {
    let f3 = Expr::Fun(Function::MapExpr { map: vec!['f'], arg: vec![num(3)] });
    let f4 = Expr::Fun(Function::MapExpr { map: vec!['f'], arg: vec![num(4)] });
    assert!(!f3.free(&num(3)));
    assert_eq!(f3.subs(&num(3), &num(4)), f4);
}
