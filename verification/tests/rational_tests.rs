use eqsat::rational::RationalPool;
use eqsat::{
    Command, EGraph, Error, Expr, Fact, Literal, NumType, PrimOp, Primitive, RatId, Report, Symbol,
    Value,
};

#[test]
fn equal_numbers_have_equal_handles() {
    let mut pool = RationalPool::new();
    let half = pool.make(1, 2).unwrap();
    let same = pool.make(2, 4).unwrap();
    let negative = pool.make(-3, -6).unwrap();
    let third = pool.make(1, 3).unwrap();
    assert_eq!(half, same);
    assert_eq!(half, negative);
    assert_ne!(half, third);
    assert_eq!(pool.len(), 2);
    assert_eq!(pool.make(1, 0), None);
    assert_eq!(pool.len(), 2);
}

#[test]
fn sums_differences_and_products_are_reduced() {
    let mut pool = RationalPool::new();
    let half = pool.make(1, 2).unwrap();
    let third = pool.make(1, 3).unwrap();
    let one = pool.make(1, 1).unwrap();
    let sixth = pool.make(1, 6).unwrap();
    let five_sixths = pool.make(5, 6).unwrap();
    assert_eq!(pool.sum(half, half), one);
    assert_eq!(pool.sum(half, third), five_sixths);
    assert_eq!(pool.difference(half, third), sixth);
    assert_eq!(pool.product(half, third), sixth);
    let minus_half = pool.difference(third, five_sixths);
    assert_eq!(Some(minus_half), pool.make(-1, 2));
    let zero = pool.difference(half, half);
    assert_eq!(Some(zero), pool.make(0, 5));
}

#[test]
fn order_is_the_order_of_the_numbers() {
    let mut pool = RationalPool::new();
    let half = pool.make(1, 2).unwrap();
    let third = pool.make(1, 3).unwrap();
    let minus = pool.make(-7, 2).unwrap();
    assert!(pool.le(third, half));
    assert!(!pool.le(half, third));
    assert!(pool.le(half, half));
    assert!(pool.le(minus, third));
    assert!(!pool.le(third, minus));
}

#[test]
fn numbers_beyond_machine_integers_are_exact() {
    let mut pool = RationalPool::new();
    let big = pool.make(i64::MAX, 1).unwrap();
    let bigger = pool.product(big, big);
    let biggest = pool.product(bigger, big);
    assert_ne!(bigger, big);
    assert_ne!(biggest, bigger);
    assert!(pool.le(big, bigger));
    assert!(pool.le(bigger, biggest));
    assert!(!pool.le(biggest, bigger));
    let back = pool.difference(biggest, biggest);
    assert_eq!(Some(back), pool.make(0, 1));
    let tiny = pool.make(1, i64::MAX).unwrap();
    let one = pool.product(big, tiny);
    assert_eq!(Some(one), pool.make(1, 1));
}

#[test]
fn primitives_accept_by_type_and_count() {
    let add = Primitive::binary(Symbol::plus(), NumType::I64, PrimOp::Add);
    assert!(add.accept(&[Value::Int(1), Value::Int(2)]));
    assert!(!add.accept(&[Value::Int(1)]));
    assert!(!add.accept(&[Value::Int(1), Value::Int(2), Value::Int(3)]));
    assert!(!add.accept(&[Value::Int(1), Value::Unit]));
    assert!(!add.accept(&[]));
}

#[test]
fn integer_primitives_compute_and_wrap() {
    let mut pool = RationalPool::new();
    let apply = |op: PrimOp, a: i64, b: i64, pool: &mut RationalPool| {
        Primitive::binary(Symbol::plus(), NumType::I64, op).apply(&[Value::Int(a), Value::Int(b)], pool)
    };
    assert_eq!(apply(PrimOp::Add, 2, 3, &mut pool), Value::Int(5));
    assert_eq!(apply(PrimOp::Sub, 2, 3, &mut pool), Value::Int(-1));
    assert_eq!(apply(PrimOp::Mul, -4, 3, &mut pool), Value::Int(-12));
    assert_eq!(apply(PrimOp::Max, -4, 3, &mut pool), Value::Int(3));
    assert_eq!(apply(PrimOp::Min, -4, 3, &mut pool), Value::Int(-4));
    assert_eq!(apply(PrimOp::Add, i64::MAX, 1, &mut pool), Value::Int(i64::MIN));
    assert_eq!(apply(PrimOp::Sub, i64::MIN, 1, &mut pool), Value::Int(i64::MAX));
    assert_eq!(apply(PrimOp::Mul, i64::MAX, 2, &mut pool), Value::Int(-2));
}

#[test]
fn rational_primitives_compute() {
    let mut pool = RationalPool::new();
    let half = pool.make(1, 2).unwrap();
    let third = pool.make(1, 3).unwrap();
    let five_sixths = pool.make(5, 6).unwrap();
    let apply = |op: PrimOp, pool: &mut RationalPool| {
        Primitive::binary(Symbol::plus(), NumType::Rational, op)
            .apply(&[Value::Rational(half), Value::Rational(third)], pool)
    };
    assert_eq!(apply(PrimOp::Add, &mut pool), Value::Rational(five_sixths));
    assert_eq!(apply(PrimOp::Max, &mut pool), Value::Rational(half));
    assert_eq!(apply(PrimOp::Min, &mut pool), Value::Rational(third));
}

#[test]
fn rational_arithmetic_in_a_program() {
    let mut g = EGraph::new();
    let half = Expr::Lit(Literal::Rational(g.rational(1, 2).unwrap()));
    let one = Expr::Lit(Literal::Rational(g.rational(3, 3).unwrap()));
    let quarter = Expr::Lit(Literal::Rational(g.rational(1, 4).unwrap()));
    let plus = Symbol::plus();
    let times = Symbol::times();
    let sum = Expr::Call(plus, vec![half.clone(), half.clone()]);
    let product = Expr::Call(times, vec![half.clone(), half.clone()]);
    let reports = g
        .run_program(vec![
            Command::Check(Fact::Eq(vec![sum, one.clone()])),
            Command::Check(Fact::Eq(vec![product, quarter])),
        ])
        .into_iter().collect::<Result<Vec<_>, _>>().unwrap();
    assert!(matches!(reports[1], Report::Checked));
    let wrong = g.run_command(Command::Check(Fact::Eq(vec![half, one])), true);
    assert!(matches!(wrong, Err(Error::CheckFailed(Value::Rational(_), Value::Rational(_)))));
}

#[test]
fn mixing_integers_and_rationals_matches_no_primitive() {
    let mut g = EGraph::new();
    let half = Expr::Lit(Literal::Rational(g.rational(1, 2).unwrap()));
    let mixed = Expr::Call(Symbol::plus(), vec![half, Expr::Lit(Literal::Int(1))]);
    assert!(matches!(g.eval_closed_expr(&mixed), Err(Error::NotFound(_))));
}

#[test]
fn a_number_gives_its_numerator_and_denominator() {
    let mut g = EGraph::new();
    let id = g.rational(6, -4).unwrap();
    let (n, d) = g.rational_parts(id).unwrap();
    assert_eq!(n, &vec![0xfdu8]);
    assert_eq!(d, &vec![2u8]);
    let big = g.rational(300, 7).unwrap();
    let (n, d) = g.rational_parts(big).unwrap();
    assert_eq!(n, &vec![0x2cu8, 1]);
    assert_eq!(d, &vec![7u8]);
    assert!(g.rational_parts(RatId(9)).is_none());
}

#[test]
fn wide_literals_are_reduced_and_interned() {
    let mut g = EGraph::new();
    // 2^72 / 2^73 is one half
    let mut n = vec![0u8; 9];
    n.push(1);
    let mut d = vec![0u8; 9];
    d.push(2);
    let half = g.rational_wide(&n, &d).unwrap();
    assert_eq!(Some(half), g.rational(1, 2));
    // (2^72 + 1) / 3 keeps a numerator wider than eight bytes
    let mut m = vec![1u8];
    m.extend(vec![0u8; 8]);
    m.push(1);
    let wide = g.rational_wide(&m, &vec![3]).unwrap();
    let (num, den) = g.rational_parts(wide).unwrap();
    assert_eq!(num, &m);
    assert_eq!(den, &vec![3u8]);
    assert_eq!(g.rational_wide(&m, &vec![]), None);
    assert_eq!(g.rational_wide(&m, &vec![0, 0]), None);
    assert_eq!(g.rational_wide(&vec![], &vec![0xff]), g.rational(0, 1));
    let mut pool = RationalPool::new();
    assert_eq!(pool.make_wide(&vec![0xfe], &vec![0xfc]), pool.make(1, 2));
    assert_eq!(pool.len(), 1);
    assert!(eqsat::rational::bytes_zero(&vec![0, 0, 0]));
    assert!(!eqsat::rational::bytes_zero(&vec![0, 0x80]));
}
