use eqsat::function::values_fit;
use eqsat::primitive::default_primitives;
use eqsat::rational::RationalPool;
use eqsat::{
    Error, Expr, Function, FunctionDecl, Id, Literal, NumType, RatId, Schema, Symbol, Type,
    TypeError, UnionFind, Value,
};

fn decl(input: Vec<Type>, output: Type) -> FunctionDecl {
    FunctionDecl { name: Symbol(40), schema: Schema { input, output }, merge: None, default: None }
}

fn sort() -> Type {
    Type::Sort(Symbol(41))
}

#[test]
fn insert_overwrites_and_returns_the_prior_output() {
    let mut f = Function::new(&decl(vec![Type::NumType(NumType::I64)], Type::NumType(NumType::I64)));
    assert_eq!(f.len(), 0);
    assert_eq!(f.insert(vec![Value::Int(1)], Value::Int(10)), None);
    assert_eq!(f.insert(vec![Value::Int(2)], Value::Int(20)), None);
    assert_eq!(f.insert(vec![Value::Int(1)], Value::Int(11)), Some(Value::Int(10)));
    assert_eq!(f.len(), 2);
    assert_eq!(f.lookup(&vec![Value::Int(1)]), Some(Value::Int(11)));
    assert_eq!(f.lookup(&vec![Value::Int(2)]), Some(Value::Int(20)));
    assert_eq!(f.lookup(&vec![Value::Int(3)]), None);
    assert_eq!(f.lookup(&vec![]), None);
    assert_eq!(f.find_row(&vec![Value::Int(2)]), Some(1));
}

#[test]
fn the_index_finds_every_row_among_many() {
    let mut f = Function::new(&decl(
        vec![Type::NumType(NumType::I64), Type::NumType(NumType::I64)],
        Type::NumType(NumType::I64),
    ));
    for i in 0..2000i64 {
        assert_eq!(f.insert(vec![Value::Int(i), Value::Int(-i)], Value::Int(i * 3)), None);
    }
    assert_eq!(f.len(), 2000);
    for i in 0..2000i64 {
        assert_eq!(f.lookup(&vec![Value::Int(i), Value::Int(-i)]), Some(Value::Int(i * 3)));
        assert_eq!(f.lookup(&vec![Value::Int(-i - 1), Value::Int(i)]), None);
    }
    assert_eq!(f.lookup(&vec![Value::Int(5)]), None);
    assert_eq!(f.lookup(&vec![Value::Unit, Value::Int(0)]), None);
    assert_eq!(*f.row_args(7), vec![Value::Int(7), Value::Int(-7)]);
    assert_eq!(f.row_value(7), Value::Int(21));
}

#[test]
fn values_of_different_tags_are_different_keys() {
    let mut f = Function::new(&decl(vec![Type::NumType(NumType::I64)], Type::NumType(NumType::I64)));
    f.insert(vec![Value::Int(0)], Value::Int(1));
    assert_eq!(f.lookup(&vec![Value::Int(0)]), Some(Value::Int(1)));
    assert_eq!(f.lookup(&vec![Value::Id(Id(0))]), None);
    assert_eq!(f.lookup(&vec![Value::Unit]), None);
    assert_eq!(f.lookup(&vec![Value::Rational(RatId(0))]), None);
    assert!(values_fit(&vec![Type::NumType(NumType::I64)], &vec![Value::Int(0)]));
    assert!(!values_fit(&vec![Type::NumType(NumType::I64)], &vec![Value::Unit]));
    assert!(!values_fit(&vec![Type::NumType(NumType::I64)], &vec![]));
    assert!(!values_fit(&vec![], &vec![Value::Int(0)]));
    assert!(values_fit(&vec![sort(), Type::Unit], &vec![Value::Id(Id(4)), Value::Unit]));
}

#[test]
fn rebuild_merges_the_outputs_of_rows_that_meet() {
    let mut uf = UnionFind::new();
    for _ in 0..6 {
        uf.make_set();
    }
    let mut f = Function::new(&decl(vec![sort()], sort()));
    f.insert(vec![Value::Id(Id(0))], Value::Id(Id(2)));
    f.insert(vec![Value::Id(Id(1))], Value::Id(Id(3)));
    f.insert(vec![Value::Id(Id(4))], Value::Id(Id(5)));
    uf.union(Id(0), Id(1));
    // three insertions were counted, and the two rows that meet merge their outputs
    assert_eq!(f.rebuild(&mut uf), Ok(4));
    assert_eq!(f.len(), 2);
    assert_eq!(uf.find(Id(3)), Id(2));
    assert_eq!(f.lookup(&vec![Value::Id(Id(0))]), Some(Value::Id(Id(2))));
    assert_eq!(f.lookup(&vec![Value::Id(Id(1))]), None);
    assert_eq!(f.lookup(&vec![Value::Id(Id(4))]), Some(Value::Id(Id(5))));
    assert_eq!(f.rebuild(&mut uf), Ok(0));
    assert_eq!(f.len(), 2);
}

fn two_costs() -> (UnionFind, Function) {
    let mut uf = UnionFind::new();
    uf.make_set();
    uf.make_set();
    let mut f = Function::new(&decl(vec![sort()], Type::NumType(NumType::I64)));
    f.insert(vec![Value::Id(Id(0))], Value::Int(5));
    f.insert(vec![Value::Id(Id(1))], Value::Int(7));
    uf.union(Id(1), Id(0));
    (uf, f)
}

#[test]
fn rebuild_refuses_numeric_rows_that_differ_without_a_merge() {
    let (mut uf, mut f) = two_costs();
    assert_eq!(f.rebuild(&mut uf), Err(Error::Type(TypeError::NoMerge(Symbol(40)))));
    assert_eq!(f.len(), 2);
    assert_eq!(f.lookup(&vec![Value::Id(Id(0))]), Some(Value::Int(5)));
    assert_eq!(f.lookup(&vec![Value::Id(Id(1))]), Some(Value::Int(7)));
}

#[test]
fn rebuild_with_a_merge_reconciles_numeric_rows() {
    let prims = default_primitives();
    let both = vec![Expr::Var(Symbol::old_value()), Expr::Var(Symbol::new_value())];
    let (mut uf, mut f) = two_costs();
    let mut pool = RationalPool::new();
    let greatest = Expr::Call(Symbol::max(), both.clone());
    assert_eq!(f.rebuild_with(&mut uf, Some(&greatest), &prims, &mut pool), Ok(2));
    assert_eq!(f.len(), 1);
    let root = uf.find(Id(0));
    assert_eq!(f.lookup(&vec![Value::Id(root)]), Some(Value::Int(7)));
    let (mut uf, mut f) = two_costs();
    let difference = Expr::Call(Symbol::minus(), both);
    assert_eq!(f.rebuild_with(&mut uf, Some(&difference), &prims, &mut pool), Ok(2));
    let root = uf.find(Id(0));
    assert_eq!(f.lookup(&vec![Value::Id(root)]), Some(Value::Int(-2)));
    let (mut uf, mut f) = two_costs();
    let unit = Expr::Lit(Literal::Unit);
    assert_eq!(
        f.rebuild_with(&mut uf, Some(&unit), &prims, &mut pool),
        Err(Error::Type(TypeError::BadOutput(Symbol(40))))
    );
    assert_eq!(f.len(), 2);
    let (mut uf, mut f) = two_costs();
    let unbound = Expr::Var(Symbol(77));
    assert!(matches!(
        f.rebuild_with(&mut uf, Some(&unbound), &prims, &mut pool),
        Err(Error::NotFound(_))
    ));
    assert_eq!(f.lookup(&vec![Value::Id(Id(1))]), Some(Value::Int(7)));
}

#[test]
fn rebuild_leaves_positions_that_are_no_sorts() {
    let mut uf = UnionFind::new();
    uf.make_set();
    uf.make_set();
    uf.union(Id(0), Id(1));
    let mut f = Function::new(&decl(vec![sort(), Type::NumType(NumType::I64)], Type::Unit));
    f.insert(vec![Value::Id(Id(1)), Value::Int(1)], Value::Unit);
    f.insert(vec![Value::Id(Id(0)), Value::Int(0)], Value::Unit);
    f.insert(vec![Value::Id(Id(0)), Value::Int(1)], Value::Unit);
    assert_eq!(f.rebuild(&mut uf), Ok(3));
    assert_eq!(f.len(), 2);
    assert_eq!(f.lookup(&vec![Value::Id(Id(0)), Value::Int(1)]), Some(Value::Unit));
    assert_eq!(f.lookup(&vec![Value::Id(Id(0)), Value::Int(0)]), Some(Value::Unit));
    assert_eq!(f.lookup(&vec![Value::Id(Id(1)), Value::Int(1)]), None);
    assert_eq!(*f.row_args(0), vec![Value::Id(Id(0)), Value::Int(1)]);
}
