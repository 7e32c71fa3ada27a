use eqsat::index::NameList;
use eqsat::typecheck::{check_decl, check_query};
use eqsat::state::State;
use eqsat::value::values_equal;
use eqsat::{
    AtomTerm, EGraph, Error, Expr, Fact, FunctionDecl, Id, Kind, Literal, NumType, Query, RatId,
    Schema, Subst, Symbol, SymbolTable, Type, TypeError, Value,
};

#[test]
fn the_symbol_table_starts_with_the_reserved_names() {
    let mut t = SymbolTable::new();
    assert_eq!(t.len(), 8);
    assert_eq!(t.lookup("old"), Some(Symbol(0)));
    assert_eq!(t.lookup("new"), Some(Symbol(1)));
    assert_eq!(t.lookup("__rewrite_var"), Some(Symbol(2)));
    assert_eq!(t.lookup("min"), Some(Symbol(7)));
    assert_eq!(t.lookup("other"), None);
    assert_eq!(t.intern("other"), Symbol(8));
    assert_eq!(t.intern("other"), Symbol(8));
    assert_eq!(t.intern(""), Symbol(9));
    assert_eq!(t.len(), 10);
    assert_eq!(t.name(Symbol(8)), "other");
    assert_eq!(t.name(Symbol(3)), "+");
}

#[test]
fn a_later_binding_hides_an_earlier_one() {
    let mut s = Subst::new();
    assert_eq!(s.get(Symbol(9)), None);
    s.insert(Symbol(9), Value::Int(1));
    s.insert(Symbol(10), Value::Unit);
    s.insert(Symbol(9), Value::Int(2));
    assert_eq!(s.get(Symbol(9)), Some(Value::Int(2)));
    assert_eq!(s.get(Symbol(10)), Some(Value::Unit));
    assert_eq!(s.get(Symbol(11)), None);
}

#[test]
fn values_compare_by_tag_and_payload() {
    assert_ne!(Value::Int(0), Value::Id(Id(0)));
    assert_ne!(Value::Int(0), Value::Rational(RatId(0)));
    assert_ne!(Value::Unit, Value::Int(0));
    assert_eq!(Value::Id(Id(3)), Value::Id(Id(3)));
    assert_eq!(Value::Unit.kind(), Kind::Unit);
    assert_eq!(Value::Int(1).kind(), Kind::Num(NumType::I64));
    assert_eq!(Value::Rational(RatId(0)).kind(), Kind::Num(NumType::Rational));
    assert_eq!(Value::Id(Id(0)).kind(), Kind::Class);
    assert!(values_equal(&vec![Value::Int(1), Value::Unit], &vec![Value::Int(1), Value::Unit]));
    assert!(!values_equal(&vec![Value::Int(1), Value::Unit], &vec![Value::Int(1)]));
    assert!(!values_equal(&vec![Value::Int(1)], &vec![Value::Int(2)]));
    assert!(values_equal(&vec![], &vec![]));
}

#[test]
fn a_copy_of_an_expression_is_equal_to_it() {
    let e = Expr::Call(
        Symbol(9),
        vec![Expr::Var(Symbol(10)), Expr::Lit(Literal::Int(1)), Expr::Call(Symbol(11), vec![])],
    );
    assert_eq!(e.clone(), e);
}

#[test]
fn all_errors_of_a_declaration_are_listed_in_order() {
    let st = State::new();
    let mut sorts = NameList::new();
    sorts.push(Symbol(20));
    assert!(sorts.contains(Symbol(20)));
    assert!(!sorts.contains(Symbol(21)));
    assert_eq!(sorts.position(Symbol(20)), Some(0));
    assert_eq!(sorts.len(), 1);
    let decl = FunctionDecl {
        name: Symbol(30),
        schema: Schema {
            input: vec![
                Type::Sort(Symbol(21)),
                Type::Sort(Symbol(20)),
                Type::Unit,
                Type::Sort(Symbol(22)),
            ],
            output: Type::Sort(Symbol(21)),
        },
        merge: None,
        default: None,
    };
    assert_eq!(
        check_decl(&sorts, &st, &decl),
        vec![
            TypeError::UndefinedSort(Symbol(21)),
            TypeError::UndefinedSort(Symbol(22)),
            TypeError::UndefinedSort(Symbol(21)),
        ]
    );
}

#[test]
fn all_errors_of_a_query_are_listed_in_order() {
    let mut g = EGraph::new();
    let f = g.symbol("f");
    let ghost = g.symbol("ghost");
    let x = g.symbol("x");
    g.declare_function(FunctionDecl {
        name: f,
        schema: Schema { input: vec![Type::NumType(NumType::I64)], output: Type::Unit },
        merge: None,
        default: None,
    })
    .unwrap();
    let facts = vec![
        Fact::Fact(Expr::Call(ghost, vec![])),
        Fact::Fact(Expr::Call(f, vec![])),
        Fact::Fact(Expr::Call(f, vec![Expr::Lit(Literal::Unit)])),
        Fact::Fact(Expr::Call(f, vec![Expr::Call(f, vec![Expr::Var(x)])])),
    ];
    assert_eq!(
        g.compile_query(facts).err(),
        Some(Error::TypeErrors(vec![
            TypeError::Unbound(ghost),
            TypeError::Arity(f),
            TypeError::Mismatch,
            TypeError::Mismatch,
        ]))
    );
    let unanchored = Query::from_facts(vec![
        Fact::Eq(vec![Expr::Var(x), Expr::Var(f)]),
        Fact::Fact(Expr::Var(ghost)),
    ])
    .unwrap();
    assert_eq!(unanchored.num_vars(), 2);
    assert_eq!(unanchored.binding(0), (x, AtomTerm::Var(0)));
    let st = State::new();
    assert_eq!(check_query(&st, &unanchored), vec![TypeError::Untyped(0), TypeError::Untyped(1)]);
}
