use eqsat::{
    Action, Command, EGraph, Error, Expr, Fact, FunctionDecl, Literal, NumType, Report, Rewrite,
    Rule, Schema, Symbol, Type, TypeError, Value, Variant,
};

fn num_lit(i: i64) -> Expr {
    Expr::Lit(Literal::Int(i))
}

fn call(f: Symbol, args: Vec<Expr>) -> Expr {
    Expr::Call(f, args)
}

fn math(g: &mut EGraph) -> (Symbol, Symbol, Symbol) {
    let math = g.symbol("Math");
    let num = g.symbol("Num");
    let add = g.symbol("Add");
    let r = g.run_command(
        Command::Datatype {
            name: math,
            variants: vec![
                Variant { name: num, types: vec![Type::NumType(NumType::I64)] },
                Variant { name: add, types: vec![Type::Sort(math), Type::Sort(math)] },
            ],
        },
        true,
    );
    assert!(matches!(r, Ok(Report::Datatype(s)) if s == math));
    (math, num, add)
}

#[test]
fn integer_arithmetic() {
    let mut g = EGraph::new();
    let x = g.symbol("x");
    let plus = g.symbol("+");
    assert_eq!(plus, Symbol::plus());
    let reports = g
        .run_program(vec![
            Command::Define(x, call(plus, vec![num_lit(1), num_lit(2)])),
            Command::Check(Fact::Eq(vec![Expr::Var(x), num_lit(3)])),
        ])
        .into_iter().collect::<Result<Vec<_>, _>>().unwrap();
    assert_eq!(reports.len(), 2);
    assert!(matches!(reports[0], Report::Defined(s) if s == x));
    assert!(matches!(reports[1], Report::Checked));
    let bad = g.run_command(Command::Check(Fact::Eq(vec![Expr::Var(x), num_lit(4)])), true);
    assert!(matches!(bad, Err(Error::CheckFailed(Value::Int(3), Value::Int(4)))));
}

#[test]
fn commutativity_rewrite() {
    let mut g = EGraph::new();
    let (_, num, add) = math(&mut g);
    let a = g.symbol("a");
    let b = g.symbol("b");
    let t = g.symbol("t");
    let reports = g
        .run_program(vec![
            Command::Rewrite(Rewrite {
                lhs: call(add, vec![Expr::Var(a), Expr::Var(b)]),
                rhs: call(add, vec![Expr::Var(b), Expr::Var(a)]),
            }),
            Command::Define(
                t,
                call(add, vec![call(num, vec![num_lit(1)]), call(num, vec![num_lit(2)])]),
            ),
            Command::Run(10),
            Command::Check(Fact::Eq(vec![
                Expr::Var(t),
                call(add, vec![call(num, vec![num_lit(2)]), call(num, vec![num_lit(1)])]),
            ])),
        ])
        .into_iter().collect::<Result<Vec<_>, _>>().unwrap();
    assert!(matches!(reports[0], Report::Rewrite(0)));
    assert!(matches!(&reports[2], Report::Ran(10, failed) if failed.is_empty()));
    assert!(matches!(reports[3], Report::Checked));
    assert!(g.debug_assert_invariants());
}

#[test]
fn associativity_and_constant_folding() {
    let mut g = EGraph::new();
    let (_, num, add) = math(&mut g);
    let a = g.symbol("a");
    let b = g.symbol("b");
    let c = g.symbol("c");
    let plus = Symbol::plus();
    let start = call(
        add,
        vec![
            call(add, vec![call(num, vec![num_lit(1)]), call(num, vec![num_lit(2)])]),
            call(num, vec![num_lit(3)]),
        ],
    );
    let reports = g
        .run_program(vec![
            Command::Rewrite(Rewrite {
                lhs: call(add, vec![call(add, vec![Expr::Var(a), Expr::Var(b)]), Expr::Var(c)]),
                rhs: call(add, vec![Expr::Var(a), call(add, vec![Expr::Var(b), Expr::Var(c)])]),
            }),
            Command::Rewrite(Rewrite {
                lhs: call(add, vec![call(num, vec![Expr::Var(a)]), call(num, vec![Expr::Var(b)])]),
                rhs: call(num, vec![call(plus, vec![Expr::Var(a), Expr::Var(b)])]),
            }),
            Command::Action(Action::Expr(start.clone())),
            Command::Run(10),
            Command::Extract(start),
        ])
        .into_iter().collect::<Result<Vec<_>, _>>().unwrap();
    match &reports[4] {
        Report::Extracted(cost, term) => {
            assert_eq!(*cost, 1);
            assert_eq!(*term, call(num, vec![num_lit(6)]));
        },
        other => panic!("unexpected report {:?}", other),
    }
}

#[test]
fn union_via_head_action() {
    let mut g = EGraph::new();
    let (_, num, _) = math(&mut g);
    let t1 = g.symbol("t1");
    let t2 = g.symbol("t2");
    g.run_program(vec![
        Command::Define(t1, call(num, vec![num_lit(1)])),
        Command::Define(t2, call(num, vec![num_lit(2)])),
        Command::Rule(Rule {
            body: vec![],
            head: vec![Action::Union(Expr::Var(t1), Expr::Var(t2))],
        }),
    ])
    .into_iter().collect::<Result<Vec<_>, _>>().unwrap();
    let before = g.num_classes();
    assert_eq!(before, 2);
    let differ = g.run_command(Command::Check(Fact::Eq(vec![Expr::Var(t1), Expr::Var(t2)])), true);
    assert!(matches!(differ, Err(Error::CheckFailed(_, _))));
    g.run_program(vec![
        Command::Run(1),
        Command::Check(Fact::Eq(vec![Expr::Var(t1), Expr::Var(t2)])),
    ])
    .into_iter().collect::<Result<Vec<_>, _>>().unwrap();
    assert_eq!(g.num_classes(), before - 1);
}

#[test]
fn merge_policy() {
    let mut g = EGraph::new();
    let sort = g.symbol("S");
    let a = g.symbol("A");
    let f = g.symbol("f");
    let min = Symbol::min();
    let old = Symbol::old_value();
    let new = Symbol::new_value();
    let key = || call(a, vec![]);
    let set = |v: i64| Command::Action(Action::SetNode(f, vec![call(a, vec![])], num_lit(v)));
    let is = |v: i64| Command::Check(Fact::Eq(vec![call(f, vec![key()]), num_lit(v)]));
    let reports = g
        .run_program(vec![
            Command::Datatype { name: sort, variants: vec![Variant { name: a, types: vec![] }] },
            Command::Function(FunctionDecl {
                name: f,
                schema: Schema {
                    input: vec![Type::Sort(sort)],
                    output: Type::NumType(NumType::I64),
                },
                merge: Some(call(min, vec![Expr::Var(old), Expr::Var(new)])),
                default: None,
            }),
            set(5),
            set(3),
            is(3),
            set(7),
            is(3),
        ])
        .into_iter().collect::<Result<Vec<_>, _>>().unwrap();
    assert_eq!(reports.len(), 7);
    let wrong = g.run_command(is(7), true);
    assert!(matches!(wrong, Err(Error::CheckFailed(Value::Int(3), Value::Int(7)))));
}

#[test]
fn extraction_cost() {
    let mut g = EGraph::new();
    let sort = g.symbol("S");
    let zero = g.symbol("Z");
    let neg = g.symbol("Neg");
    let add = g.symbol("Add");
    let small = g.symbol("small");
    let large = g.symbol("large");
    let z = || call(zero, vec![]);
    let big = call(add, vec![call(add, vec![z(), z()]), call(neg, vec![z()])]);
    let reports = g
        .run_program(vec![
            Command::Datatype {
                name: sort,
                variants: vec![
                    Variant { name: zero, types: vec![] },
                    Variant { name: neg, types: vec![Type::Sort(sort)] },
                    Variant { name: add, types: vec![Type::Sort(sort), Type::Sort(sort)] },
                ],
            },
            Command::Define(small, call(neg, vec![z()])),
            Command::Define(large, big.clone()),
            Command::Action(Action::Union(Expr::Var(small), Expr::Var(large))),
            Command::Extract(big),
        ])
        .into_iter().collect::<Result<Vec<_>, _>>().unwrap();
    match &reports[4] {
        Report::Extracted(cost, term) => {
            assert_eq!(*cost, 2);
            assert_eq!(*term, call(neg, vec![z()]));
        },
        other => panic!("unexpected report {:?}", other),
    }
}

#[test]
fn union_of_numbers_is_a_type_error() {
    let mut g = EGraph::new();
    let r = g.run_command(Command::Action(Action::Union(num_lit(1), num_lit(1))), true);
    assert!(matches!(r, Err(Error::Type(TypeError::Mismatch))));
}
