use eqsat::{
    Action, AtomTerm, Command, EGraph, Error, Expr, Fact, FunctionDecl, Id, Literal, NumType,
    Query, Report, Rule, Schema, Symbol, Type, TypeError, Value,
};

fn lit(i: i64) -> Expr {
    Expr::Lit(Literal::Int(i))
}

fn call(f: Symbol, args: Vec<Expr>) -> Expr {
    Expr::Call(f, args)
}

fn terms(q: &Query, a: usize) -> (Symbol, Vec<AtomTerm>) {
    let atom = q.atom(a);
    (atom.head, atom.terms.clone())
}

fn edges() -> (EGraph, Symbol, Symbol) {
    let mut g = EGraph::new();
    let edge = g.symbol("edge");
    let path = g.symbol("path");
    for name in [edge, path] {
        g.declare_function(FunctionDecl {
            name,
            schema: Schema {
                input: vec![Type::NumType(NumType::I64), Type::NumType(NumType::I64)],
                output: Type::Unit,
            },
            merge: None,
            default: None,
        })
        .unwrap();
    }
    let unit = Expr::Lit(Literal::Unit);
    for (a, b) in [(1, 2), (2, 3), (3, 4), (2, 5)] {
        g.eval_actions(None, &vec![Action::SetNode(edge, vec![lit(a), lit(b)], unit.clone())])
            .unwrap();
    }
    (g, edge, path)
}

#[test]
fn a_call_becomes_an_atom_with_an_auxiliary_variable() {
    let f = Symbol(20);
    let x = Symbol(21);
    let q = Query::from_facts(vec![Fact::Fact(call(f, vec![Expr::Var(x), lit(7)]))]).unwrap();
    assert_eq!(q.num_atoms(), 1);
    // classes in the order of their first node: the group with the call, then x
    assert_eq!(
        terms(&q, 0),
        (f, vec![AtomTerm::Var(1), AtomTerm::Value(Value::Int(7)), AtomTerm::Var(0)])
    );
    assert_eq!(q.num_vars(), 2);
    assert_eq!(q.num_bindings(), 1);
    assert_eq!(q.binding(0), (x, AtomTerm::Var(1)));
}

#[test]
fn equal_expressions_share_one_term() {
    let f = Symbol(20);
    let g = Symbol(22);
    let x = Symbol(21);
    let y = Symbol(23);
    let q = Query::from_facts(vec![Fact::Eq(vec![
        Expr::Var(y),
        call(f, vec![Expr::Var(x)]),
        call(g, vec![Expr::Var(x), Expr::Var(x)]),
    ])])
    .unwrap();
    assert_eq!(q.num_vars(), 2);
    assert_eq!(terms(&q, 0), (f, vec![AtomTerm::Var(1), AtomTerm::Var(0)]));
    assert_eq!(terms(&q, 1), (g, vec![AtomTerm::Var(1), AtomTerm::Var(1), AtomTerm::Var(0)]));
    assert_eq!(q.num_bindings(), 2);
    assert_eq!(q.binding(0), (y, AtomTerm::Var(0)));
    assert_eq!(q.binding(1), (x, AtomTerm::Var(1)));
}

#[test]
fn nested_calls_are_flattened_bottom_up() {
    let f = Symbol(20);
    let g = Symbol(22);
    let q = Query::from_facts(vec![Fact::Fact(call(f, vec![call(g, vec![lit(1)])]))]).unwrap();
    assert_eq!(q.num_atoms(), 2);
    assert_eq!(terms(&q, 0), (g, vec![AtomTerm::Value(Value::Int(1)), AtomTerm::Var(1)]));
    assert_eq!(terms(&q, 1), (f, vec![AtomTerm::Var(1), AtomTerm::Var(0)]));
}

#[test]
fn a_variable_equal_to_a_constant_is_the_constant() {
    let f = Symbol(20);
    let x = Symbol(21);
    let q = Query::from_facts(vec![
        Fact::Eq(vec![Expr::Var(x), lit(3)]),
        Fact::Fact(call(f, vec![Expr::Var(x)])),
    ])
    .unwrap();
    assert_eq!(q.binding(0), (x, AtomTerm::Value(Value::Int(3))));
    assert_eq!(terms(&q, 0), (f, vec![AtomTerm::Value(Value::Int(3)), AtomTerm::Var(0)]));
    assert_eq!(q.num_vars(), 1);
}

#[test]
fn two_constants_in_one_class_are_inconsistent() {
    let x = Symbol(21);
    assert!(matches!(
        Query::from_facts(vec![Fact::Eq(vec![lit(1), lit(2)])]),
        Err(Error::InconsistentQuery)
    ));
    assert!(matches!(
        Query::from_facts(vec![
            Fact::Eq(vec![Expr::Var(x), lit(1)]),
            Fact::Eq(vec![lit(2), Expr::Var(x)]),
        ]),
        Err(Error::InconsistentQuery)
    ));
    assert!(Query::from_facts(vec![Fact::Eq(vec![lit(1), lit(1)])]).is_ok());
    assert!(Query::from_facts(vec![]).is_ok());
}

#[test]
fn the_join_finds_every_solution_once() {
    let (mut g, edge, _) = edges();
    let x = g.symbol("x");
    let y = g.symbol("y");
    let z = g.symbol("z");
    let q = g
        .compile_query(vec![
            Fact::Fact(call(edge, vec![Expr::Var(x), Expr::Var(y)])),
            Fact::Fact(call(edge, vec![Expr::Var(y), Expr::Var(z)])),
        ])
        .unwrap();
    let found = g.query(&q);
    let value_of = |row: &Vec<Value>, s: Symbol| {
        let term = (0..q.num_bindings()).map(|b| q.binding(b)).find(|b| b.0 == s).unwrap().1;
        match term {
            AtomTerm::Var(i) => row[i],
            AtomTerm::Value(v) => v,
        }
    };
    let mut triples: Vec<(Value, Value, Value)> =
        found.iter().map(|r| (value_of(r, x), value_of(r, y), value_of(r, z))).collect();
    triples.sort_by_key(|t| format!("{:?}", t));
    assert_eq!(
        triples,
        vec![
            (Value::Int(1), Value::Int(2), Value::Int(3)),
            (Value::Int(1), Value::Int(2), Value::Int(5)),
            (Value::Int(2), Value::Int(3), Value::Int(4)),
        ]
    );
    // every solution satisfies every atom when looked up in the table
    let rows = g.for_each_canonicalized(edge).unwrap();
    for row in &found {
        for a in 0..q.num_atoms() {
            let atom = q.atom(a);
            let tuple: Vec<Value> = atom
                .terms
                .iter()
                .map(|t| match t {
                    AtomTerm::Var(i) => row[*i],
                    AtomTerm::Value(v) => *v,
                })
                .collect();
            assert!(rows.contains(&tuple));
        }
    }
}

#[test]
fn constants_and_repeated_variables_filter_the_rows() {
    let (mut g, edge, _) = edges();
    let x = g.symbol("x");
    let unit = Expr::Lit(Literal::Unit);
    g.eval_actions(None, &vec![Action::SetNode(edge, vec![lit(6), lit(6)], unit)]).unwrap();
    let from_two = g.compile_query(vec![Fact::Fact(call(edge, vec![lit(2), Expr::Var(x)]))]).unwrap();
    let mut targets: Vec<Vec<Value>> = g.query(&from_two);
    targets.sort_by_key(|t| format!("{:?}", t));
    assert_eq!(targets.len(), 2);
    let loops = g
        .compile_query(vec![Fact::Fact(call(edge, vec![Expr::Var(x), Expr::Var(x)]))])
        .unwrap();
    let found = g.query(&loops);
    assert_eq!(found.len(), 1);
    assert!(found[0].contains(&Value::Int(6)));
    let none = g.compile_query(vec![Fact::Fact(call(edge, vec![lit(9), Expr::Var(x)]))]).unwrap();
    assert!(g.query(&none).is_empty());
    let closed = g.compile_query(vec![Fact::Fact(call(edge, vec![lit(1), lit(2)]))]).unwrap();
    assert_eq!(g.query(&closed).len(), 1);
    let empty = g.compile_query(vec![]).unwrap();
    assert_eq!(g.query(&empty), vec![Vec::<Value>::new()]);
}

#[test]
fn a_rule_derives_paths_from_edges() {
    let (mut g, edge, path) = edges();
    let x = g.symbol("x");
    let y = g.symbol("y");
    let z = g.symbol("z");
    let unit = Expr::Lit(Literal::Unit);
    let reports = g
        .run_program(vec![
            Command::Rule(Rule {
                body: vec![Fact::Fact(call(edge, vec![Expr::Var(x), Expr::Var(y)]))],
                head: vec![Action::SetNode(path, vec![Expr::Var(x), Expr::Var(y)], unit.clone())],
            }),
            Command::Rule(Rule {
                body: vec![
                    Fact::Fact(call(path, vec![Expr::Var(x), Expr::Var(y)])),
                    Fact::Fact(call(edge, vec![Expr::Var(y), Expr::Var(z)])),
                ],
                head: vec![Action::SetNode(path, vec![Expr::Var(x), Expr::Var(z)], unit)],
            }),
            Command::Run(5),
            Command::Check(Fact::Fact(call(path, vec![lit(1), lit(4)]))),
            Command::Check(Fact::Fact(call(path, vec![lit(1), lit(5)]))),
            Command::Query(vec![Fact::Fact(call(path, vec![lit(1), Expr::Var(x)]))]),
        ])
        .into_iter().collect::<Result<Vec<_>, _>>().unwrap();
    match &reports[5] {
        Report::Query(_, rows) => assert_eq!(rows.len(), 4),
        other => panic!("unexpected report {:?}", other),
    }
    assert_eq!(g.for_each_canonicalized(path).unwrap().len(), 8);
    let no = g.run_command(Command::Check(Fact::Fact(call(path, vec![lit(4), lit(1)]))), true);
    assert!(matches!(no, Err(Error::NotFound(_))));
}

#[test]
fn queries_are_checked_against_the_schemas() {
    let (mut g, edge, _) = edges();
    let x = g.symbol("x");
    let y = g.symbol("y");
    let ghost = g.symbol("ghost");
    let sort = g.symbol("S");
    let node = g.symbol("node");
    g.declare_sort(sort).unwrap();
    g.declare_constructor(node, vec![Type::NumType(NumType::I64)], sort).unwrap();
    let unit = Expr::Lit(Literal::Unit);
    let fails = |g: &EGraph, facts: Vec<Fact>, expected: TypeError| {
        assert_eq!(g.compile_query(facts).err(), Some(Error::Type(expected)));
    };
    fails(&g, vec![Fact::Fact(call(ghost, vec![Expr::Var(x)]))], TypeError::Unbound(ghost));
    fails(&g, vec![Fact::Fact(call(edge, vec![Expr::Var(x)]))], TypeError::Arity(edge));
    fails(&g, vec![Fact::Fact(call(edge, vec![unit.clone(), Expr::Var(x)]))], TypeError::Mismatch);
    fails(
        &g,
        vec![Fact::Fact(call(edge, vec![call(node, vec![Expr::Var(x)]), Expr::Var(x)]))],
        TypeError::Mismatch,
    );
    fails(&g, vec![Fact::Eq(vec![Expr::Var(x), Expr::Var(y)])], TypeError::Untyped(0));
    assert!(matches!(
        g.compile_query(vec![Fact::Eq(vec![lit(1), unit])]),
        Err(Error::InconsistentQuery)
    ));
    assert!(g.compile_query(vec![Fact::Fact(call(edge, vec![Expr::Var(x), Expr::Var(y)]))]).is_ok());
    assert!(g.compile_query(vec![Fact::Eq(vec![Expr::Var(x), lit(1)])]).is_ok());
    assert!(matches!(
        g.add_rule(Rule { body: vec![Fact::Fact(call(ghost, vec![]))], head: vec![] }),
        Err(Error::Type(TypeError::Unbound(s))) if s == ghost
    ));
    assert!(matches!(
        g.run_command(Command::Query(vec![Fact::Fact(call(ghost, vec![]))]), true),
        Err(Error::Type(TypeError::Unbound(_)))
    ));
    let _ = Id(0);
}
