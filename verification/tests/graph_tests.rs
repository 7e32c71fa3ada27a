use eqsat::error::is_fatal;
use eqsat::eval::eval;
use eqsat::state::State;
use eqsat::{
    Action, Command, EGraph, Error, Expr, Fact, FunctionDecl, Id, Literal, NumType, PrimOp,
    Primitive, Primitives, Report, Rewrite, Rule, Schema, Subst, Symbol, Type, TypeError, Value,
    Variant,
};

fn lit(i: i64) -> Expr {
    Expr::Lit(Literal::Int(i))
}

fn call(f: Symbol, args: Vec<Expr>) -> Expr {
    Expr::Call(f, args)
}

struct Math {
    g: EGraph,
    sort: Symbol,
    num: Symbol,
    add: Symbol,
}

fn math() -> Math {
    let mut g = EGraph::new();
    let sort = g.symbol("Math");
    let num = g.symbol("Num");
    let add = g.symbol("Add");
    g.declare_sort(sort).unwrap();
    g.declare_constructor(num, vec![Type::NumType(NumType::I64)], sort).unwrap();
    g.declare_constructor(add, vec![Type::Sort(sort), Type::Sort(sort)], sort).unwrap();
    Math { g, sort, num, add }
}

#[test]
fn symbols_are_interned_once() {
    let mut g = EGraph::new();
    let a = g.symbol("alpha");
    let b = g.symbol("beta");
    assert_ne!(a, b);
    assert_eq!(g.symbol("alpha"), a);
    assert_eq!(g.symbol_name(a).map(|s| s.as_str()), Some("alpha"));
    assert_eq!(g.symbol_name(Symbol(10_000)), None);
    assert_eq!(g.symbol("old"), Symbol::old_value());
    assert_eq!(g.symbol("new"), Symbol::new_value());
    assert_eq!(g.symbol("__rewrite_var"), Symbol::rewrite_var());
    assert_eq!(g.symbol("+"), Symbol::plus());
    assert_eq!(g.symbol("-"), Symbol::minus());
    assert_eq!(g.symbol("*"), Symbol::times());
    assert_eq!(g.symbol("max"), Symbol::max());
    assert_eq!(g.symbol("min"), Symbol::min());
}

#[test]
fn a_sort_is_declared_once() {
    let mut g = EGraph::new();
    let s = g.symbol("S");
    assert!(g.declare_sort(s).is_ok());
    assert_eq!(g.declare_sort(s), Err(Error::SortAlreadyBound(s)));
}

#[test]
fn a_function_needs_declared_sorts_and_a_fresh_name() {
    let mut m = math();
    let missing = m.g.symbol("Missing");
    let other = m.g.symbol("Other");
    let f = m.g.symbol("f");
    let decl = |name: Symbol, input: Vec<Type>, output: Type| FunctionDecl {
        name,
        schema: Schema { input, output },
        merge: None,
        default: None,
    };
    assert_eq!(
        m.g.declare_function(decl(f, vec![Type::Sort(missing)], Type::Unit)),
        Err(Error::Type(TypeError::UndefinedSort(missing)))
    );
    assert_eq!(
        m.g.declare_function(decl(f, vec![Type::Sort(missing)], Type::Sort(other))),
        Err(Error::TypeErrors(vec![
            TypeError::UndefinedSort(missing),
            TypeError::UndefinedSort(other)
        ]))
    );
    assert_eq!(
        m.g.declare_function(decl(m.num, vec![], Type::Unit)),
        Err(Error::Type(TypeError::FunctionAlreadyBound(m.num)))
    );
    assert!(m.g.declare_function(decl(f, vec![Type::Sort(m.sort)], Type::Unit)).is_ok());
    assert_eq!(
        m.g.declare_constructor(f, vec![], missing),
        Err(Error::TypeErrors(vec![
            TypeError::UndefinedSort(missing),
            TypeError::FunctionAlreadyBound(f)
        ]))
    );
}

#[test]
fn a_constructor_makes_its_class_once() {
    let mut m = math();
    let one = call(m.num, vec![lit(1)]);
    let first = m.g.eval_closed_expr(&one).unwrap();
    assert_eq!(first, Value::Id(Id(0)));
    assert_eq!(m.g.eval_closed_expr(&one).unwrap(), first);
    let two = m.g.eval_closed_expr(&call(m.num, vec![lit(2)])).unwrap();
    assert_eq!(two, Value::Id(Id(1)));
    let sum = m.g.eval_closed_expr(&call(m.add, vec![one.clone(), call(m.num, vec![lit(2)])])).unwrap();
    assert_eq!(sum, Value::Id(Id(2)));
    assert_eq!(m.g.num_ids(), 3);
    assert_eq!(m.g.num_classes(), 3);
    assert_eq!(
        m.g.for_each_canonicalized(m.add),
        Some(vec![vec![Value::Id(Id(0)), Value::Id(Id(1)), Value::Id(Id(2))]])
    );
    assert_eq!(m.g.for_each_canonicalized(m.sort), None);
}

#[test]
fn variables_come_from_the_substitution_then_from_the_globals() {
    let mut g = EGraph::new();
    let x = g.symbol("x");
    let y = g.symbol("y");
    g.define(x, &lit(1)).unwrap();
    let mut ctx = Subst::new();
    assert_eq!(g.eval_expr(&ctx, &Expr::Var(x)), Ok(Value::Int(1)));
    ctx.insert(x, Value::Int(2));
    assert_eq!(ctx.get(x), Some(Value::Int(2)));
    assert!(ctx.contains(x));
    assert!(!ctx.contains(y));
    assert_eq!(g.eval_expr(&ctx, &Expr::Var(x)), Ok(Value::Int(2)));
    ctx.insert(x, Value::Int(3));
    assert_eq!(g.eval_expr(&ctx, &Expr::Var(x)), Ok(Value::Int(3)));
    assert!(matches!(g.eval_expr(&ctx, &Expr::Var(y)), Err(Error::NotFound(_))));
    assert_eq!(g.define(x, &lit(5)), Err(Error::AlreadyDefined(x)));
    assert_eq!(g.eval_closed_expr(&Expr::Lit(Literal::Unit)), Ok(Value::Unit));
}

#[test]
fn what_is_not_there_is_not_found() {
    let mut m = math();
    let ghost = m.g.symbol("ghost");
    let f = m.g.symbol("cost");
    m.g.declare_function(FunctionDecl {
        name: f,
        schema: Schema { input: vec![Type::Sort(m.sort)], output: Type::NumType(NumType::I64) },
        merge: None,
        default: None,
    })
    .unwrap();
    let unknown = call(ghost, vec![lit(1)]);
    match m.g.eval_closed_expr(&unknown) {
        Err(Error::NotFound(e)) => assert_eq!(e.0, unknown),
        other => panic!("unexpected {:?}", other),
    }
    let absent = call(f, vec![call(m.num, vec![lit(1)])]);
    assert_eq!(m.g.eval_closed_expr(&absent), Err(Error::Type(TypeError::NoDefault(f))));
    assert!(matches!(
        m.g.eval_closed_expr(&call(Symbol::plus(), vec![lit(1)])),
        Err(Error::NotFound(_))
    ));
    assert!(matches!(
        m.g.eval_closed_expr(&call(Symbol::plus(), vec![lit(1), Expr::Lit(Literal::Unit)])),
        Err(Error::NotFound(_))
    ));
}

#[test]
fn defaults_and_unit_functions_fill_absent_rows() {
    let mut m = math();
    let f = m.g.symbol("size");
    let seen = m.g.symbol("seen");
    m.g.declare_function(FunctionDecl {
        name: f,
        schema: Schema { input: vec![Type::Sort(m.sort)], output: Type::NumType(NumType::I64) },
        merge: None,
        default: Some(call(Symbol::plus(), vec![lit(40), lit(2)])),
    })
    .unwrap();
    m.g.declare_function(FunctionDecl {
        name: seen,
        schema: Schema { input: vec![Type::NumType(NumType::I64)], output: Type::Unit },
        merge: None,
        default: None,
    })
    .unwrap();
    let one = call(m.num, vec![lit(1)]);
    assert_eq!(m.g.eval_closed_expr(&call(f, vec![one.clone()])), Ok(Value::Int(42)));
    assert_eq!(m.g.for_each_canonicalized(f).unwrap().len(), 1);
    assert_eq!(m.g.eval_closed_expr(&call(seen, vec![lit(7)])), Ok(Value::Unit));
    let empty = Subst::new();
    assert!(m.g.check_with(&empty, &Fact::Fact(call(seen, vec![lit(7)]))).is_ok());
    assert!(matches!(
        m.g.check_with(&empty, &Fact::Fact(call(seen, vec![lit(8)]))),
        Err(Error::NotFound(_))
    ));
    assert_eq!(
        m.g.check_with(&empty, &Fact::Fact(call(f, vec![one]))),
        Err(Error::Type(TypeError::Mismatch))
    );
    assert_eq!(m.g.check_with(&empty, &Fact::Fact(lit(1))), Err(Error::IllegalFact));
    assert_eq!(m.g.check_with(&empty, &Fact::Fact(Expr::Var(f))), Err(Error::IllegalFact));
}

#[test]
fn a_default_that_needs_itself_is_not_found() {
    let mut g = EGraph::new();
    let f = g.symbol("loop");
    g.declare_function(FunctionDecl {
        name: f,
        schema: Schema { input: vec![], output: Type::NumType(NumType::I64) },
        merge: None,
        default: Some(call(f, vec![])),
    })
    .unwrap();
    assert!(matches!(g.eval_closed_expr(&call(f, vec![])), Err(Error::NotFound(_))));
}

#[test]
fn actions_define_set_union_and_panic() {
    let mut m = math();
    let x = m.g.symbol("x");
    let a = call(m.num, vec![lit(1)]);
    let b = call(m.num, vec![lit(2)]);
    assert!(m.g
        .eval_actions(
            None,
            &vec![
                Action::Define(x, a.clone()),
                Action::Expr(b.clone()),
                Action::Union(Expr::Var(x), b.clone()),
            ]
        )
        .is_ok());
    assert_eq!(m.g.num_classes(), 1);
    assert_eq!(m.g.find(Id(1)), Id(0));
    assert_eq!(m.g.bad_find_value(Value::Id(Id(1))), Value::Id(Id(0)));
    assert_eq!(m.g.bad_find_value(Value::Int(1)), Value::Int(1));
    let stopped = m.g.eval_actions(
        None,
        &vec![Action::Panic("stop".to_string()), Action::Expr(call(m.num, vec![lit(3)]))],
    );
    assert_eq!(stopped, Err(Error::UserPanic("stop".to_string())));
    assert_eq!(m.g.num_ids(), 2);
    let mut ctx = Subst::new();
    ctx.insert(x, Value::Int(9));
    let y = m.g.symbol("y");
    assert!(m.g
        .eval_actions(Some(ctx), &vec![Action::Define(y, Expr::Var(x)), Action::Expr(Expr::Var(y))])
        .is_ok());
    assert!(matches!(m.g.eval_closed_expr(&Expr::Var(y)), Err(Error::NotFound(_))));
}

#[test]
fn setting_a_row_twice_follows_the_declaration() {
    let mut m = math();
    let plain = m.g.symbol("plain");
    let flag = m.g.symbol("flag");
    let link = m.g.symbol("link");
    let decl = |name: Symbol, output: Type| FunctionDecl {
        name,
        schema: Schema { input: vec![Type::NumType(NumType::I64)], output },
        merge: None,
        default: None,
    };
    m.g.declare_function(decl(plain, Type::NumType(NumType::I64))).unwrap();
    m.g.declare_function(decl(flag, Type::Unit)).unwrap();
    m.g.declare_function(decl(link, Type::Sort(m.sort))).unwrap();
    let set = |f: Symbol, v: Expr| Action::SetNode(f, vec![lit(0)], v);
    assert!(m.g.eval_actions(None, &vec![set(plain, lit(1))]).is_ok());
    assert_eq!(
        m.g.eval_actions(None, &vec![set(plain, lit(2))]),
        Err(Error::Type(TypeError::NoMerge(plain)))
    );
    let unit = Expr::Lit(Literal::Unit);
    assert!(m.g.eval_actions(None, &vec![set(flag, unit.clone()), set(flag, unit)]).is_ok());
    let a = call(m.num, vec![lit(1)]);
    let b = call(m.num, vec![lit(2)]);
    assert!(m.g.eval_actions(None, &vec![set(link, a.clone()), set(link, b.clone())]).is_ok());
    assert_eq!(m.g.num_classes(), 1);
    let unknown = m.g.symbol("unknown");
    assert!(matches!(m.g.eval_actions(None, &vec![set(unknown, lit(1))]), Err(Error::NotFound(_))));
}

#[test]
fn union_exprs_merges_all_of_them() {
    let mut m = math();
    let empty = Subst::new();
    let exprs = vec![
        call(m.num, vec![lit(1)]),
        call(m.num, vec![lit(2)]),
        call(m.num, vec![lit(3)]),
    ];
    assert_eq!(m.g.union_exprs(&empty, &exprs), Ok(Value::Id(Id(0))));
    assert_eq!(m.g.num_classes(), 1);
    assert_eq!(m.g.union(Id(1), Id(2)), Id(0));
    assert_eq!(
        m.g.union_exprs(&empty, &vec![call(m.num, vec![lit(1)]), lit(1)]),
        Err(Error::Type(TypeError::Mismatch))
    );
}

#[test]
fn rebuild_restores_congruence() {
    let mut m = math();
    let one = call(m.num, vec![lit(1)]);
    let two = call(m.num, vec![lit(2)]);
    let left = call(m.add, vec![one.clone(), one.clone()]);
    let right = call(m.add, vec![two.clone(), two.clone()]);
    let a = m.g.eval_closed_expr(&left).unwrap();
    let b = m.g.eval_closed_expr(&right).unwrap();
    assert_ne!(a, b);
    assert_eq!(m.g.num_classes(), 4);
    m.g.eval_actions(None, &vec![Action::Union(one, two)]).unwrap();
    assert!(!m.g.debug_assert_invariants());
    let reported = m.g.rebuild().unwrap();
    assert!(reported > 0);
    assert!(m.g.debug_assert_invariants());
    assert_eq!(m.g.num_classes(), 2);
    assert_eq!(m.g.bad_find_value(a), m.g.bad_find_value(b));
    assert_eq!(m.g.for_each_canonicalized(m.add).unwrap().len(), 1);
    assert_eq!(m.g.for_each_canonicalized(m.num).unwrap().len(), 2);
    // a rebuild right after a rebuild reports nothing and changes nothing
    assert_eq!(m.g.rebuild(), Ok(0));
    assert_eq!(m.g.rebuild_one(), Ok(0));
    assert_eq!(m.g.num_classes(), 2);
    assert!(m.g.debug_assert_invariants());
}

#[test]
fn runs_never_split_classes_and_end_canonical() {
    let mut m = math();
    let a = m.g.symbol("a");
    let b = m.g.symbol("b");
    m.g.add_rewrite(Rewrite {
        lhs: call(m.add, vec![Expr::Var(a), Expr::Var(b)]),
        rhs: call(m.add, vec![Expr::Var(b), Expr::Var(a)]),
    })
    .unwrap();
    let t = call(
        m.add,
        vec![call(m.num, vec![lit(1)]), call(m.add, vec![call(m.num, vec![lit(2)]), call(m.num, vec![lit(3)])])],
    );
    m.g.eval_closed_expr(&t).unwrap();
    for _ in 0..4 {
        let classes = m.g.num_classes();
        let ids = m.g.num_ids();
        m.g.run_rules(1).unwrap();
        assert!(m.g.debug_assert_invariants());
        assert!(m.g.num_classes() <= classes + (m.g.num_ids() - ids));
    }
    let classes = m.g.num_classes();
    let ids = m.g.num_ids();
    m.g.run_rules(3).unwrap();
    assert_eq!(m.g.num_ids(), ids);
    assert_eq!(m.g.num_classes(), classes);
    m.g.step_rules();
    m.g.run_rules(0).unwrap();
    assert_eq!(m.g.num_ids(), ids);
}

#[test]
fn rules_can_be_cleared() {
    let mut m = math();
    let t1 = m.g.symbol("t1");
    let t2 = m.g.symbol("t2");
    m.g.define(t1, &call(m.num, vec![lit(1)])).unwrap();
    m.g.define(t2, &call(m.num, vec![lit(2)])).unwrap();
    let index = m
        .g
        .add_rule(Rule { body: vec![], head: vec![Action::Union(Expr::Var(t1), Expr::Var(t2))] })
        .unwrap();
    assert_eq!(index, 0);
    m.g.clear_rules();
    m.g.run_rules(2).unwrap();
    assert_eq!(m.g.num_classes(), 2);
    let again = m
        .g
        .add_rule(Rule { body: vec![], head: vec![Action::Union(Expr::Var(t1), Expr::Var(t2))] })
        .unwrap();
    assert_eq!(again, 0);
    m.g.run_rules(1).unwrap();
    assert_eq!(m.g.num_classes(), 1);
}

#[test]
fn a_name_stands_for_one_rule() {
    let mut m = math();
    let t1 = m.g.symbol("t1");
    let t2 = m.g.symbol("t2");
    let first = m.g.symbol("first");
    let second = m.g.symbol("second");
    let a = m.g.symbol("a");
    let b = m.g.symbol("b");
    m.g.define(t1, &call(m.num, vec![lit(1)])).unwrap();
    m.g.define(t2, &call(m.num, vec![lit(2)])).unwrap();
    let join = || Rule { body: vec![], head: vec![Action::Union(Expr::Var(t1), Expr::Var(t2))] };
    let swap = || Rewrite {
        lhs: call(m.add, vec![Expr::Var(a), Expr::Var(b)]),
        rhs: call(m.add, vec![Expr::Var(b), Expr::Var(a)]),
    };
    assert!(!m.g.has_rule(first));
    assert_eq!(m.g.rule_position(first), None);
    assert_eq!(m.g.add_rule_with_name(first, join()), Ok(0));
    assert!(m.g.has_rule(first));
    assert_eq!(m.g.add_rule_with_name(first, join()), Err(Error::RuleAlreadyBound(first)));
    assert_eq!(m.g.add_rewrite_with_name(first, swap()), Err(Error::RuleAlreadyBound(first)));
    assert_eq!(m.g.add_rewrite_with_name(second, swap()), Ok(1));
    assert_eq!(m.g.rule_position(first), Some(0));
    assert_eq!(m.g.rule_position(second), Some(1));
    // a rule that does not compile takes no name
    let third = m.g.symbol("third");
    let unknown = m.g.symbol("unknown");
    let broken = Rule { body: vec![Fact::Fact(call(unknown, vec![]))], head: vec![] };
    assert!(m.g.add_rule_with_name(third, broken).is_err());
    assert!(!m.g.has_rule(third));
    // the next rule stands after the two, whatever its name
    assert_eq!(m.g.add_rule(join()), Ok(2));
    m.g.clear_rules();
    assert!(!m.g.has_rule(first));
    assert!(!m.g.has_rule(second));
    let r = m.g.run_program(vec![
        Command::NamedRule(first, join()),
        Command::NamedRule(first, join()),
        Command::NamedRewrite(first, swap()),
        Command::NamedRewrite(second, swap()),
        Command::Run(1),
    ]);
    assert_eq!(r.len(), 5);
    assert!(matches!(r[0], Ok(Report::Rule(0))));
    assert_eq!(r[1].as_ref().err(), Some(&Error::RuleAlreadyBound(first)));
    assert_eq!(r[2].as_ref().err(), Some(&Error::RuleAlreadyBound(first)));
    assert!(matches!(r[3], Ok(Report::Rewrite(1))));
    assert!(matches!(&r[4], Ok(Report::Ran(1, failed)) if failed.is_empty()));
    assert_eq!(m.g.num_classes(), 1);
}

#[test]
fn a_failing_head_does_not_stop_the_others() {
    let mut m = math();
    let t1 = m.g.symbol("t1");
    let t2 = m.g.symbol("t2");
    let nothing = m.g.symbol("nothing");
    m.g.define(t1, &call(m.num, vec![lit(1)])).unwrap();
    m.g.define(t2, &call(m.num, vec![lit(2)])).unwrap();
    m.g.add_rule(Rule { body: vec![], head: vec![Action::Expr(Expr::Var(nothing))] }).unwrap();
    m.g.add_rule(Rule { body: vec![], head: vec![Action::Panic("no".to_string())] }).unwrap();
    m.g.add_rule(Rule { body: vec![], head: vec![Action::Union(Expr::Var(t1), Expr::Var(t2))] })
        .unwrap();
    let failed = m.g.step_rules();
    assert_eq!(failed.len(), 2);
    assert_eq!(failed[0].0, 0);
    assert!(matches!(failed[0].1, Error::NotFound(_)));
    assert_eq!(failed[1], (1, Error::UserPanic("no".to_string())));
    assert!(m.g.rebuild().is_ok());
    assert_eq!(m.g.num_classes(), 1);
    let failed = m.g.run_rules(2).unwrap();
    assert_eq!(failed.len(), 4);
    assert_eq!(failed[3], (1, Error::UserPanic("no".to_string())));
    assert_eq!(m.g.num_classes(), 1);
    match m.g.run_command(Command::Run(1), true) {
        Ok(Report::Ran(1, failed)) => assert_eq!(failed.len(), 2),
        other => panic!("unexpected {:?}", other),
    }
    assert!(matches!(m.g.run_command(Command::Run(1), false), Ok(Report::Skipped)));
}

#[test]
fn many_functions_and_sorts_are_found_by_name() {
    let mut g = EGraph::new();
    let mut names = Vec::new();
    for i in 0..300 {
        let s = g.symbol(&format!("S{i}"));
        let f = g.symbol(&format!("f{i}"));
        assert!(!g.has_sort(s));
        assert!(!g.has_function(f));
        g.declare_sort(s).unwrap();
        g.declare_constructor(f, vec![Type::NumType(NumType::I64)], s).unwrap();
        names.push((s, f));
    }
    for (i, (s, f)) in names.iter().enumerate() {
        assert!(g.has_sort(*s));
        assert!(g.has_function(*f));
        assert_eq!(g.declare_sort(*s), Err(Error::SortAlreadyBound(*s)));
        let x = g.symbol(&format!("x{i}"));
        g.define(x, &call(*f, vec![lit(i as i64)])).unwrap();
        assert_eq!(g.eval_closed_expr(&Expr::Var(x)), Ok(Value::Id(Id(i))));
        assert_eq!(g.for_each_canonicalized(*f).unwrap().len(), 1);
    }
    assert!(!g.has_sort(names[0].1));
    assert!(!g.has_function(names[0].0));
    assert!(matches!(g.eval_closed_expr(&Expr::Var(names[5].0)), Err(Error::NotFound(_))));
}

#[test]
fn ambiguous_primitives_are_reported() {
    let mut st = State::new();
    let prims = Primitives::from_list(vec![
        Primitive::binary(Symbol::plus(), NumType::I64, PrimOp::Add),
        Primitive::binary(Symbol::times(), NumType::I64, PrimOp::Mul),
        Primitive::binary(Symbol::plus(), NumType::I64, PrimOp::Mul),
    ]);
    assert_eq!(prims.len(), 3);
    assert_eq!(prims.select(Symbol::plus(), &vec![Value::Int(1), Value::Int(2)]).0, 2);
    assert_eq!(prims.select(Symbol::times(), &vec![Value::Int(1), Value::Int(2)]), (1, 1));
    assert_eq!(prims.select(Symbol::minus(), &vec![Value::Int(1), Value::Int(2)]).0, 0);
    assert_eq!(prims.select(Symbol::times(), &vec![Value::Int(1), Value::Unit]).0, 0);
    let decls: Vec<FunctionDecl> = vec![];
    let ctx = Subst::new();
    let e = call(Symbol::plus(), vec![lit(1), lit(2)]);
    assert_eq!(
        eval(&decls, &prims, &mut st, &ctx, &e, 0),
        Err(Error::PrimitiveAmbiguity(Symbol::plus()))
    );
    let product = call(Symbol::times(), vec![lit(3), lit(2)]);
    assert_eq!(eval(&decls, &prims, &mut st, &ctx, &product, 0), Ok(Value::Int(6)));
    let one =
        Primitives::from_list(vec![Primitive::binary(Symbol::plus(), NumType::I64, PrimOp::Mul)]);
    assert_eq!(eval(&decls, &one, &mut st, &ctx, &e, 0), Ok(Value::Int(2)));
}

#[test]
fn the_same_program_gives_the_same_outcomes_twice() {
    let run = || {
        let mut m = math();
        let a = m.g.symbol("a");
        let b = m.g.symbol("b");
        let c = m.g.symbol("c");
        let t = m.g.symbol("t");
        let start = call(
            m.add,
            vec![
                call(m.add, vec![call(m.num, vec![lit(1)]), call(m.num, vec![lit(2)])]),
                call(m.num, vec![lit(3)]),
            ],
        );
        let program = vec![
            Command::Rewrite(Rewrite {
                lhs: call(m.add, vec![Expr::Var(a), Expr::Var(b)]),
                rhs: call(m.add, vec![Expr::Var(b), Expr::Var(a)]),
            }),
            Command::Rewrite(Rewrite {
                lhs: call(m.add, vec![call(m.add, vec![Expr::Var(a), Expr::Var(b)]), Expr::Var(c)]),
                rhs: call(m.add, vec![Expr::Var(a), call(m.add, vec![Expr::Var(b), Expr::Var(c)])]),
            }),
            Command::Define(t, start.clone()),
            Command::Run(3),
            Command::Check(Fact::Eq(vec![
                Expr::Var(t),
                call(
                    m.add,
                    vec![
                        call(m.num, vec![lit(3)]),
                        call(m.add, vec![call(m.num, vec![lit(2)]), call(m.num, vec![lit(1)])]),
                    ],
                ),
            ])),
            Command::Extract(start),
            Command::Check(Fact::Eq(vec![Expr::Var(t), call(m.num, vec![lit(6)])])),
        ];
        let outcome = m.g.run_program(program);
        let classes = m.g.num_classes();
        let ids = m.g.num_ids();
        let rows = m.g.for_each_canonicalized(m.add);
        (format!("{:?}", outcome), classes, ids, rows)
    };
    let first = run();
    let second = run();
    assert_eq!(first, second);
    assert!(first.0.contains("CheckFailed"));
}

#[test]
fn commands_can_be_skipped() {
    let mut m = math();
    let x = m.g.symbol("x");
    let skipped = |r: Result<Report, Error>| matches!(r, Ok(Report::Skipped));
    assert!(skipped(m.g.run_command(Command::Run(3), false)));
    assert!(skipped(m.g.run_command(Command::Define(x, lit(1)), false)));
    assert!(skipped(m.g.run_command(Command::Extract(lit(1)), false)));
    assert!(skipped(m.g.run_command(Command::Check(Fact::Fact(lit(1))), false)));
    assert!(skipped(m.g.run_command(Command::Action(Action::Panic("x".to_string())), false)));
    assert!(matches!(m.g.run_command(Command::ClearRules, false), Ok(Report::ClearedRules)));
    assert!(matches!(m.g.eval_closed_expr(&Expr::Var(x)), Err(Error::NotFound(_))));
    let again = m.g.run_command(
        Command::Datatype { name: m.sort, variants: vec![Variant { name: x, types: vec![] }] },
        true,
    );
    assert!(matches!(again, Err(Error::SortAlreadyBound(s)) if s == m.sort));
    let half = m.g.run_command(
        Command::Datatype {
            name: x,
            variants: vec![
                Variant { name: x, types: vec![] },
                Variant { name: m.num, types: vec![] },
            ],
        },
        true,
    );
    assert!(matches!(half, Err(Error::Type(TypeError::FunctionAlreadyBound(f))) if f == m.num));
    // nothing of a datatype is declared where any of it is wrong
    assert!(matches!(m.g.eval_closed_expr(&call(x, vec![])), Err(Error::NotFound(_))));
    assert!(!m.g.has_sort(x));
    assert!(!m.g.has_function(x));
}

#[test]
fn a_datatype_is_checked_as_a_whole() {
    let mut g = EGraph::new();
    let tree = g.symbol("Tree");
    let leaf = g.symbol("Leaf");
    let node = g.symbol("Node");
    let missing = g.symbol("Missing");
    let wrong = g.run_command(
        Command::Datatype {
            name: tree,
            variants: vec![
                Variant { name: leaf, types: vec![Type::Sort(missing)] },
                Variant { name: node, types: vec![Type::Sort(tree), Type::Sort(tree)] },
                Variant { name: leaf, types: vec![Type::Sort(missing), Type::Unit] },
            ],
        },
        true,
    );
    assert_eq!(
        wrong.err(),
        Some(Error::TypeErrors(vec![
            TypeError::UndefinedSort(missing),
            TypeError::UndefinedSort(missing),
            TypeError::FunctionAlreadyBound(leaf),
        ]))
    );
    assert!(!g.has_sort(tree));
    assert!(!g.has_function(node));
    let right = g.run_command(
        Command::Datatype {
            name: tree,
            variants: vec![
                Variant { name: leaf, types: vec![Type::NumType(NumType::I64)] },
                Variant { name: node, types: vec![Type::Sort(tree), Type::Sort(tree)] },
            ],
        },
        true,
    );
    assert!(matches!(right, Ok(Report::Datatype(s)) if s == tree));
    assert!(g.has_sort(tree));
    assert!(g.has_function(leaf));
    assert!(g.has_function(node));
    let one = call(leaf, vec![lit(1)]);
    assert!(g.eval_closed_expr(&call(node, vec![one.clone(), one])).is_ok());
}

#[test]
fn a_failed_command_does_not_stop_the_program() {
    let mut g = EGraph::new();
    let x = g.symbol("x");
    let y = g.symbol("y");
    let s = g.symbol("S");
    let r = g.run_program(vec![
        Command::Define(x, lit(1)),
        Command::Check(Fact::Eq(vec![Expr::Var(x), lit(2)])),
        Command::Define(x, lit(5)),
        Command::Datatype { name: s, variants: vec![] },
        Command::Datatype { name: s, variants: vec![] },
        Command::Check(Fact::Eq(vec![Expr::Var(y), lit(3)])),
        Command::Define(y, lit(3)),
        Command::Check(Fact::Eq(vec![Expr::Var(y), lit(3)])),
    ]);
    assert_eq!(r.len(), 8);
    assert!(matches!(r[0], Ok(Report::Defined(n)) if n == x));
    assert_eq!(r[1].as_ref().err(), Some(&Error::CheckFailed(Value::Int(1), Value::Int(2))));
    assert_eq!(r[2].as_ref().err(), Some(&Error::AlreadyDefined(x)));
    assert!(matches!(r[3], Ok(Report::Datatype(n)) if n == s));
    assert_eq!(r[4].as_ref().err(), Some(&Error::SortAlreadyBound(s)));
    assert!(matches!(r[5], Err(Error::NotFound(_))));
    assert!(matches!(r[6], Ok(Report::Defined(n)) if n == y));
    assert!(matches!(r[7], Ok(Report::Checked)));
    assert_eq!(g.eval_closed_expr(&Expr::Var(x)), Ok(Value::Int(1)));
    assert_eq!(g.eval_closed_expr(&Expr::Var(y)), Ok(Value::Int(3)));
    assert!(g.run_program(vec![]).is_empty());
}

#[test]
fn a_fatal_error_ends_the_program() {
    let mut g = EGraph::new();
    let x = g.symbol("x");
    let y = g.symbol("y");
    let r = g.run_program(vec![
        Command::Define(x, lit(1)),
        Command::Action(Action::Panic("stop".to_string())),
        Command::Define(y, lit(3)),
    ]);
    assert_eq!(r.len(), 2);
    assert!(matches!(r[0], Ok(Report::Defined(n)) if n == x));
    assert_eq!(r[1].as_ref().err(), Some(&Error::UserPanic("stop".to_string())));
    assert!(matches!(g.eval_closed_expr(&Expr::Var(y)), Err(Error::NotFound(_))));
    assert!(is_fatal(&Error::UserPanic("stop".to_string())));
    assert!(is_fatal(&Error::Type(TypeError::NoMerge(x))));
    assert!(is_fatal(&Error::Type(TypeError::NoDefault(x))));
    assert!(is_fatal(&Error::Type(TypeError::BadOutput(x))));
    assert!(!is_fatal(&Error::Type(TypeError::Mismatch)));
    assert!(!is_fatal(&Error::CheckFailed(Value::Int(1), Value::Int(2))));
    assert!(!is_fatal(&Error::SortAlreadyBound(x)));
    assert!(!is_fatal(&Error::NoFreshVariable));
}

fn costs(merge: Option<Expr>) -> (Math, Symbol, Expr, Expr) {
    let mut m = math();
    let f = m.g.symbol("cost");
    m.g.declare_function(FunctionDecl {
        name: f,
        schema: Schema { input: vec![Type::Sort(m.sort)], output: Type::NumType(NumType::I64) },
        merge,
        default: None,
    })
    .unwrap();
    let one = call(m.num, vec![lit(1)]);
    let two = call(m.num, vec![lit(2)]);
    m.g.eval_actions(
        None,
        &vec![
            Action::SetNode(f, vec![one.clone()], lit(5)),
            Action::SetNode(f, vec![two.clone()], lit(3)),
            Action::Union(one.clone(), two.clone()),
        ],
    )
    .unwrap();
    (m, f, one, two)
}

#[test]
fn rebuild_reconciles_numeric_rows_by_the_merge_expression() {
    let least = call(Symbol::min(), vec![Expr::Var(Symbol::old_value()), Expr::Var(Symbol::new_value())]);
    let (mut m, f, one, two) = costs(Some(least));
    assert!(m.g.rebuild().unwrap() > 0);
    assert!(m.g.debug_assert_invariants());
    assert_eq!(m.g.for_each_canonicalized(f).unwrap().len(), 1);
    assert_eq!(m.g.eval_closed_expr(&call(f, vec![one])), Ok(Value::Int(3)));
    assert_eq!(m.g.eval_closed_expr(&call(f, vec![two])), Ok(Value::Int(3)));
    let sum = call(Symbol::plus(), vec![Expr::Var(Symbol::old_value()), Expr::Var(Symbol::new_value())]);
    let (mut m, f, one, _) = costs(Some(sum));
    m.g.rebuild().unwrap();
    assert_eq!(m.g.eval_closed_expr(&call(f, vec![one])), Ok(Value::Int(8)));
}

#[test]
fn rebuild_fails_where_numeric_rows_meet_without_a_merge() {
    let (mut m, f, _, _) = costs(None);
    let rows = m.g.for_each_canonicalized(f).unwrap();
    assert_eq!(m.g.rebuild(), Err(Error::Type(TypeError::NoMerge(f))));
    assert_eq!(m.g.for_each_canonicalized(f).unwrap().len(), rows.len());
    assert_eq!(m.g.run_rules(1), Err(Error::Type(TypeError::NoMerge(f))));
    let r = m.g.run_program(vec![Command::Run(1), Command::ClearRules]);
    assert_eq!(r.len(), 1);
    assert_eq!(r[0].as_ref().err(), Some(&Error::Type(TypeError::NoMerge(f))));
}

#[test]
fn rows_that_meet_with_the_same_number_need_no_merge() {
    let mut m = math();
    let f = m.g.symbol("cost");
    m.g.declare_function(FunctionDecl {
        name: f,
        schema: Schema { input: vec![Type::Sort(m.sort)], output: Type::NumType(NumType::I64) },
        merge: None,
        default: None,
    })
    .unwrap();
    let one = call(m.num, vec![lit(1)]);
    let two = call(m.num, vec![lit(2)]);
    m.g.eval_actions(
        None,
        &vec![
            Action::SetNode(f, vec![one.clone()], lit(4)),
            Action::SetNode(f, vec![two.clone()], lit(4)),
            Action::Union(one.clone(), two),
        ],
    )
    .unwrap();
    assert!(m.g.rebuild().is_ok());
    assert_eq!(m.g.for_each_canonicalized(f).unwrap().len(), 1);
    assert_eq!(m.g.eval_closed_expr(&call(f, vec![one])), Ok(Value::Int(4)));
}

#[test]
fn a_set_that_fails_leaves_the_row() {
    let mut g = EGraph::new();
    let f = g.symbol("f");
    g.declare_function(FunctionDecl {
        name: f,
        schema: Schema { input: vec![Type::NumType(NumType::I64)], output: Type::NumType(NumType::I64) },
        merge: None,
        default: None,
    })
    .unwrap();
    g.eval_actions(None, &vec![Action::SetNode(f, vec![lit(1)], lit(5))]).unwrap();
    assert_eq!(
        g.eval_actions(None, &vec![Action::SetNode(f, vec![lit(1)], lit(7))]),
        Err(Error::Type(TypeError::NoMerge(f)))
    );
    assert_eq!(g.eval_closed_expr(&call(f, vec![lit(1)])), Ok(Value::Int(5)));
}

#[test]
fn an_extracted_term_evaluates_to_its_class() {
    let mut m = math();
    let one = call(m.num, vec![lit(1)]);
    let sum = call(m.add, vec![one.clone(), one.clone()]);
    let class = m.g.eval_closed_expr(&sum).unwrap();
    m.g.eval_actions(None, &vec![Action::Union(sum.clone(), one.clone())]).unwrap();
    let (cost, term) = m.g.extract_expr(&sum).unwrap();
    assert_eq!((cost, term.clone()), (1, one));
    assert!(m.g.debug_assert_invariants());
    let ids = m.g.num_ids();
    let rows = m.g.for_each_canonicalized(m.add).unwrap();
    let value = m.g.eval_closed_expr(&term).unwrap();
    assert_eq!(value, m.g.bad_find_value(class));
    assert_eq!(m.g.num_ids(), ids);
    assert_eq!(m.g.for_each_canonicalized(m.add).unwrap(), rows);
    assert_eq!(m.g.rebuild(), Ok(0));
}

#[test]
fn a_rewrite_may_mention_the_reserved_variable() {
    let mut m = math();
    let v = Symbol::rewrite_var();
    let b = m.g.symbol("b");
    m.g.add_rewrite(Rewrite {
        lhs: call(m.add, vec![Expr::Var(v), Expr::Var(b)]),
        rhs: call(m.add, vec![Expr::Var(b), Expr::Var(v)]),
    })
    .unwrap();
    let one = call(m.num, vec![lit(1)]);
    let two = call(m.num, vec![lit(2)]);
    let ab = call(m.add, vec![one.clone(), two.clone()]);
    let ba = call(m.add, vec![two, one]);
    m.g.eval_closed_expr(&ab).unwrap();
    m.g.run_rules(2).unwrap();
    assert!(m.g.check_with(&Subst::new(), &Fact::Eq(vec![ab.clone(), ba])).is_ok());
    let other = call(m.add, vec![call(m.num, vec![lit(7)]), call(m.num, vec![lit(7)])]);
    assert!(matches!(
        m.g.check_with(&Subst::new(), &Fact::Eq(vec![ab, other])),
        Err(Error::CheckFailed(_, _))
    ));
}

#[test]
fn a_rewrite_without_a_free_variable_is_refused() {
    let mut m = math();
    let last = Symbol(usize::MAX);
    let v = Symbol::rewrite_var();
    let side = call(m.add, vec![Expr::Var(v), Expr::Var(last)]);
    assert!(side.mentions(v));
    assert!(side.mentions(last));
    assert!(!side.mentions(Symbol(9)));
    assert_eq!(side.top_variable(), Some(usize::MAX));
    assert_eq!(lit(1).top_variable(), None);
    let r = m.g.add_rewrite(Rewrite { lhs: side.clone(), rhs: side });
    assert_eq!(r, Err(Error::NoFreshVariable));
}

#[test]
fn constructor_like_declarations() {
    let decl = |merge: Option<Expr>, default: Option<Expr>, output: Type| FunctionDecl {
        name: Symbol(30),
        schema: Schema { input: vec![], output },
        merge,
        default,
    };
    assert!(decl(None, None, Type::Sort(Symbol(31))).is_constructor());
    assert!(!decl(None, None, Type::Unit).is_constructor());
    assert!(!decl(None, None, Type::NumType(NumType::I64)).is_constructor());
    assert!(!decl(Some(lit(1)), None, Type::Sort(Symbol(31))).is_constructor());
    assert!(!decl(None, Some(lit(1)), Type::Sort(Symbol(31))).is_constructor());
    assert!(Type::Sort(Symbol(31)).is_sort());
    assert!(!Type::Unit.is_sort());
    assert!(Value::Id(Id(0)).fits(Type::Sort(Symbol(31))));
    assert!(!Value::Int(0).fits(Type::Sort(Symbol(31))));
    assert!(Value::Int(0).fits(Type::NumType(NumType::I64)));
    assert!(!Value::Int(0).fits(Type::NumType(NumType::Rational)));
    assert!(Value::Unit.fits(Type::Unit));
    assert_eq!(Literal::Int(4).to_value(), Value::Int(4));
    assert_eq!(Literal::Unit.to_value(), Value::Unit);
}

#[test]
fn after_a_run_no_two_rows_stand_for_the_same_application() {
    let mut m = math();
    let a = m.g.symbol("a");
    let b = m.g.symbol("b");
    let c = m.g.symbol("c");
    m.g.add_rewrite(Rewrite {
        lhs: call(m.add, vec![Expr::Var(a), Expr::Var(b)]),
        rhs: call(m.add, vec![Expr::Var(b), Expr::Var(a)]),
    })
    .unwrap();
    m.g.add_rewrite(Rewrite {
        lhs: call(m.add, vec![call(m.add, vec![Expr::Var(a), Expr::Var(b)]), Expr::Var(c)]),
        rhs: call(m.add, vec![Expr::Var(a), call(m.add, vec![Expr::Var(b), Expr::Var(c)])]),
    })
    .unwrap();
    let n = |i: i64| call(m.num, vec![lit(i)]);
    m.g.eval_closed_expr(&call(m.add, vec![call(m.add, vec![n(1), n(2)]), call(m.add, vec![n(3), n(4)])]))
        .unwrap();
    m.g.run_rules(4).unwrap();
    for f in [m.num, m.add] {
        let rows = m.g.for_each_canonicalized(f).unwrap();
        let keys: Vec<Vec<Value>> = rows
            .iter()
            .map(|row| row[..row.len() - 1].iter().map(|v| m.g.bad_find_value(*v)).collect())
            .collect();
        for (i, row) in rows.iter().enumerate() {
            // every row is in canonical form
            assert_eq!(keys[i][..], row[..row.len() - 1]);
            assert_eq!(m.g.bad_find_value(row[row.len() - 1]), row[row.len() - 1]);
            for j in 0..i {
                assert_ne!(keys[i], keys[j]);
            }
        }
    }
}

#[test]
fn rows_that_do_not_fit_the_schema_are_refused() {
    let mut m = math();
    let size = m.g.symbol("size");
    let bad = m.g.symbol("bad");
    let worse = m.g.symbol("worse");
    let decl = |name: Symbol, merge: Option<Expr>, default: Option<Expr>| FunctionDecl {
        name,
        schema: Schema { input: vec![Type::Sort(m.sort)], output: Type::NumType(NumType::I64) },
        merge,
        default,
    };
    m.g.declare_function(decl(size, None, None)).unwrap();
    m.g.declare_function(decl(bad, None, Some(Expr::Lit(Literal::Unit)))).unwrap();
    m.g.declare_function(decl(worse, Some(Expr::Lit(Literal::Unit)), None)).unwrap();
    let one = call(m.num, vec![lit(1)]);
    let mismatch = Err(Error::Type(TypeError::Mismatch));
    // arguments of the wrong type, too few and too many
    assert_eq!(m.g.eval_closed_expr(&call(m.num, vec![one.clone()])), mismatch);
    assert_eq!(m.g.eval_closed_expr(&call(m.num, vec![])), mismatch);
    assert_eq!(m.g.eval_closed_expr(&call(m.add, vec![one.clone(), one.clone(), one.clone()])), mismatch);
    assert_eq!(m.g.eval_closed_expr(&call(m.add, vec![lit(1), lit(2)])), mismatch);
    // a default of the wrong type
    assert_eq!(
        m.g.eval_closed_expr(&call(bad, vec![one.clone()])),
        Err(Error::Type(TypeError::BadOutput(bad)))
    );
    // set with arguments or a value of the wrong type
    let set = |f: Symbol, args: Vec<Expr>, v: Expr| vec![Action::SetNode(f, args, v)];
    assert_eq!(m.g.eval_actions(None, &set(size, vec![lit(1)], lit(1))), Err(Error::Type(TypeError::Mismatch)));
    assert_eq!(
        m.g.eval_actions(None, &set(size, vec![one.clone()], one.clone())),
        Err(Error::Type(TypeError::Mismatch))
    );
    assert!(m.g.eval_actions(None, &set(size, vec![one.clone()], lit(1))).is_ok());
    // a merge of the wrong type
    assert!(m.g.eval_actions(None, &set(worse, vec![one.clone()], lit(1))).is_ok());
    assert_eq!(
        m.g.eval_actions(None, &set(worse, vec![one.clone()], lit(2))),
        Err(Error::Type(TypeError::BadOutput(worse)))
    );
    assert_eq!(m.g.eval_closed_expr(&call(worse, vec![one.clone()])), Ok(Value::Int(1)));
    assert_eq!(m.g.for_each_canonicalized(size).unwrap().len(), 1);
    assert_eq!(m.g.for_each_canonicalized(bad).unwrap().len(), 0);
}
