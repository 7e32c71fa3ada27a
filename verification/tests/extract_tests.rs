use eqsat::{
    Action, Command, EGraph, Error, Expr, Id, Literal, NumType, Report, Symbol, Type, TypeError,
    Variant,
};

fn lit(i: i64) -> Expr {
    Expr::Lit(Literal::Int(i))
}

fn call(f: Symbol, args: Vec<Expr>) -> Expr {
    Expr::Call(f, args)
}

fn count(e: &Expr) -> usize {
    match e {
        Expr::Call(_, args) => 1 + args.iter().map(count).sum::<usize>(),
        _ => 0,
    }
}

fn lists() -> (EGraph, Symbol, Symbol, Symbol) {
    let mut g = EGraph::new();
    let list = g.symbol("List");
    let nil = g.symbol("Nil");
    let cons = g.symbol("Cons");
    g.run_command(
        Command::Datatype {
            name: list,
            variants: vec![
                Variant { name: nil, types: vec![] },
                Variant { name: cons, types: vec![Type::NumType(NumType::I64), Type::Sort(list)] },
            ],
        },
        true,
    )
    .unwrap();
    (g, list, nil, cons)
}

#[test]
fn a_term_alone_in_its_class_is_extracted_as_it_is() {
    let (mut g, _, nil, cons) = lists();
    let term = call(cons, vec![lit(1), call(cons, vec![lit(2), call(nil, vec![])])]);
    let (cost, found) = g.extract_expr(&term).unwrap();
    assert_eq!(cost, 3);
    assert_eq!(found, term);
    assert_eq!(count(&found), cost);
    // the extracted term evaluates to the class it was extracted from
    let class = g.eval_closed_expr(&term).unwrap();
    let ids = g.num_ids();
    assert_eq!(g.eval_closed_expr(&found).unwrap(), g.bad_find_value(class));
    assert_eq!(g.num_ids(), ids);
}

#[test]
fn the_smallest_term_of_the_class_is_chosen() {
    let (mut g, _, nil, cons) = lists();
    let long = call(cons, vec![lit(1), call(cons, vec![lit(1), call(cons, vec![lit(1), call(nil, vec![])])])]);
    let short = call(cons, vec![lit(2), call(nil, vec![])]);
    g.eval_actions(None, &vec![Action::Union(long.clone(), short.clone())]).unwrap();
    let (cost, found) = g.extract_expr(&long).unwrap();
    assert_eq!(cost, 2);
    assert_eq!(found, short);
    assert_eq!(g.extract_expr(&short).unwrap(), (2, short.clone()));
    // a term above the class uses the smallest term below it
    let above = call(cons, vec![lit(9), long]);
    assert_eq!(g.extract_expr(&above).unwrap(), (3, call(cons, vec![lit(9), short])));
}

#[test]
fn a_class_that_holds_itself_has_a_finite_term() {
    let (mut g, _, nil, cons) = lists();
    let base = call(nil, vec![]);
    let wrapped = call(cons, vec![lit(0), base.clone()]);
    g.eval_actions(None, &vec![Action::Union(base.clone(), wrapped.clone())]).unwrap();
    assert_eq!(g.extract_expr(&wrapped).unwrap(), (1, base));
}

#[test]
fn extraction_by_identifier_needs_a_rebuilt_graph() {
    let (mut g, _, nil, cons) = lists();
    let term = call(cons, vec![lit(1), call(nil, vec![])]);
    g.eval_closed_expr(&term).unwrap();
    g.rebuild().unwrap();
    assert_eq!(g.extract(Id(0)), Ok((1, call(nil, vec![]))));
    assert_eq!(g.extract(Id(1)), Ok((2, term)));
    assert_eq!(g.extract(Id(7)), Err(Error::Unextractable(Id(7))));
}

#[test]
fn nothing_is_extracted_from_a_number_or_an_empty_class() {
    let (mut g, list, _, _) = lists();
    assert_eq!(g.extract_expr(&lit(1)), Err(Error::Type(TypeError::Mismatch)));
    let x = g.symbol("x");
    assert!(matches!(g.extract_expr(&Expr::Var(x)), Err(Error::NotFound(_))));
    let r = g.run_command(Command::Extract(lit(1)), true);
    assert!(matches!(r, Err(Error::Type(TypeError::Mismatch))));
    let _ = list;
    let nil = g.symbol("Nil");
    let ok = g.run_command(Command::Extract(Expr::Call(nil, vec![])), true);
    assert!(matches!(ok, Ok(Report::Extracted(1, _))));
}
