//! Evaluation of expressions against the graph.

use crate::ast::{Expr, FunctionDecl};
use crate::error::{not_found, same_error, same_outcome, Error, NotFoundError, TypeError};
use crate::function::{
    args_fit, has_key, key_row, keys_distinct, table_get, table_set, values_fit, Row,
};
use crate::model::{decl_models, function_index, has_function, same_schemas, Env, StateModel};
use crate::primitive::{handles_known, prim_result, Primitive, Primitives};
use crate::state::State;
use crate::subst::Subst;
use crate::symbol::Symbol;
use crate::value::{Id, Type, Value};
use vstd::prelude::*;

verus! {

/// The environment that a list of declarations and a list of primitives
/// make.
pub open spec fn env_of(decls: Seq<FunctionDecl>, prims: Seq<Primitive>) -> Env {
    Env { decls: decl_models(decls), prims }
}

/// The value of a variable: its binding in the substitution, else its
/// global binding, else nothing.
pub open spec fn lookup_var(
    st: StateModel,
    ctx: Map<Symbol, Value>,
    e: Expr,
    v: Symbol,
) -> Result<Value, Error> {
    if ctx.contains_key(v) {
        Ok(ctx[v])
    } else if st.globals.contains_key(v) {
        Ok(st.globals[v])
    } else {
        Err(Error::NotFound(NotFoundError(e)))
    }
}

/// Whether primitive `i` is an implementation of `op` that takes `vals`.
pub open spec fn prim_matches(prims: Seq<Primitive>, op: Symbol, vals: Seq<Value>, i: int) -> bool {
    prims[i].spec_name() == op && prims[i].spec_accept(vals)
}

/// The number of primitives below `n` that match.
pub open spec fn count_matches(prims: Seq<Primitive>, op: Symbol, vals: Seq<Value>, n: int) -> nat
    decreases n,
{
    if n <= 0 {
        0
    } else {
        count_matches(prims, op, vals, n - 1) + if prim_matches(prims, op, vals, n - 1) {
            1nat
        } else {
            0nat
        }
    }
}

/// A primitive that matches.
pub open spec fn first_match(prims: Seq<Primitive>, op: Symbol, vals: Seq<Value>) -> int {
    choose|i: int| 0 <= i < prims.len() && prim_matches(prims, op, vals, i)
}

/// The application of the primitive operator `op`: the one implementation
/// that takes the values is applied. Where none takes them, or a rational
/// among them is no handle of the pool, the expression is not found; where
/// several take them, the operator is ambiguous.
pub open spec fn apply_primitive_spec(
    prims: Seq<Primitive>,
    st: StateModel,
    op: Symbol,
    vals: Seq<Value>,
    e: Expr,
) -> (StateModel, Result<Value, Error>) {
    let n = count_matches(prims, op, vals, prims.len() as int);
    if n == 0 {
        (st, Err(Error::NotFound(NotFoundError(e))))
    } else if n > 1 {
        (st, Err(Error::PrimitiveAmbiguity(op)))
    } else if !handles_known(st.pool, vals) {
        (st, Err(Error::NotFound(NotFoundError(e))))
    } else {
        let p = prims[first_match(prims, op, vals)];
        let (pool, v) = prim_result(p.spec_op(), st.pool, vals);
        (StateModel { pool, ..st }, Ok(v))
    }
}

/// What a call gives where the row is absent and the function has no
/// default: a unit function stores unit, a constructor-like function
/// allocates a fresh class and stores it, a numeric function fails.
pub open spec fn absent_without_default(st: StateModel, fi: int, vals: Seq<Value>, e: Expr) -> (
    StateModel,
    Result<Value, Error>,
) {
    match st.tables[fi].output {
        Type::Unit => (st.with_row(fi, vals, Value::Unit), Ok(Value::Unit)),
        Type::Sort(_) => {
            let id = Value::Id(Id(st.roots.len() as usize));
            (st.fresh_class().with_row(fi, vals, id), Ok(id))
        },
        Type::NumType(_) => (st, Err(Error::Type(TypeError::NoDefault(st.tables[fi].name)))),
    }
}

/// The state and the value that evaluating `e` under `ctx` gives.
///
/// A variable is looked up in `ctx`, then in the globals. A call evaluates
/// its arguments from left to right; the operator is a function where a
/// table of that name exists, else a primitive. A function takes only
/// arguments that fit its schema. It returns the stored output; where the
/// row is absent it stores and returns the value of its default, evaluated
/// under `ctx`, which must have the output type, or else what
/// [`absent_without_default`] says. A default of another type is a bad
/// output. The default is evaluated first and its value stored then, so
/// no evaluation changes the output of a key that had one when it began.
/// `fuel` bounds how many defaults may be open at once: one more is not
/// found.
pub open spec fn eval_spec(
    env: Env,
    st: StateModel,
    ctx: Map<Symbol, Value>,
    e: Expr,
    fuel: nat,
) -> (StateModel, Result<Value, Error>)
    decreases fuel, e,
{
    match e {
        Expr::Var(v) => (st, lookup_var(st, ctx, e, v)),
        Expr::Lit(l) => (st, Ok(l.spec_to_value())),
        Expr::Call(op, args) => {
            let (st1, r) = eval_args_spec(env, st, ctx, args@, 0, Seq::empty(), fuel);
            match r {
                Err(err) => (st1, Err(err)),
                Ok(vals) => if has_function(st1.tables, op) {
                    let fi = function_index(st1.tables, op);
                    if !args_fit(st1.tables[fi].input, vals) {
                        (st1, Err(Error::Type(TypeError::Mismatch)))
                    } else {
                        match table_get(st1.tables[fi].rows, vals) {
                            Some(v) => (st1, Ok(v)),
                            None => match env.decls[fi].default {
                                Some(d) => if fuel == 0 {
                                    (st1, Err(Error::NotFound(NotFoundError(e))))
                                } else {
                                    let (st2, r2) = eval_spec(env, st1, ctx, d, (fuel - 1) as nat);
                                    match r2 {
                                        Err(err) => (st2, Err(err)),
                                        Ok(v) => if v.spec_fits(st2.tables[fi].output) {
                                            (st2.with_row(fi, vals, v), Ok(v))
                                        } else {
                                            (
                                                st2,
                                                Err(
                                                    Error::Type(
                                                        TypeError::BadOutput(st2.tables[fi].name),
                                                    ),
                                                ),
                                            )
                                        },
                                    }
                                },
                                None => absent_without_default(st1, fi, vals, e),
                            },
                        }
                    }
                } else {
                    apply_primitive_spec(env.prims, st1, op, vals, e)
                },
            }
        },
    }
}

/// The state and the values that evaluating `args[i..]` from left to
/// right gives, after `acc`; the first failure ends it.
pub open spec fn eval_args_spec(
    env: Env,
    st: StateModel,
    ctx: Map<Symbol, Value>,
    args: Seq<Expr>,
    i: int,
    acc: Seq<Value>,
    fuel: nat,
) -> (StateModel, Result<Seq<Value>, Error>)
    decreases fuel, args, args.len() - i,
{
    if i < 0 || i >= args.len() {
        (st, Ok(acc))
    } else {
        let (st1, r) = eval_spec(env, st, ctx, args[i], fuel);
        match r {
            Err(err) => (st1, Err(err)),
            Ok(v) => eval_args_spec(env, st1, ctx, args, i + 1, acc.push(v), fuel),
        }
    }
}

/// Whether an outcome with a list of values is the one that the model
/// gives.
pub open spec fn same_values_outcome(
    got: Result<Vec<Value>, Error>,
    model: Result<Seq<Value>, Error>,
) -> bool {
    match (got, model) {
        (Ok(x), Ok(y)) => x@ == y,
        (Err(x), Err(y)) => same_error(x, y),
        _ => false,
    }
}

/// What evaluation leaves as it was: the functions and their schemas, the
/// classes and the rationals that existed, the merges counted, the
/// globals, and the output of every key that had one. It can only add
/// classes, rationals and rows.
pub open spec fn grows(a: StateModel, b: StateModel) -> bool {
    &&& forall|i: int, k: Seq<Value>|
        0 <= i < a.tables.len() && (#[trigger] table_get(a.tables[i].rows, k)) is Some
            ==> table_get(b.tables[i].rows, k) == table_get(a.tables[i].rows, k)
    &&& same_schemas(a.tables, b.tables)
    &&& a.roots.len() <= b.roots.len()
    &&& forall|i: int| 0 <= i < a.roots.len() ==> #[trigger] b.roots[i] == a.roots[i]
    &&& forall|i: int| a.roots.len() <= i < b.roots.len() ==> #[trigger] b.roots[i] == i
    &&& a.unions == b.unions
    &&& a.pool.len() <= b.pool.len()
    &&& forall|i: int| 0 <= i < a.pool.len() ==> #[trigger] b.pool[i] == a.pool[i]
    &&& a.globals == b.globals
}

/// Where nothing matches, no primitive does.
pub proof fn lemma_count_none(prims: Seq<Primitive>, op: Symbol, vals: Seq<Value>, n: int, k: int)
    requires
        count_matches(prims, op, vals, n) == 0,
        0 <= k < n,
    ensures
        !prim_matches(prims, op, vals, k),
    decreases n,
{
    if k < n - 1 {
        lemma_count_none(prims, op, vals, n - 1, k);
    }
}

/// Where one primitive matches, it is the only one.
pub proof fn lemma_count_one(prims: Seq<Primitive>, op: Symbol, vals: Seq<Value>, n: int, j: int, k: int)
    requires
        count_matches(prims, op, vals, n) == 1,
        0 <= j < n,
        0 <= k < n,
        prim_matches(prims, op, vals, j),
        prim_matches(prims, op, vals, k),
    ensures
        j == k,
    decreases n,
{
    if prim_matches(prims, op, vals, n - 1) {
        if j < n - 1 {
            lemma_count_none(prims, op, vals, n - 1, j);
        }
        if k < n - 1 {
            lemma_count_none(prims, op, vals, n - 1, k);
        }
    } else {
        lemma_count_one(prims, op, vals, n - 1, j, k);
    }
}

fn apply_primitive(prims: &Primitives, st: &mut State, op: Symbol, vals: &Vec<Value>, e: &Expr) -> (r:
    Result<Value, Error>)
    requires
        prims.indexed(),
        old(st).wf(),
        forall|i: int| 0 <= i < prims@.len() ==> (#[trigger] prims@[i]).wf(),
    ensures
        final(st).wf(),
        final(st)@ == apply_primitive_spec(prims@, old(st)@, op, vals@, *e).0,
        same_outcome(r, apply_primitive_spec(prims@, old(st)@, op, vals@, *e).1),
        grows(old(st)@, final(st)@),
{
    let (count, found) = prims.select(op, vals);
    if count == 0 {
        Err(not_found(e))
    } else if count > 1 {
        Err(Error::PrimitiveAmbiguity(op))
    } else if !st.handles_known(vals) {
        Err(not_found(e))
    } else {
        proof {
            let k = first_match(prims@, op, vals@);
            lemma_count_one(prims@, op, vals@, prims@.len() as int, found as int, k);
            st.lemma_wf();
        }
        let v = st.apply_primitive(prims.get(found), vals);
        Ok(v)
    }
}

/// Evaluates the expressions from left to right; the first failure ends
/// it. See [`eval_args_spec`].
pub fn eval_args(
    decls: &Vec<FunctionDecl>,
    prims: &Primitives,
    st: &mut State,
    ctx: &Subst,
    args: &Vec<Expr>,
    fuel: usize,
) -> (r: Result<Vec<Value>, Error>)
    requires
        prims.indexed(),
        old(st).wf(),
        env_of(decls@, prims@).fits(old(st)@.tables),
    ensures
        final(st).wf(),
        final(st)@ == eval_args_spec(
            env_of(decls@, prims@),
            old(st)@,
            ctx@,
            args@,
            0,
            Seq::empty(),
            fuel as nat,
        ).0,
        same_values_outcome(
            r,
            eval_args_spec(
                env_of(decls@, prims@),
                old(st)@,
                ctx@,
                args@,
                0,
                Seq::empty(),
                fuel as nat,
            ).1,
        ),
        grows(old(st)@, final(st)@),
        env_of(decls@, prims@).fits(final(st)@.tables),
    decreases fuel, args,
{
    let ghost env = env_of(decls@, prims@);
    let ghost goal = eval_args_spec(env, old(st)@, ctx@, args@, 0, Seq::empty(), fuel as nat);
    let mut vals: Vec<Value> = Vec::new();
    let mut i: usize = 0;
    while i < args.len()
        invariant
            prims.indexed(),
            i <= args@.len(),
            st.wf(),
            env == env_of(decls@, prims@),
            env.fits(st@.tables),
            goal == eval_args_spec(env, st@, ctx@, args@, i as int, vals@, fuel as nat),
            goal == eval_args_spec(env, old(st)@, ctx@, args@, 0, Seq::empty(), fuel as nat),
            grows(old(st)@, st@),
        decreases args@.len() - i,
    {
        let ghost before = st@;
        match eval(decls, prims, st, ctx, &args[i], fuel) {
            Err(err) => {
                return Err(err);
            },
            Ok(v) => {
                vals.push(v);
            },
        }
        i += 1;
    }
    Ok(vals)
}

/// Evaluates `e` under `ctx`. See [`eval_spec`].
pub fn eval(
    decls: &Vec<FunctionDecl>,
    prims: &Primitives,
    st: &mut State,
    ctx: &Subst,
    e: &Expr,
    fuel: usize,
) -> (r: Result<Value, Error>)
    requires
        prims.indexed(),
        old(st).wf(),
        env_of(decls@, prims@).fits(old(st)@.tables),
    ensures
        final(st).wf(),
        final(st)@ == eval_spec(env_of(decls@, prims@), old(st)@, ctx@, *e, fuel as nat).0,
        same_outcome(r, eval_spec(env_of(decls@, prims@), old(st)@, ctx@, *e, fuel as nat).1),
        grows(old(st)@, final(st)@),
        env_of(decls@, prims@).fits(final(st)@.tables),
    decreases fuel, e,
{
    let ghost env = env_of(decls@, prims@);
    match e {
        Expr::Var(v) => {
            match ctx.get(*v) {
                Some(x) => Ok(x),
                None => match st.global(*v) {
                    Some(x) => Ok(x),
                    None => Err(not_found(e)),
                },
            }
        },
        Expr::Lit(l) => Ok(l.to_value()),
        Expr::Call(op, args) => {
            let vals = match eval_args(decls, prims, st, ctx, args, fuel) {
                Err(err) => {
                    return Err(err);
                },
                Ok(vals) => vals,
            };
            let ghost st1 = st@;
            match st.find_function(*op) {
                Some(fi) => {
                    if !values_fit(st.input(fi), &vals) {
                        return Err(Error::Type(TypeError::Mismatch));
                    }
                    match st.lookup(fi, &vals) {
                        Some(v) => Ok(v),
                        None => {
                            match &decls[fi].default {
                                Some(d) => {
                                    if fuel == 0 {
                                        Err(not_found(e))
                                    } else {
                                        match eval(decls, prims, st, ctx, d, fuel - 1) {
                                            Err(err) => Err(err),
                                            Ok(v) => {
                                                let ghost st2 = st@;
                                                assert(st2.tables[fi as int].input
                                                    == st1.tables[fi as int].input);
                                                if !v.fits(st.output(fi)) {
                                                    return Err(
                                                        Error::Type(
                                                            TypeError::BadOutput(decls[fi].name),
                                                        ),
                                                    );
                                                }
                                                proof {
                                                    st.lemma_wf();
                                                }
                                                let _ = st.insert(fi, vals, v);
                                                proof {
                                                    lemma_store_grows(st1, st2, fi as int, vals@, v);
                                                }
                                                Ok(v)
                                            },
                                        }
                                    }
                                },
                                None => {
                                    match st.output(fi) {
                                        Type::Unit => {
                                            proof {
                                                st.lemma_wf();
                                            }
                                            let _ = st.insert(fi, vals, Value::Unit);
                                            proof {
                                                lemma_with_row_grows(st1, fi as int, vals@, Value::Unit);
                                            }
                                            Ok(Value::Unit)
                                        },
                                        Type::Sort(_) => {
                                            let id = st.make_set();
                                            let ghost st2 = st@;
                                            assert(st2.tables == st1.tables);
                                            proof {
                                                st.lemma_wf();
                                            }
                                            let _ = st.insert(fi, vals, Value::Id(id));
                                            proof {
                                                lemma_with_row_grows(
                                                    st2,
                                                    fi as int,
                                                    vals@,
                                                    Value::Id(id),
                                                );
                                            }
                                            Ok(Value::Id(id))
                                        },
                                        Type::NumType(_) => Err(
                                            Error::Type(TypeError::NoDefault(decls[fi].name)),
                                        ),
                                    }
                                },
                            }
                        },
                    }
                },
                None => {
                    assert forall|i: int| 0 <= i < prims@.len() implies (#[trigger] prims@[i]).wf() by {
                        assert(env.prims[i].wf());
                    }
                    apply_primitive(prims, st, *op, &vals, e)
                },
            }
        },
    }
}

/// Storing a row leaves the output of every other key as it was.
pub proof fn lemma_set_other(rows: Seq<Row>, k: Seq<Value>, v: Value, k2: Seq<Value>)
    requires
        keys_distinct(rows),
        k2 != k,
    ensures
        table_get(table_set(rows, k, v), k2) == table_get(rows, k2),
{
    let now = table_set(rows, k, v);
    if has_key(rows, k) {
        let p = key_row(rows, k);
        assert(now == rows.update(p, (k, v)));
        if has_key(rows, k2) {
            let at = key_row(rows, k2);
            assert(now[at] == rows[at]);
            assert(has_key(now, k2));
            let got = key_row(now, k2);
            assert(got != p);
            assert(now[got] == rows[got]);
            if got < at {
                assert(rows[got].0 != rows[at].0);
            } else if at < got {
                assert(rows[at].0 != rows[got].0);
            }
        } else if has_key(now, k2) {
            let got = key_row(now, k2);
            assert(got != p);
            assert(rows[got].0 == k2);
        }
    } else {
        assert(now == rows.push((k, v)));
        if has_key(rows, k2) {
            let at = key_row(rows, k2);
            assert(now[at] == rows[at]);
            assert(has_key(now, k2));
            let got = key_row(now, k2);
            assert(got < rows.len());
            assert(now[got] == rows[got]);
            if got < at {
                assert(rows[got].0 != rows[at].0);
            } else if at < got {
                assert(rows[at].0 != rows[got].0);
            }
        } else if has_key(now, k2) {
            let got = key_row(now, k2);
            assert(got < rows.len());
            assert(rows[got].0 == k2);
        }
    }
}

/// Where a state grew and a row is then stored under a key that had no
/// output before it grew, the state has still only grown.
pub proof fn lemma_store_grows(a: StateModel, b: StateModel, fi: int, k: Seq<Value>, v: Value)
    requires
        0 <= fi < a.tables.len(),
        grows(a, b),
        keys_distinct(b.tables[fi].rows),
        table_get(a.tables[fi].rows, k) is None,
    ensures
        grows(a, b.with_row(fi, k, v)),
{
    let c = b.with_row(fi, k, v);
    assert forall|i: int, k2: Seq<Value>|
        0 <= i < a.tables.len() && (#[trigger] table_get(a.tables[i].rows, k2)) is Some implies table_get(
        c.tables[i].rows,
        k2,
    ) == table_get(a.tables[i].rows, k2) by {
        if i == fi {
            lemma_set_other(b.tables[fi].rows, k, v, k2);
        }
    }
}

/// Storing a row under a key that had none changes neither schemas nor
/// classes, nor the output of any other key.
pub proof fn lemma_with_row_grows(st: StateModel, fi: int, k: Seq<Value>, v: Value)
    requires
        0 <= fi < st.tables.len(),
        keys_distinct(st.tables[fi].rows),
        table_get(st.tables[fi].rows, k) is None,
    ensures
        grows(st, st.with_row(fi, k, v)),
{
    let after = st.with_row(fi, k, v);
    let rows = st.tables[fi].rows;
    assert forall|i: int, k2: Seq<Value>|
        0 <= i < st.tables.len() && (#[trigger] table_get(st.tables[i].rows, k2)) is Some implies table_get(
        after.tables[i].rows,
        k2,
    ) == table_get(st.tables[i].rows, k2) by {
        if i == fi {
            let at = key_row(rows, k2);
            let now = after.tables[i].rows;
            assert(now == rows.push((k, v)));
            assert(now[at] == rows[at]);
            assert(has_key(now, k2));
            let got = key_row(now, k2);
            if got != at {
                if got < rows.len() {
                    assert(now[got] == rows[got]);
                    if got < at {
                        assert(rows[got].0 != rows[at].0);
                    } else {
                        assert(rows[at].0 != rows[got].0);
                    }
                } else {
                    assert(now[got].0 == k);
                    assert(has_key(rows, k));
                }
            }
        }
    }
}

} // verus!
