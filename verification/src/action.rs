//! Actions, checks and merges of expressions.

use crate::ast::{Action, Expr, Fact, FunctionDecl};
use crate::error::{not_found, same_outcome, Error, NotFoundError, TypeError};
use crate::eval::{env_of, eval, eval_args, eval_args_spec, eval_spec, grows};
use crate::function::{args_fit, table_get, values_fit};
use crate::merge::merge_ctx;
use crate::model::{function_index, has_function, same_schemas, Env, StateModel};
use crate::primitive::Primitives;
use crate::state::State;
use crate::subst::Subst;
use crate::symbol::Symbol;
use crate::unionfind::{canon_value, is_known_class, merged_root};
use crate::value::{Id, Type, Value};
use vstd::prelude::*;

verus! {

/// The substitution that an action sequence without one evaluates under.
pub open spec fn ctx_or_empty(ctx: Option<Map<Symbol, Value>>) -> Map<Symbol, Value> {
    match ctx {
        Some(c) => c,
        None => Map::empty(),
    }
}

/// The state and the outcome of merging the classes of two values: both
/// must be class identifiers that were handed out.
pub open spec fn union_values_spec(st: StateModel, a: Value, b: Value) -> (
    StateModel,
    Result<Value, Error>,
) {
    if is_known_class(st.roots, a) && is_known_class(st.roots, b) {
        (
            st.merged(a->Id_0.0 as int, b->Id_0.0 as int),
            Ok(Value::Id(Id(merged_root(st.roots, a->Id_0.0 as int, b->Id_0.0 as int) as usize))),
        )
    } else {
        (st, Err(Error::Type(TypeError::Mismatch)))
    }
}

/// What storing `v` under `vals` in table `fi` does where the row exists
/// already with the output `stored`: with a merge expression, its value
/// under `old` and `new` is stored, which must have the output type;
/// without one, a unit output is left, a sort output merges the two
/// classes and stores the incoming one, and a numeric output is an error.
/// Nothing is written before this is decided, so a set that fails leaves
/// the row as it was.
pub open spec fn reconcile_spec(
    env: Env,
    st: StateModel,
    fi: int,
    vals: Seq<Value>,
    stored: Value,
    v: Value,
    fuel: nat,
) -> (StateModel, Result<(), Error>) {
    match env.decls[fi].merge {
        Some(m) => {
            let (st1, r) = eval_spec(env, st, merge_ctx(stored, v), m, fuel);
            match r {
                Err(err) => (st1, Err(err)),
                Ok(merged) => if merged.spec_fits(st1.tables[fi].output) {
                    (st1.with_row(fi, vals, merged), Ok(()))
                } else {
                    (st1, Err(Error::Type(TypeError::BadOutput(st1.tables[fi].name))))
                },
            }
        },
        None => match st.tables[fi].output {
            Type::Unit => (st, Ok(())),
            Type::Sort(_) => {
                let (st1, r) = union_values_spec(st, stored, v);
                match r {
                    Err(err) => (st1, Err(err)),
                    Ok(_) => (st1.with_row(fi, vals, v), Ok(())),
                }
            },
            Type::NumType(_) => (st, Err(Error::Type(TypeError::NoMerge(st.tables[fi].name)))),
        },
    }
}

/// The state, the substitution and the outcome of one action.
pub open spec fn eval_action_spec(
    env: Env,
    st: StateModel,
    ctx: Option<Map<Symbol, Value>>,
    a: Action,
    fuel: nat,
) -> (StateModel, Option<Map<Symbol, Value>>, Result<(), Error>) {
    match a {
        Action::Panic(msg) => (st, ctx, Err(Error::UserPanic(msg))),
        Action::Expr(e) => {
            let (st1, r) = eval_spec(env, st, ctx_or_empty(ctx), e, fuel);
            match r {
                Err(err) => (st1, ctx, Err(err)),
                Ok(_) => (st1, ctx, Ok(())),
            }
        },
        Action::Define(x, e) => {
            let (st1, r) = eval_spec(env, st, ctx_or_empty(ctx), e, fuel);
            match r {
                Err(err) => (st1, ctx, Err(err)),
                Ok(v) => match ctx {
                    Some(c) => (st1, Some(c.insert(x, v)), Ok(())),
                    None => (st1.with_global(x, v), ctx, Ok(())),
                },
            }
        },
        Action::SetNode(f, args, e) => {
            let (st1, r1) = eval_args_spec(
                env,
                st,
                ctx_or_empty(ctx),
                args@,
                0,
                Seq::empty(),
                fuel,
            );
            match r1 {
                Err(err) => (st1, ctx, Err(err)),
                Ok(vals) => {
                    let (st2, r2) = eval_spec(env, st1, ctx_or_empty(ctx), e, fuel);
                    match r2 {
                        Err(err) => (st2, ctx, Err(err)),
                        Ok(v) => if !has_function(st2.tables, f) {
                            (st2, ctx, Err(Error::NotFound(NotFoundError(e))))
                        } else if !args_fit(
                            st2.tables[function_index(st2.tables, f)].input,
                            vals,
                        ) || !v.spec_fits(st2.tables[function_index(st2.tables, f)].output) {
                            (st2, ctx, Err(Error::Type(TypeError::Mismatch)))
                        } else {
                            let fi = function_index(st2.tables, f);
                            match table_get(st2.tables[fi].rows, vals) {
                                None => (st2.with_row(fi, vals, v), ctx, Ok(())),
                                Some(stored) => {
                                    let (st4, r4) = reconcile_spec(env, st2, fi, vals, stored, v, fuel);
                                    (st4, ctx, r4)
                                },
                            }
                        },
                    }
                },
            }
        },
        Action::Union(a, b) => {
            let (st1, r1) = eval_spec(env, st, ctx_or_empty(ctx), a, fuel);
            match r1 {
                Err(err) => (st1, ctx, Err(err)),
                Ok(x) => {
                    let (st2, r2) = eval_spec(env, st1, ctx_or_empty(ctx), b, fuel);
                    match r2 {
                        Err(err) => (st2, ctx, Err(err)),
                        Ok(y) => {
                            let (st3, r3) = union_values_spec(st2, x, y);
                            match r3 {
                                Err(err) => (st3, ctx, Err(err)),
                                Ok(_) => (st3, ctx, Ok(())),
                            }
                        },
                    }
                },
            }
        },
    }
}

/// The state, the substitution and the outcome of the actions `i..`, run
/// in order; the first failure ends the sequence.
pub open spec fn eval_actions_spec(
    env: Env,
    st: StateModel,
    ctx: Option<Map<Symbol, Value>>,
    actions: Seq<Action>,
    i: int,
    fuel: nat,
) -> (StateModel, Option<Map<Symbol, Value>>, Result<(), Error>)
    decreases actions.len() - i,
{
    if i < 0 || i >= actions.len() {
        (st, ctx, Ok(()))
    } else {
        let (st1, ctx1, r) = eval_action_spec(env, st, ctx, actions[i], fuel);
        match r {
            Err(err) => (st1, ctx1, Err(err)),
            Ok(_) => eval_actions_spec(env, st1, ctx1, actions, i + 1, fuel),
        }
    }
}

/// What actions leave as they were: the functions and their schemas, and
/// the classes' members. Actions add classes and rows, merge classes and
/// bind globals; none of them removes an identifier or separates two.
pub open spec fn advances(a: StateModel, b: StateModel) -> bool {
    &&& same_schemas(a.tables, b.tables)
    &&& a.roots.len() <= b.roots.len()
    &&& a.unions <= b.unions
    &&& forall|i: int, j: int|
        0 <= i < a.roots.len() && 0 <= j < a.roots.len() && a.roots[i] == a.roots[j]
            ==> #[trigger] b.roots[i] == #[trigger] b.roots[j]
}

/// The model of an exec substitution that may be absent.
pub open spec fn ctx_view(ctx: Option<Subst>) -> Option<Map<Symbol, Value>> {
    match ctx {
        Some(c) => Some(c@),
        None => None,
    }
}

/// Storing a row advances the state.
pub proof fn lemma_with_row_advances(st: StateModel, fi: int, k: Seq<Value>, v: Value)
    requires
        0 <= fi < st.tables.len(),
    ensures
        advances(st, st.with_row(fi, k, v)),
{
}

/// Evaluation advances the state.
pub proof fn lemma_grows_advances(a: StateModel, b: StateModel)
    requires
        grows(a, b),
    ensures
        advances(a, b),
{
}

/// Advancing twice is advancing.
pub proof fn lemma_advances_trans(a: StateModel, b: StateModel, c: StateModel)
    requires
        advances(a, b),
        advances(b, c),
    ensures
        advances(a, c),
{
    assert forall|i: int, j: int|
        0 <= i < a.roots.len() && 0 <= j < a.roots.len() && a.roots[i] == a.roots[j] implies #[trigger] c.roots[i]
        == #[trigger] c.roots[j] by {
        assert(b.roots[i] == b.roots[j]);
    }
    assert(same_schemas(a.tables, c.tables)) by {
        assert forall|i: int| 0 <= i < a.tables.len() implies (#[trigger] a.tables[i]).name
            == c.tables[i].name && a.tables[i].input == c.tables[i].input && a.tables[i].output
            == c.tables[i].output by {
            assert(b.tables[i].name == c.tables[i].name);
        }
    }
}

/// Between two well-formed states of which the second advances the first,
/// the classes grow by no more than the identifiers do: every class that
/// is new has a new identifier.
pub proof fn lemma_classes_bounded(a: StateModel, b: StateModel)
    requires
        a.wf(),
        b.wf(),
        advances(a, b),
    ensures
        b.classes() <= a.classes() + (b.roots.len() - a.roots.len()),
{
}

fn merge_values(st: &mut State, a: Value, b: Value) -> (r: Result<Value, Error>)
    requires
        old(st).wf(),
    ensures
        final(st).wf(),
        final(st)@ == union_values_spec(old(st)@, a, b).0,
        same_outcome(r, union_values_spec(old(st)@, a, b).1),
        advances(old(st)@, final(st)@),
{
    match st.union_values(a, b) {
        Some(v) => Ok(v),
        None => Err(Error::Type(TypeError::Mismatch)),
    }
}

fn eval_under(
    decls: &Vec<FunctionDecl>,
    prims: &Primitives,
    st: &mut State,
    ctx: &Option<Subst>,
    e: &Expr,
    fuel: usize,
) -> (r: Result<Value, Error>)
    requires
        prims.indexed(),
        old(st).wf(),
        env_of(decls@, prims@).fits(old(st)@.tables),
    ensures
        final(st).wf(),
        final(st)@ == eval_spec(
            env_of(decls@, prims@),
            old(st)@,
            ctx_or_empty(ctx_view(*ctx)),
            *e,
            fuel as nat,
        ).0,
        same_outcome(
            r,
            eval_spec(
                env_of(decls@, prims@),
                old(st)@,
                ctx_or_empty(ctx_view(*ctx)),
                *e,
                fuel as nat,
            ).1,
        ),
        grows(old(st)@, final(st)@),
        env_of(decls@, prims@).fits(final(st)@.tables),
{
    match ctx {
        Some(c) => eval(decls, prims, st, c, e, fuel),
        None => {
            let empty = Subst::new();
            eval(decls, prims, st, &empty, e, fuel)
        },
    }
}

fn reconcile(
    decls: &Vec<FunctionDecl>,
    prims: &Primitives,
    st: &mut State,
    fi: usize,
    vals: Vec<Value>,
    stored: Value,
    v: Value,
    fuel: usize,
) -> (r: Result<(), Error>)
    requires
        prims.indexed(),
        old(st).wf(),
        env_of(decls@, prims@).fits(old(st)@.tables),
        fi < old(st)@.tables.len(),
        args_fit(old(st)@.tables[fi as int].input, vals@),
        v.spec_fits(old(st)@.tables[fi as int].output),
    ensures
        final(st).wf(),
        final(st)@ == reconcile_spec(
            env_of(decls@, prims@),
            old(st)@,
            fi as int,
            vals@,
            stored,
            v,
            fuel as nat,
        ).0,
        same_outcome(
            r,
            reconcile_spec(
                env_of(decls@, prims@),
                old(st)@,
                fi as int,
                vals@,
                stored,
                v,
                fuel as nat,
            ).1,
        ),
        advances(old(st)@, final(st)@),
        env_of(decls@, prims@).fits(final(st)@.tables),
{
    match &decls[fi].merge {
        Some(m) => {
            let mut c = Subst::new();
            c.insert(Symbol::old_value(), stored);
            c.insert(Symbol::new_value(), v);
            match eval(decls, prims, st, &c, m, fuel) {
                Err(err) => Err(err),
                Ok(merged) => {
                    let ghost st1 = st@;
                    if !merged.fits(st.output(fi)) {
                        proof {
                            lemma_grows_advances(old(st)@, st1);
                        }
                        return Err(Error::Type(TypeError::BadOutput(decls[fi].name)));
                    }
                    assert(st1.tables[fi as int].input == old(st)@.tables[fi as int].input);
                    let _ = st.insert(fi, vals, merged);
                    proof {
                        lemma_with_row_advances(st1, fi as int, vals@, merged);
                    }
                    Ok(())
                },
            }
        },
        None => match st.output(fi) {
            Type::Unit => Ok(()),
            Type::Sort(_) => match merge_values(st, stored, v) {
                Err(err) => Err(err),
                Ok(_) => {
                    let ghost st1 = st@;
                    let _ = st.insert(fi, vals, v);
                    proof {
                        lemma_with_row_advances(st1, fi as int, vals@, v);
                        lemma_advances_trans(old(st)@, st1, st@);
                    }
                    Ok(())
                },
            },
            Type::NumType(_) => Err(Error::Type(TypeError::NoMerge(decls[fi].name))),
        },
    }
}

/// Runs one action. See [`eval_action_spec`].
pub fn eval_action(
    decls: &Vec<FunctionDecl>,
    prims: &Primitives,
    st: &mut State,
    ctx: &mut Option<Subst>,
    a: &Action,
    fuel: usize,
) -> (r: Result<(), Error>)
    requires
        prims.indexed(),
        old(st).wf(),
        env_of(decls@, prims@).fits(old(st)@.tables),
    ensures
        final(st).wf(),
        final(st)@ == eval_action_spec(
            env_of(decls@, prims@),
            old(st)@,
            ctx_view(*old(ctx)),
            *a,
            fuel as nat,
        ).0,
        ctx_view(*final(ctx)) == eval_action_spec(
            env_of(decls@, prims@),
            old(st)@,
            ctx_view(*old(ctx)),
            *a,
            fuel as nat,
        ).1,
        same_outcome(
            r,
            eval_action_spec(
                env_of(decls@, prims@),
                old(st)@,
                ctx_view(*old(ctx)),
                *a,
                fuel as nat,
            ).2,
        ),
        advances(old(st)@, final(st)@),
        env_of(decls@, prims@).fits(final(st)@.tables),
{
    match a {
        Action::Panic(msg) => Err(Error::UserPanic(msg.clone())),
        Action::Expr(e) => match eval_under(decls, prims, st, ctx, e, fuel) {
            Err(err) => Err(err),
            Ok(_) => Ok(()),
        },
        Action::Define(x, e) => match eval_under(decls, prims, st, ctx, e, fuel) {
            Err(err) => Err(err),
            Ok(v) => {
                match ctx {
                    Some(c) => {
                        c.insert(*x, v);
                    },
                    None => {
                        st.define_global(*x, v);
                    },
                }
                Ok(())
            },
        },
        Action::SetNode(f, args, e) => {
            let vals = match ctx {
                Some(c) => eval_args(decls, prims, st, c, args, fuel),
                None => {
                    let empty = Subst::new();
                    eval_args(decls, prims, st, &empty, args, fuel)
                },
            };
            let vals = match vals {
                Err(err) => {
                    return Err(err);
                },
                Ok(vals) => vals,
            };
            let ghost st1 = st@;
            let v = match eval_under(decls, prims, st, ctx, e, fuel) {
                Err(err) => {
                    proof {
                        lemma_grows_advances(old(st)@, st1);
                        lemma_grows_advances(st1, st@);
                        lemma_advances_trans(old(st)@, st1, st@);
                    }
                    return Err(err);
                },
                Ok(v) => v,
            };
            let ghost st2 = st@;
            proof {
                lemma_grows_advances(old(st)@, st1);
                lemma_grows_advances(st1, st2);
                lemma_advances_trans(old(st)@, st1, st2);
            }
            match st.find_function(*f) {
                None => Err(not_found(e)),
                Some(fi) => {
                    if !values_fit(st.input(fi), &vals) || !v.fits(st.output(fi)) {
                        return Err(Error::Type(TypeError::Mismatch));
                    }
                    match st.lookup(fi, &vals) {
                        None => {
                            let ghost key = vals@;
                            let _ = st.insert(fi, vals, v);
                            proof {
                                lemma_with_row_advances(st2, fi as int, key, v);
                                lemma_advances_trans(old(st)@, st2, st@);
                            }
                            Ok(())
                        },
                        Some(stored) => {
                            let r = reconcile(decls, prims, st, fi, vals, stored, v, fuel);
                            proof {
                                lemma_advances_trans(old(st)@, st2, st@);
                            }
                            r
                        },
                    }
                },
            }
        },
        Action::Union(x, y) => {
            let a = match eval_under(decls, prims, st, ctx, x, fuel) {
                Err(err) => {
                    return Err(err);
                },
                Ok(v) => v,
            };
            let ghost st1 = st@;
            let b = match eval_under(decls, prims, st, ctx, y, fuel) {
                Err(err) => {
                    proof {
                        lemma_grows_advances(old(st)@, st1);
                        lemma_grows_advances(st1, st@);
                        lemma_advances_trans(old(st)@, st1, st@);
                    }
                    return Err(err);
                },
                Ok(v) => v,
            };
            let ghost st2 = st@;
            proof {
                lemma_grows_advances(old(st)@, st1);
                lemma_grows_advances(st1, st2);
                lemma_advances_trans(old(st)@, st1, st2);
            }
            let r = merge_values(st, a, b);
            proof {
                lemma_advances_trans(old(st)@, st2, st@);
            }
            match r {
                Err(err) => Err(err),
                Ok(_) => Ok(()),
            }
        },
    }
}

/// A copy of a list of values.
pub fn copy_values(v: &Vec<Value>) -> (r: Vec<Value>)
    ensures
        r@ == v@,
{
    let mut out: Vec<Value> = Vec::new();
    let mut i: usize = 0;
    while i < v.len()
        invariant
            i <= v@.len(),
            out@ == v@.subrange(0, i as int),
        decreases v@.len() - i,
    {
        out.push(v[i]);
        assert(out@ =~= v@.subrange(0, i + 1));
        i += 1;
    }
    assert(out@ =~= v@);
    out
}

/// Runs the actions in order under the substitution `ctx`, or against the
/// globals where there is none; the first failure ends the sequence. See
/// [`eval_actions_spec`].
pub fn eval_actions(
    decls: &Vec<FunctionDecl>,
    prims: &Primitives,
    st: &mut State,
    ctx: Option<Subst>,
    actions: &[Action],
    fuel: usize,
) -> (r: Result<(), Error>)
    requires
        prims.indexed(),
        old(st).wf(),
        env_of(decls@, prims@).fits(old(st)@.tables),
    ensures
        final(st).wf(),
        final(st)@ == eval_actions_spec(
            env_of(decls@, prims@),
            old(st)@,
            ctx_view(ctx),
            actions@,
            0,
            fuel as nat,
        ).0,
        same_outcome(
            r,
            eval_actions_spec(
                env_of(decls@, prims@),
                old(st)@,
                ctx_view(ctx),
                actions@,
                0,
                fuel as nat,
            ).2,
        ),
        advances(old(st)@, final(st)@),
        env_of(decls@, prims@).fits(final(st)@.tables),
{
    let ghost env = env_of(decls@, prims@);
    let ghost ctx0 = ctx_view(ctx);
    let ghost goal = eval_actions_spec(env, old(st)@, ctx0, actions@, 0, fuel as nat);
    let mut cur = ctx;
    let mut i: usize = 0;
    while i < actions.len()
        invariant
            prims.indexed(),
            i <= actions@.len(),
            st.wf(),
            env == env_of(decls@, prims@),
            env.fits(st@.tables),
            ctx0 == ctx_view(ctx),
            goal == eval_actions_spec(env, old(st)@, ctx0, actions@, 0, fuel as nat),
            goal == eval_actions_spec(env, st@, ctx_view(cur), actions@, i as int, fuel as nat),
            advances(old(st)@, st@),
        decreases actions@.len() - i,
    {
        let ghost before = st@;
        match eval_action(decls, prims, st, &mut cur, &actions[i], fuel) {
            Err(err) => {
                proof {
                    lemma_advances_trans(old(st)@, before, st@);
                }
                return Err(err);
            },
            Ok(_) => {},
        }
        proof {
            lemma_advances_trans(old(st)@, before, st@);
        }
        i += 1;
    }
    Ok(())
}

/// The first of `vals[i..]` that differs from `vals[0]` fails the check.
pub open spec fn first_mismatch(vals: Seq<Value>, i: int) -> Result<(), Error>
    decreases vals.len() - i,
{
    if i < 1 || i >= vals.len() {
        Ok(())
    } else if vals[0] != vals[i] {
        Err(Error::CheckFailed(vals[0], vals[i]))
    } else {
        first_mismatch(vals, i + 1)
    }
}

/// The values with each class identifier replaced by its representative.
pub open spec fn canon_all(roots: Seq<int>, vals: Seq<Value>) -> Seq<Value> {
    Seq::new(vals.len(), |i: int| canon_value(roots, vals[i]))
}

/// The state and the outcome of a check.
///
/// An equality evaluates its expressions from left to right and passes
/// where all their representatives are the same value. A call passes
/// where its row exists in a function with unit output. A literal or a
/// variable alone is no fact. Evaluation may add rows and classes, as it
/// always may; a check merges nothing.
pub open spec fn check_spec(
    env: Env,
    st: StateModel,
    ctx: Map<Symbol, Value>,
    fact: Fact,
    fuel: nat,
) -> (StateModel, Result<(), Error>) {
    match fact {
        Fact::Eq(exprs) => {
            let (st1, r) = eval_args_spec(env, st, ctx, exprs@, 0, Seq::empty(), fuel);
            match r {
                Err(err) => (st1, Err(err)),
                Ok(vals) => (st1, first_mismatch(canon_all(st1.roots, vals), 1)),
            }
        },
        Fact::Fact(e) => match e {
            Expr::Call(f, args) => {
                let (st1, r) = eval_args_spec(env, st, ctx, args@, 0, Seq::empty(), fuel);
                match r {
                    Err(err) => (st1, Err(err)),
                    Ok(vals) => if !has_function(st1.tables, f) {
                        (st1, Err(Error::NotFound(NotFoundError(e))))
                    } else {
                        let fi = function_index(st1.tables, f);
                        match table_get(st1.tables[fi].rows, vals) {
                            None => (st1, Err(Error::NotFound(NotFoundError(e)))),
                            Some(_) => if st1.tables[fi].output is Unit {
                                (st1, Ok(()))
                            } else {
                                (st1, Err(Error::Type(TypeError::Mismatch)))
                            },
                        }
                    },
                }
            },
            _ => (st, Err(Error::IllegalFact)),
        },
    }
}

/// Checks a fact. See [`check_spec`].
pub fn check(
    decls: &Vec<FunctionDecl>,
    prims: &Primitives,
    st: &mut State,
    ctx: &Subst,
    fact: &Fact,
    fuel: usize,
) -> (r: Result<(), Error>)
    requires
        prims.indexed(),
        old(st).wf(),
        env_of(decls@, prims@).fits(old(st)@.tables),
    ensures
        final(st).wf(),
        final(st)@ == check_spec(env_of(decls@, prims@), old(st)@, ctx@, *fact, fuel as nat).0,
        same_outcome(r, check_spec(env_of(decls@, prims@), old(st)@, ctx@, *fact, fuel as nat).1),
        grows(old(st)@, final(st)@),
        env_of(decls@, prims@).fits(final(st)@.tables),
{
    match fact {
        Fact::Eq(exprs) => {
            let vals = match eval_args(decls, prims, st, ctx, exprs, fuel) {
                Err(err) => {
                    return Err(err);
                },
                Ok(vals) => vals,
            };
            if vals.len() == 0 {
                return Ok(());
            }
            let ghost canon = canon_all(st@.roots, vals@);
            let ghost goal = check_spec(env_of(decls@, prims@), old(st)@, ctx@, *fact, fuel as nat);
            let first = st.find_value(vals[0]);
            let mut i: usize = 1;
            while i < vals.len()
                invariant
                    prims.indexed(),
                    1 <= i <= vals@.len(),
                    st.wf(),
                    goal == check_spec(env_of(decls@, prims@), old(st)@, ctx@, *fact, fuel as nat),
                    goal.0 == st@,
                    goal.1 == first_mismatch(canon, 1),
                    grows(old(st)@, st@),
                    env_of(decls@, prims@).fits(st@.tables),
                    canon == canon_all(st@.roots, vals@),
                    first == canon[0],
                    first_mismatch(canon, 1) == first_mismatch(canon, i as int),
                decreases vals@.len() - i,
            {
                let v = st.find_value(vals[i]);
                if first != v {
                    return Err(Error::CheckFailed(first, v));
                }
                i += 1;
            }
            Ok(())
        },
        Fact::Fact(e) => match e {
            Expr::Call(f, args) => {
                let vals = match eval_args(decls, prims, st, ctx, args, fuel) {
                    Err(err) => {
                        return Err(err);
                    },
                    Ok(vals) => vals,
                };
                match st.find_function(*f) {
                    None => Err(not_found(e)),
                    Some(fi) => match st.lookup(fi, &vals) {
                        None => Err(not_found(e)),
                        Some(_) => match st.output(fi) {
                            Type::Unit => Ok(()),
                            _ => Err(Error::Type(TypeError::Mismatch)),
                        },
                    },
                }
            },
            _ => Err(Error::IllegalFact),
        },
    }
}

/// The state and the outcome of merging the values of `exprs[i..]` into
/// the class of `acc`, from left to right.
pub open spec fn union_exprs_from(
    env: Env,
    st: StateModel,
    ctx: Map<Symbol, Value>,
    exprs: Seq<Expr>,
    i: int,
    acc: Value,
    fuel: nat,
) -> (StateModel, Result<Value, Error>)
    decreases exprs.len() - i,
{
    if i < 0 || i >= exprs.len() {
        (st, Ok(acc))
    } else {
        let (st1, r) = eval_spec(env, st, ctx, exprs[i], fuel);
        match r {
            Err(err) => (st1, Err(err)),
            Ok(v) => {
                let (st2, r2) = union_values_spec(st1, acc, v);
                match r2 {
                    Err(err) => (st2, Err(err)),
                    Ok(m) => union_exprs_from(env, st2, ctx, exprs, i + 1, m, fuel),
                }
            },
        }
    }
}

/// The state and the outcome of evaluating all the expressions and merging
/// their classes; the value is the representative of the merged class.
pub open spec fn union_exprs_spec(
    env: Env,
    st: StateModel,
    ctx: Map<Symbol, Value>,
    exprs: Seq<Expr>,
    fuel: nat,
) -> (StateModel, Result<Value, Error>) {
    let (st1, r) = eval_spec(env, st, ctx, exprs[0], fuel);
    match r {
        Err(err) => (st1, Err(err)),
        Ok(v) => union_exprs_from(env, st1, ctx, exprs, 1, v, fuel),
    }
}

/// Evaluates the expressions, of which there is at least one, and merges
/// their classes. See [`union_exprs_spec`].
pub fn union_exprs(
    decls: &Vec<FunctionDecl>,
    prims: &Primitives,
    st: &mut State,
    ctx: &Subst,
    exprs: &[Expr],
    fuel: usize,
) -> (r: Result<Value, Error>)
    requires
        prims.indexed(),
        old(st).wf(),
        env_of(decls@, prims@).fits(old(st)@.tables),
        exprs@.len() > 0,
    ensures
        final(st).wf(),
        final(st)@ == union_exprs_spec(env_of(decls@, prims@), old(st)@, ctx@, exprs@, fuel as nat).0,
        same_outcome(
            r,
            union_exprs_spec(env_of(decls@, prims@), old(st)@, ctx@, exprs@, fuel as nat).1,
        ),
        advances(old(st)@, final(st)@),
        env_of(decls@, prims@).fits(final(st)@.tables),
{
    let ghost env = env_of(decls@, prims@);
    let ghost goal = union_exprs_spec(env, old(st)@, ctx@, exprs@, fuel as nat);
    let mut acc = match eval(decls, prims, st, ctx, &exprs[0], fuel) {
        Err(err) => {
            return Err(err);
        },
        Ok(v) => v,
    };
    proof {
        lemma_grows_advances(old(st)@, st@);
    }
    let mut i: usize = 1;
    while i < exprs.len()
        invariant
            prims.indexed(),
            1 <= i <= exprs@.len(),
            st.wf(),
            env == env_of(decls@, prims@),
            env.fits(st@.tables),
            goal == union_exprs_spec(env, old(st)@, ctx@, exprs@, fuel as nat),
            goal == union_exprs_from(env, st@, ctx@, exprs@, i as int, acc, fuel as nat),
            advances(old(st)@, st@),
        decreases exprs@.len() - i,
    {
        let ghost before = st@;
        let v = match eval(decls, prims, st, ctx, &exprs[i], fuel) {
            Err(err) => {
                proof {
                    lemma_grows_advances(before, st@);
                    lemma_advances_trans(old(st)@, before, st@);
                }
                return Err(err);
            },
            Ok(v) => v,
        };
        let ghost mid = st@;
        proof {
            lemma_grows_advances(before, mid);
            lemma_advances_trans(old(st)@, before, mid);
        }
        match merge_values(st, acc, v) {
            Err(err) => {
                proof {
                    lemma_advances_trans(old(st)@, mid, st@);
                }
                return Err(err);
            },
            Ok(m) => {
                acc = m;
            },
        }
        proof {
            lemma_advances_trans(old(st)@, mid, st@);
        }
        i += 1;
    }
    Ok(acc)
}

} // verus!
