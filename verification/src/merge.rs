//! Evaluation of merge expressions without the tables: literals, the two
//! variables of a merge, and primitives.

use crate::ast::Expr;
use crate::error::{not_found, same_outcome, Error, NotFoundError};
use crate::eval::{count_matches, first_match, lemma_count_one};
use crate::primitive::{handles_known, prim_result, Primitive, Primitives};
use crate::rational::RationalPool;
use crate::subst::Subst;
use crate::symbol::Symbol;
use crate::value::Value;
use vstd::prelude::*;

verus! {

/// The substitution of a merge expression: `old` is the stored value, `new`
/// the incoming one.
pub open spec fn merge_ctx(stored: Value, incoming: Value) -> Map<Symbol, Value> {
    Map::<Symbol, Value>::empty().insert(Symbol::spec_old_value(), stored).insert(
        Symbol::spec_new_value(),
        incoming,
    )
}

/// What reconciling two rows of a function needs: the name of the
/// function, its merge expression, and the primitives.
pub struct Merger {
    pub name: Symbol,
    pub merge: Option<Expr>,
    pub prims: Seq<Primitive>,
}

/// The application of the primitive operator `op` to values, on the pool
/// alone: the one implementation that takes the values is applied. Where
/// none takes them, or a rational among them is no handle of the pool, the
/// expression is not found; where several take them, the operator is
/// ambiguous.
pub open spec fn dispatch_spec(
    prims: Seq<Primitive>,
    pool: Seq<(int, int)>,
    op: Symbol,
    vals: Seq<Value>,
    e: Expr,
) -> (Seq<(int, int)>, Result<Value, Error>) {
    let n = count_matches(prims, op, vals, prims.len() as int);
    if n == 0 {
        (pool, Err(Error::NotFound(NotFoundError(e))))
    } else if n > 1 {
        (pool, Err(Error::PrimitiveAmbiguity(op)))
    } else if !handles_known(pool, vals) {
        (pool, Err(Error::NotFound(NotFoundError(e))))
    } else {
        let p = prims[first_match(prims, op, vals)];
        let (after, v) = prim_result(p.spec_op(), pool, vals);
        (after, Ok(v))
    }
}

/// The pool and the value that evaluating `e` under `ctx` gives where no
/// table may be read: a variable must be bound in `ctx`, and every call
/// must be a call of a primitive.
pub open spec fn pure_eval_spec(
    prims: Seq<Primitive>,
    pool: Seq<(int, int)>,
    ctx: Map<Symbol, Value>,
    e: Expr,
) -> (Seq<(int, int)>, Result<Value, Error>)
    decreases e,
{
    match e {
        Expr::Var(v) => if ctx.contains_key(v) {
            (pool, Ok(ctx[v]))
        } else {
            (pool, Err(Error::NotFound(NotFoundError(e))))
        },
        Expr::Lit(l) => (pool, Ok(l.spec_to_value())),
        Expr::Call(op, args) => {
            let (pool1, r) = pure_args_spec(prims, pool, ctx, args@, 0, Seq::empty());
            match r {
                Err(err) => (pool1, Err(err)),
                Ok(vals) => dispatch_spec(prims, pool1, op, vals, e),
            }
        },
    }
}

/// The pool and the values that evaluating `args[i..]` from left to right
/// gives, after `acc`; the first failure ends it.
pub open spec fn pure_args_spec(
    prims: Seq<Primitive>,
    pool: Seq<(int, int)>,
    ctx: Map<Symbol, Value>,
    args: Seq<Expr>,
    i: int,
    acc: Seq<Value>,
) -> (Seq<(int, int)>, Result<Seq<Value>, Error>)
    decreases args, args.len() - i,
{
    if i < 0 || i >= args.len() {
        (pool, Ok(acc))
    } else {
        let (pool1, r) = pure_eval_spec(prims, pool, ctx, args[i]);
        match r {
            Err(err) => (pool1, Err(err)),
            Ok(v) => pure_args_spec(prims, pool1, ctx, args, i + 1, acc.push(v)),
        }
    }
}

/// Every primitive is well formed.
pub open spec fn prims_wf(prims: Seq<Primitive>) -> bool {
    forall|i: int| 0 <= i < prims.len() ==> (#[trigger] prims[i]).wf()
}

fn handles_in(pool: &RationalPool, values: &Vec<Value>) -> (b: bool)
    ensures
        b == handles_known(pool@, values@),
{
    let n = pool.len();
    let mut i: usize = 0;
    while i < values.len()
        invariant
            i <= values@.len(),
            n == pool@.len(),
            forall|k: int|
                0 <= k < i ==> ((#[trigger] values@[k]) matches Value::Rational(r) ==> r.0
                    < pool@.len()),
        decreases values@.len() - i,
    {
        match values[i] {
            Value::Rational(r) => {
                if r.0 >= n {
                    return false;
                }
            },
            _ => {},
        }
        i += 1;
    }
    true
}

/// Applies the primitive operator `op` to the values. See
/// [`dispatch_spec`].
pub fn dispatch(
    prims: &Primitives,
    pool: &mut RationalPool,
    op: Symbol,
    vals: &Vec<Value>,
    e: &Expr,
) -> (r: Result<Value, Error>)
    requires
        prims.indexed(),
        old(pool).wf(),
        prims_wf(prims@),
    ensures
        final(pool).wf(),
        final(pool)@ == dispatch_spec(prims@, old(pool)@, op, vals@, *e).0,
        same_outcome(r, dispatch_spec(prims@, old(pool)@, op, vals@, *e).1),
{
    let (count, found) = prims.select(op, vals);
    if count == 0 {
        Err(not_found(e))
    } else if count > 1 {
        Err(Error::PrimitiveAmbiguity(op))
    } else if !handles_in(pool, vals) {
        Err(not_found(e))
    } else {
        proof {
            let k = first_match(prims@, op, vals@);
            lemma_count_one(prims@, op, vals@, prims@.len() as int, found as int, k);
            assert(prims@[found as int].wf());
        }
        let v = prims.get(found).apply(vals.as_slice(), pool);
        Ok(v)
    }
}

/// Evaluates `e` under `ctx` without reading any table. See
/// [`pure_eval_spec`].
pub fn pure_eval(prims: &Primitives, pool: &mut RationalPool, ctx: &Subst, e: &Expr) -> (r:
    Result<Value, Error>)
    requires
        prims.indexed(),
        old(pool).wf(),
        prims_wf(prims@),
    ensures
        final(pool).wf(),
        final(pool)@ == pure_eval_spec(prims@, old(pool)@, ctx@, *e).0,
        same_outcome(r, pure_eval_spec(prims@, old(pool)@, ctx@, *e).1),
    decreases e,
{
    match e {
        Expr::Var(v) => match ctx.get(*v) {
            Some(x) => Ok(x),
            None => Err(not_found(e)),
        },
        Expr::Lit(l) => Ok(l.to_value()),
        Expr::Call(op, args) => {
            let ghost goal = pure_args_spec(prims@, old(pool)@, ctx@, args@, 0, Seq::empty());
            let mut vals: Vec<Value> = Vec::new();
            let mut i: usize = 0;
            while i < args.len()
                invariant
                    prims.indexed(),
                    i <= args@.len(),
                    pool.wf(),
                    prims_wf(prims@),
                    *e matches Expr::Call(_, a) && a == *args,
                    goal == pure_args_spec(prims@, old(pool)@, ctx@, args@, 0, Seq::empty()),
                    goal == pure_args_spec(prims@, pool@, ctx@, args@, i as int, vals@),
                decreases args@.len() - i,
            {
                match pure_eval(prims, pool, ctx, &args[i]) {
                    Err(err) => {
                        return Err(err);
                    },
                    Ok(v) => {
                        vals.push(v);
                    },
                }
                i += 1;
            }
            dispatch(prims, pool, *op, &vals, e)
        },
    }
}

} // verus!
