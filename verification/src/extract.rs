//! Extraction of a term of least cost from a class.

use crate::ast::{node_count, node_count_all, Expr, Literal};
use crate::error::Error;
use crate::eval::{eval_args_spec, eval_spec};
use crate::function::{canon_args, has_key, key_row, keys_distinct, row_canonical, table_get, Row};
use crate::model::Env;
use crate::symbol::Symbol;
use crate::model::{function_index, has_function, lemma_function_index, StateModel};
use crate::state::State;
use crate::unionfind::{is_known_class, roots_wf};
use crate::value::{Id, Type, Value};
use vstd::prelude::*;

verus! {

/// The class of a class identifier that was handed out.
pub open spec fn class_of(roots: Seq<int>, v: Value) -> int {
    roots[v->Id_0.0 as int]
}

/// The value of an argument term at a position of type `ty`: at a sort
/// position the class of the term, at any other position the literal
/// itself. Nothing else is an argument of an extracted term.
pub open spec fn arg_value(st: StateModel, ty: Type, e: Expr) -> Option<Value>
    decreases e, 1int,
{
    if ty is Sort {
        match term_class(st, e) {
            Some(c) => Some(Value::Id(Id(c as usize))),
            None => None,
        }
    } else {
        match e {
            Expr::Lit(l) => Some(l.spec_to_value()),
            _ => None,
        }
    }
}

/// The key under which a call with these argument terms is found: the
/// value of each argument at its position.
pub open spec fn call_key(st: StateModel, input: Seq<Type>, args: Seq<Expr>) -> Seq<Value>
    decreases args, 2int,
{
    Seq::new(
        args.len(),
        |p: int|
            if 0 <= p < args.len() {
                arg_value(st, input[p], args[p])->Some_0
            } else {
                Value::Unit
            },
    )
}

/// The class that a term of constructors and literals belongs to, if it is
/// in the graph: every call in it is a row of a function with sort output,
/// found under the classes of its argument terms.
pub open spec fn term_class(st: StateModel, e: Expr) -> Option<int>
    decreases e, 0int,
{
    match e {
        Expr::Call(f, args) => {
            if has_function(st.tables, f) {
                let t = st.tables[function_index(st.tables, f)];
                if t.output is Sort && args@.len() == t.input.len() && (forall|p: int|
                    0 <= p < args@.len() ==> arg_value(st, t.input[p], #[trigger] args@[p]) is Some) {
                    match table_get(t.rows, call_key(st, t.input, args@)) {
                        Some(out) => if is_known_class(st.roots, out) {
                            Some(class_of(st.roots, out))
                        } else {
                            None
                        },
                        None => None,
                    }
                } else {
                    None
                }
            } else {
                None
            }
        },
        _ => None,
    }
}

/// What the extractor knows of a class: the least cost found so far, and
/// the row that gives it.
pub type Best = Option<(usize, usize, usize)>;

/// Whether row `r` of table `fi` can be the root of an extracted term:
/// the output is a known class of a sort, the arguments are as many as the
/// schema asks, each argument at a sort position is a known class, and no
/// other argument is a class.
pub open spec fn usable(st: StateModel, fi: int, r: int) -> bool {
    let t = st.tables[fi];
    let row = t.rows[r];
    &&& t.output is Sort
    &&& is_known_class(st.roots, row.1)
    &&& row.0.len() == t.input.len()
    &&& forall|p: int|
        0 <= p < row.0.len() ==> if t.input[p] is Sort {
            is_known_class(st.roots, #[trigger] row.0[p])
        } else {
            !(row.0[p] is Id)
        }
}

/// Whether every class among the first `n` arguments of the row has a
/// cost.
pub open spec fn args_known(st: StateModel, best: Seq<Best>, fi: int, r: int, n: int) -> bool {
    let t = st.tables[fi];
    forall|p: int|
        0 <= p < n && t.input[p] is Sort ==> best[class_of(st.roots, #[trigger] t.rows[r].0[p])] is Some
}

/// The costs of the classes among the first `n` arguments of the row,
/// added up.
pub open spec fn args_cost(st: StateModel, best: Seq<Best>, fi: int, r: int, n: int) -> int
    decreases n,
{
    if n <= 0 {
        0
    } else {
        let t = st.tables[fi];
        args_cost(st, best, fi, r, n - 1) + if t.input[n - 1] is Sort {
            best[class_of(st.roots, t.rows[r].0[n - 1])]->Some_0.0 as int
        } else {
            0
        }
    }
}

/// Whether the entry of class `c` is sound: it names a usable row of the
/// class whose argument classes all have costs, and the cost is at least
/// one more than theirs added up.
pub open spec fn entry_ok(st: StateModel, best: Seq<Best>, c: int) -> bool {
    best[c] matches Some((cost, fi, r)) ==> {
        &&& st.roots[c] == c
        &&& fi < st.tables.len()
        &&& r < st.tables[fi as int].rows.len()
        &&& usable(st, fi as int, r as int)
        &&& class_of(st.roots, st.tables[fi as int].rows[r as int].1) == c
        &&& args_known(st, best, fi as int, r as int, st.tables[fi as int].input.len() as int)
        &&& cost >= 1 + args_cost(
            st,
            best,
            fi as int,
            r as int,
            st.tables[fi as int].input.len() as int,
        )
        &&& cost < usize::MAX
    }
}

/// Whether every entry is sound.
pub open spec fn best_ok(st: StateModel, best: Seq<Best>) -> bool {
    &&& best.len() == st.roots.len()
    &&& forall|c: int| 0 <= c < best.len() ==> entry_ok(st, best, c)
}

/// Whether row `r` of table `fi` cannot improve any entry: where it is
/// usable, its argument classes have costs and one more than these added
/// up is below the largest cost there is, its class has an entry of at
/// most that cost.
pub open spec fn row_settled(st: StateModel, best: Seq<Best>, fi: int, r: int) -> bool {
    let t = st.tables[fi];
    let n = t.input.len() as int;
    (usable(st, fi, r) && args_known(st, best, fi, r, n) && 1 + args_cost(st, best, fi, r, n)
        < usize::MAX) ==> (best[class_of(st.roots, t.rows[r].1)] matches Some((cost, _, _)) && cost
        <= 1 + args_cost(st, best, fi, r, n))
}

/// Whether no row can improve any entry.
pub open spec fn all_settled(st: StateModel, best: Seq<Best>) -> bool {
    forall|fi: int, r: int|
        0 <= fi < st.tables.len() && 0 <= r < st.tables[fi].rows.len() ==> #[trigger] row_settled(
            st,
            best,
            fi,
            r,
        )
}

/// The number of classes without an entry.
pub open spec fn unset_count(best: Seq<Best>) -> nat
    decreases best.len(),
{
    if best.len() == 0 {
        0
    } else {
        unset_count(best.drop_last()) + if best.last() is None {
            1nat
        } else {
            0nat
        }
    }
}

/// The costs of all entries, added up.
pub open spec fn cost_total(best: Seq<Best>) -> nat
    decreases best.len(),
{
    if best.len() == 0 {
        0
    } else {
        cost_total(best.drop_last()) + match best.last() {
            Some((cost, _, _)) => cost as nat,
            None => 0nat,
        }
    }
}

/// Whether `b` is `a` with some entries added or lowered.
pub open spec fn improves(a: Seq<Best>, b: Seq<Best>) -> bool {
    &&& a.len() == b.len()
    &&& forall|c: int|
        0 <= c < a.len() ==> ((#[trigger] a[c]) matches Some((cost, _, _)) ==> (b[c] matches Some(
            (lower, _, _),
        ) && lower <= cost))
}

proof fn lemma_measure_update(best: Seq<Best>, c: int, e: (usize, usize, usize))
    requires
        0 <= c < best.len(),
        best[c] matches Some((cost, _, _)) ==> e.0 < cost,
    ensures
        best[c] is None ==> unset_count(best.update(c, Some(e))) + 1 == unset_count(best),
        best[c] is Some ==> unset_count(best.update(c, Some(e))) == unset_count(best)
            && cost_total(best.update(c, Some(e))) < cost_total(best),
    decreases best.len(),
{
    let b2 = best.update(c, Some(e));
    if c == best.len() - 1 {
        assert(b2.drop_last() =~= best.drop_last());
    } else {
        assert(b2.drop_last() =~= best.drop_last().update(c, Some(e)));
        lemma_measure_update(best.drop_last(), c, e);
    }
}

proof fn lemma_args_cost_improves(st: StateModel, a: Seq<Best>, b: Seq<Best>, fi: int, r: int, n: int)
    requires
        improves(a, b),
        args_known(st, a, fi, r, n),
        0 <= fi < st.tables.len(),
        0 <= r < st.tables[fi].rows.len(),
        usable(st, fi, r),
        roots_wf(st.roots),
        a.len() == st.roots.len(),
        0 <= n <= st.tables[fi].input.len(),
    ensures
        args_known(st, b, fi, r, n),
        args_cost(st, b, fi, r, n) <= args_cost(st, a, fi, r, n),
        args_cost(st, b, fi, r, n) >= 0,
    decreases n,
{
    if n > 0 {
        lemma_args_cost_improves(st, a, b, fi, r, n - 1);
        let t = st.tables[fi];
        if t.input[n - 1] is Sort {
            let v = t.rows[r].0[n - 1];
            assert(is_known_class(st.roots, v));
            let c = class_of(st.roots, v);
            assert(0 <= c < a.len());
            assert(a[c] is Some);
        }
        assert forall|p: int| 0 <= p < n && t.input[p] is Sort implies b[class_of(
            st.roots,
            #[trigger] t.rows[r].0[p],
        )] is Some by {
            let v = t.rows[r].0[p];
            assert(is_known_class(st.roots, v));
            let c = class_of(st.roots, v);
            assert(0 <= c < a.len());
            assert(a[c] is Some);
        }
    }
}

/// Sound entries stay sound when an entry is added or lowered by a row
/// that is usable and costs what its arguments cost and one more.
proof fn lemma_update_ok(st: StateModel, best: Seq<Best>, c: int, e: (usize, usize, usize))
    requires
        st.wf(),
        best_ok(st, best),
        0 <= c < best.len(),
        st.roots[c] == c,
        best[c] matches Some((cost, _, _)) ==> e.0 < cost,
        e.1 < st.tables.len(),
        e.2 < st.tables[e.1 as int].rows.len(),
        usable(st, e.1 as int, e.2 as int),
        class_of(st.roots, st.tables[e.1 as int].rows[e.2 as int].1) == c,
        args_known(st, best, e.1 as int, e.2 as int, st.tables[e.1 as int].input.len() as int),
        e.0 == 1 + args_cost(
            st,
            best,
            e.1 as int,
            e.2 as int,
            st.tables[e.1 as int].input.len() as int,
        ),
        e.0 < usize::MAX,
    ensures
        best_ok(st, best.update(c, Some(e))),
        improves(best, best.update(c, Some(e))),
{
    let b2 = best.update(c, Some(e));
    assert(improves(best, b2));
    assert forall|d: int| 0 <= d < b2.len() implies entry_ok(st, b2, d) by {
        if b2[d] is Some {
            let (cost, fi, r) = b2[d]->Some_0;
            if d == c {
                lemma_args_cost_improves(
                    st,
                    best,
                    b2,
                    fi as int,
                    r as int,
                    st.tables[fi as int].input.len() as int,
                );
            } else {
                assert(entry_ok(st, best, d));
                lemma_args_cost_improves(
                    st,
                    best,
                    b2,
                    fi as int,
                    r as int,
                    st.tables[fi as int].input.len() as int,
                );
            }
        }
    }
}

proof fn lemma_args_cost_mono(st: StateModel, best: Seq<Best>, fi: int, r: int, m: int, n: int)
    requires
        0 <= m <= n,
    ensures
        0 <= args_cost(st, best, fi, r, m) <= args_cost(st, best, fi, r, n),
    decreases n,
{
    if m < n {
        lemma_args_cost_mono(st, best, fi, r, m, n - 1);
    } else if n > 0 {
        lemma_args_cost_mono(st, best, fi, r, 0, n - 1);
    }
}

/// What row `r` of table `fi` offers: its cost and its class, where the
/// row is usable, its argument classes have costs, and the cost is below
/// the largest there is.
fn row_offer(st: &State, best: &Vec<Best>, fi: usize, r: usize) -> (o: Option<(usize, usize)>)
    requires
        st.wf(),
        best@.len() == st@.roots.len(),
        fi < st@.tables.len(),
        r < st@.tables[fi as int].rows.len(),
    ensures
        o is Some <==> (usable(st@, fi as int, r as int) && args_known(
            st@,
            best@,
            fi as int,
            r as int,
            st@.tables[fi as int].input.len() as int,
        ) && 1 + args_cost(
            st@,
            best@,
            fi as int,
            r as int,
            st@.tables[fi as int].input.len() as int,
        ) < usize::MAX),
        o matches Some((cost, c)) ==> cost == 1 + args_cost(
            st@,
            best@,
            fi as int,
            r as int,
            st@.tables[fi as int].input.len() as int,
        ) && c == class_of(st@.roots, st@.tables[fi as int].rows[r as int].1) && c < best@.len(),
{
    let f = st.function(fi);
    let ghost t = st@.tables[fi as int];
    let ghost row = t.rows[r as int];
    let ghost m = st@;
    proof {
        st.lemma_wf();
    }
    let n_ids = st.num_ids();
    if !f.output().is_sort() {
        return None;
    }
    let out = match f.row_value(r) {
        Value::Id(id) => id,
        _ => {
            return None;
        },
    };
    if out.0 >= n_ids {
        return None;
    }
    let args = f.row_args(r);
    let input = f.input();
    if args.len() != input.len() {
        return None;
    }
    let mut sum: usize = 0;
    let mut p: usize = 0;
    while p < args.len()
        invariant
            p <= args@.len(),
            st.wf(),
            m == st@,
            roots_wf(m.roots),
            n_ids == m.roots.len(),
            best@.len() == m.roots.len(),
            fi < m.tables.len(),
            r < m.tables[fi as int].rows.len(),
            t == m.tables[fi as int],
            row == t.rows[r as int],
            args@ == row.0,
            input@ == t.input,
            args@.len() == input@.len(),
            sum == args_cost(m, best@, fi as int, r as int, p as int),
            args_known(m, best@, fi as int, r as int, p as int),
            forall|x: int|
                0 <= x < p ==> if t.input[x] is Sort {
                    is_known_class(m.roots, #[trigger] row.0[x])
                } else {
                    !(row.0[x] is Id)
                },
        decreases args@.len() - p,
    {
        let v = args[p];
        if input[p].is_sort() {
            match v {
                Value::Id(a) => {
                    if a.0 >= n_ids {
                        assert(!is_known_class(m.roots, row.0[p as int]));
                        return None;
                    }
                    let c = st.find(a);
                    assert(0 <= m.roots[a.0 as int] <= a.0);
                    match best[c.0] {
                        None => {
                            proof {
                                assert(best@[class_of(m.roots, t.rows[r as int].0[p as int])] is None);
                            }
                            return None;
                        },
                        Some((cost, _, _)) => {
                            match sum.checked_add(cost) {
                                None => {
                                    proof {
                                        lemma_args_cost_mono(
                                            m,
                                            best@,
                                            fi as int,
                                            r as int,
                                            p + 1,
                                            t.input.len() as int,
                                        );
                                    }
                                    return None;
                                },
                                Some(s) => {
                                    sum = s;
                                },
                            }
                        },
                    }
                },
                _ => {
                    assert(!is_known_class(m.roots, row.0[p as int]));
                    return None;
                },
            }
        } else {
            match v {
                Value::Id(_) => {
                    assert(row.0[p as int] is Id);
                    return None;
                },
                _ => {},
            }
        }
        p += 1;
    }
    if sum >= usize::MAX - 1 {
        return None;
    }
    let c = st.find(out);
    assert(0 <= m.roots[out.0 as int] <= out.0);
    Some((sum + 1, c.0))
}

/// The measure by which the search for least costs ends has fallen: an
/// entry was added, or a cost fell.
pub open spec fn measure_lt(a: Seq<Best>, b: Seq<Best>) -> bool {
    unset_count(a) < unset_count(b) || (unset_count(a) == unset_count(b) && cost_total(a)
        < cost_total(b))
}

/// Whether the rows before row `r` of table `fi`, in the order of the
/// tables and of their rows, can improve no entry.
pub open spec fn settled_before(st: StateModel, best: Seq<Best>, fi: int, r: int) -> bool {
    forall|x: int, y: int|
        0 <= x < st.tables.len() && 0 <= y < st.tables[x].rows.len() && (x < fi || (x == fi && y
            < r)) ==> #[trigger] row_settled(st, best, x, y)
}

/// One pass over all rows: every row that offers a class a lower cost
/// than it has is recorded. Returns whether any was.
fn improve_pass(st: &State, best: &mut Vec<Best>) -> (changed: bool)
    requires
        st.wf(),
        best_ok(st@, old(best)@),
    ensures
        best_ok(st@, final(best)@),
        improves(old(best)@, final(best)@),
        changed ==> measure_lt(final(best)@, old(best)@),
        !changed ==> final(best)@ == old(best)@ && all_settled(st@, final(best)@),
{
    let mut changed = false;
    let mut fi: usize = 0;
    let ghost start = best@;
    proof {
        st.lemma_wf();
    }
    while fi < st.num_functions()
        invariant
            fi <= st@.tables.len(),
            st.wf(),
            st@.wf(),
            start == old(best)@,
            best_ok(st@, best@),
            improves(start, best@),
            changed ==> measure_lt(best@, start),
            !changed ==> best@ == start && settled_before(st@, best@, fi as int, 0),
        decreases st@.tables.len() - fi,
    {
        let f = st.function(fi);
        let rows = f.len();
        let mut r: usize = 0;
        while r < rows
            invariant
                fi < st@.tables.len(),
                r <= rows,
                rows == st@.tables[fi as int].rows.len(),
                st.wf(),
                st@.wf(),
                start == old(best)@,
                best_ok(st@, best@),
                improves(start, best@),
                changed ==> measure_lt(best@, start),
                !changed ==> best@ == start && settled_before(st@, best@, fi as int, r as int),
            decreases rows - r,
        {
            let ghost before = best@;
            match row_offer(st, best, fi, r) {
                None => {},
                Some((cost, c)) => {
                    let better = match best[c] {
                        None => true,
                        Some((known, _, _)) => cost < known,
                    };
                    if better {
                        proof {
                            let out = st@.tables[fi as int].rows[r as int].1;
                            assert(is_known_class(st@.roots, out));
                            assert(st@.roots[st@.roots[out->Id_0.0 as int]] == st@.roots[out->Id_0.0 as int]);
                            lemma_update_ok(st@, before, c as int, (cost, fi, r));
                            lemma_measure_update(before, c as int, (cost, fi, r));
                        }
                        best.set(c, Some((cost, fi, r)));
                        changed = true;
                        proof {
                            assert(improves(start, best@)) by {
                                assert forall|d: int| 0 <= d < start.len() implies ((
                                #[trigger] start[d]) matches Some((x, _, _)) ==> (best@[d] matches Some(
                                    (lower, _, _),
                                ) && lower <= x)) by {
                                    if start[d] is Some {
                                        assert(before[d] is Some);
                                    }
                                }
                            }
                        }
                    }
                },
            }
            proof {
                if !changed {
                    assert(row_settled(st@, best@, fi as int, r as int));
                    assert(settled_before(st@, best@, fi as int, r + 1)) by {
                        assert forall|x: int, y: int|
                            0 <= x < st@.tables.len() && 0 <= y < st@.tables[x].rows.len() && (x
                                < fi || (x == fi && y < r + 1)) implies #[trigger] row_settled(
                            st@,
                            best@,
                            x,
                            y,
                        ) by {
                            if x == fi && y == r {
                            } else {
                                assert(x < fi || (x == fi && y < r));
                            }
                        }
                    }
                }
            }
            r += 1;
        }
        proof {
            if !changed {
                assert(settled_before(st@, best@, fi + 1, 0)) by {
                    assert forall|x: int, y: int|
                        0 <= x < st@.tables.len() && 0 <= y < st@.tables[x].rows.len() && (x < fi
                            + 1 || (x == fi + 1 && y < 0)) implies #[trigger] row_settled(
                        st@,
                        best@,
                        x,
                        y,
                    ) by {
                        assert(x < fi || (x == fi && y < rows));
                    }
                }
            }
        }
        fi += 1;
    }
    changed
}

/// The least costs of all classes: entries that are sound and that no row
/// can improve.
fn least_costs(st: &State) -> (best: Vec<Best>)
    requires
        st.wf(),
    ensures
        best_ok(st@, best@),
        all_settled(st@, best@),
{
    let mut best: Vec<Best> = Vec::new();
    let n = st.num_ids();
    let mut k: usize = 0;
    while k < n
        invariant
            k <= n,
            best@.len() == k,
            forall|c: int| 0 <= c < k ==> (#[trigger] best@[c]) is None,
        decreases n - k,
    {
        best.push(None);
        k += 1;
    }
    loop
        invariant
            st.wf(),
            best_ok(st@, best@),
        ensures
            best_ok(st@, best@),
            all_settled(st@, best@),
        decreases unset_count(best@), cost_total(best@),
    {
        let changed = improve_pass(st, &mut best);
        if !changed {
            break;
        }
    }
    best
}

/// The operator applications in the first `n` expressions.
pub open spec fn prefix_count(s: Seq<Expr>, n: int) -> nat
    decreases n,
{
    if n <= 0 {
        0
    } else {
        prefix_count(s, n - 1) + node_count(s[n - 1])
    }
}

proof fn lemma_count_split(s: Seq<Expr>, i: int)
    requires
        0 <= i <= s.len(),
    ensures
        prefix_count(s, i) + node_count_all(s, i) == prefix_count(s, s.len() as int),
    decreases s.len() - i,
{
    if i < s.len() {
        lemma_count_split(s, i + 1);
    }
}

/// The class of a term in the graph is a representative that was handed
/// out.
pub proof fn lemma_term_class_known(st: StateModel, e: Expr)
    requires
        roots_wf(st.roots),
        term_class(st, e) is Some,
    ensures
        0 <= term_class(st, e)->Some_0 < st.roots.len(),
        term_class(st, e)->Some_0 <= usize::MAX,
        st.roots[term_class(st, e)->Some_0] == term_class(st, e)->Some_0,
{
    match e {
        Expr::Call(f, args) => {
            let t = st.tables[function_index(st.tables, f)];
            let key = call_key(st, t.input, args@);
            let out = table_get(t.rows, key)->Some_0;
            let o = out->Id_0.0 as int;
            assert(0 <= st.roots[o] <= o && st.roots[st.roots[o]] == st.roots[o]);
        },
        _ => {},
    }
}

proof fn lemma_args_bound(
    st: StateModel,
    best: Seq<Best>,
    args: Seq<Expr>,
    fi: int,
    r: int,
    n: int,
)
    requires
        roots_wf(st.roots),
        best.len() == st.roots.len(),
        0 <= fi < st.tables.len(),
        0 <= r < st.tables[fi].rows.len(),
        0 <= n <= args.len(),
        args.len() == st.tables[fi].input.len(),
        st.tables[fi].rows[r].0.len() == args.len(),
        forall|p: int|
            0 <= p < args.len() && st.tables[fi].input[p] is Sort ==> {
                &&& term_class(st, #[trigger] args[p]) matches Some(c)
                &&& st.tables[fi].rows[r].0[p] == Value::Id(Id(c as usize))
                &&& 0 <= c < st.roots.len() && c <= usize::MAX && st.roots[c] == c
                &&& best[c] matches Some((cost, _, _))
                &&& cost <= node_count(args[p])
            },
    ensures
        args_known(st, best, fi, r, n),
        0 <= args_cost(st, best, fi, r, n) <= prefix_count(args, n),
    decreases n,
{
    if n > 0 {
        lemma_args_bound(st, best, args, fi, r, n - 1);
        let t = st.tables[fi];
        assert forall|p: int| 0 <= p < n && t.input[p] is Sort implies best[class_of(
            st.roots,
            #[trigger] t.rows[r].0[p],
        )] is Some by {
            let c = term_class(st, args[p])->Some_0;
            assert(t.rows[r].0[p] == Value::Id(Id(c as usize)));
        }
        if t.input[n - 1] is Sort {
            let c = term_class(st, args[n - 1])->Some_0;
            assert(t.rows[r].0[n - 1] == Value::Id(Id(c as usize)));
        }
    }
}

/// No term of a class is smaller than the cost that the settled entries
/// give to the class: every term of fewer operator applications than the
/// largest cost there is finds its class with an entry of at most its
/// size.
pub proof fn lemma_least(st: StateModel, best: Seq<Best>, e: Expr)
    requires
        st.wf(),
        best_ok(st, best),
        all_settled(st, best),
        term_class(st, e) is Some,
        node_count(e) < usize::MAX,
    ensures
        best[term_class(st, e)->Some_0] matches Some((cost, _, _)) && cost <= node_count(e),
    decreases e,
{
    lemma_term_class_known(st, e);
    match e {
        Expr::Call(f, args) => {
            let fi = function_index(st.tables, f);
            let t = st.tables[fi];
            let key = call_key(st, t.input, args@);
            assert(has_key(t.rows, key));
            let r = key_row(t.rows, key);
            let row = t.rows[r];
            assert(row.0 == key);
            lemma_count_split(args@, 0);
            assert forall|p: int| 0 <= p < args@.len() && t.input[p] is Sort implies {
                &&& term_class(st, #[trigger] args@[p]) matches Some(c)
                &&& row.0[p] == Value::Id(Id(c as usize))
                &&& 0 <= c < st.roots.len() && c <= usize::MAX && st.roots[c] == c
                &&& best[c] matches Some((cost, _, _))
                &&& cost <= node_count(args@[p])
            } by {
                assert(arg_value(st, t.input[p], args@[p]) is Some);
                lemma_term_class_known(st, args@[p]);
                lemma_count_le(args@, p);
                lemma_least(st, best, args@[p]);
            }
            lemma_args_bound(st, best, args@, fi, r, args@.len() as int);
            assert(usable(st, fi, r)) by {
                assert forall|p: int| 0 <= p < row.0.len() implies if t.input[p] is Sort {
                    is_known_class(st.roots, #[trigger] row.0[p])
                } else {
                    !(row.0[p] is Id)
                } by {
                    assert(arg_value(st, t.input[p], args@[p]) is Some);
                    if t.input[p] is Sort {
                        lemma_term_class_known(st, args@[p]);
                    }
                }
            }
            assert(row_settled(st, best, fi, r));
        },
        _ => {},
    }
}

proof fn lemma_count_le(s: Seq<Expr>, p: int)
    requires
        0 <= p < s.len(),
    ensures
        node_count(s[p]) <= prefix_count(s, s.len() as int),
    decreases s.len(),
{
    lemma_prefix_mono(s, p + 1, s.len() as int);
}

proof fn lemma_prefix_mono(s: Seq<Expr>, m: int, n: int)
    requires
        0 <= m <= n,
    ensures
        prefix_count(s, m) <= prefix_count(s, n),
    decreases n,
{
    if m < n {
        lemma_prefix_mono(s, m, n - 1);
    }
}

proof fn lemma_prefix_push(s: Seq<Expr>, x: Expr, n: int)
    requires
        0 <= n <= s.len(),
    ensures
        prefix_count(s.push(x), n) == prefix_count(s, n),
    decreases n,
{
    if n > 0 {
        lemma_prefix_push(s, x, n - 1);
        assert(s.push(x)[n - 1] == s[n - 1]);
    }
}

/// A row is found under its own key.
pub proof fn lemma_row_found(rows: Seq<Row>, r: int)
    requires
        keys_distinct(rows),
        0 <= r < rows.len(),
    ensures
        table_get(rows, rows[r].0) == Some(rows[r].1),
{
    let k = rows[r].0;
    assert(has_key(rows, k));
    let j = key_row(rows, k);
    if j < r {
        assert(rows[j].0 != rows[r].0);
    } else if r < j {
        assert(rows[r].0 != rows[j].0);
    }
}

/// The literal of a value that is no class.
fn literal_of(v: Value) -> (l: Literal)
    requires
        !(v is Id),
    ensures
        l.spec_to_value() == v,
{
    match v {
        Value::Int(i) => Literal::Int(i),
        Value::Rational(q) => Literal::Rational(q),
        _ => Literal::Unit,
    }
}

/// The term that the entries give to class `c`: its row, with each
/// argument class replaced by its own term.
fn build(st: &State, best: &Vec<Best>, c: usize) -> (e: Expr)
    requires
        st.wf(),
        st@.canonical(),
        best_ok(st@, best@),
        all_settled(st@, best@),
        c < best@.len(),
        best@[c as int] is Some,
    ensures
        term_class(st@, e) == Some(c as int),
        node_count(e) == best@[c as int]->Some_0.0,
    decreases best@[c as int]->Some_0.0,
{
    let ghost m = st@;
    proof {
        st.lemma_wf();
        assert(entry_ok(m, best@, c as int));
    }
    let (cost, fi, r) = match best[c] {
        Some(entry) => entry,
        None => (0, 0, 0),
    };
    let f = st.function(fi);
    let args = f.row_args(r);
    let input = f.input();
    let ghost t = m.tables[fi as int];
    let ghost row = t.rows[r as int];
    let ghost n = t.input.len() as int;
    proof {
        assert(t.canonical(m.roots));
        assert(row_canonical(m.roots, t.input, t.output, row));
        assert(row_settled(m, best@, fi as int, r as int));
    }
    let mut children: Vec<Expr> = Vec::new();
    let mut p: usize = 0;
    while p < args.len()
        invariant
            p <= args@.len(),
            st.wf(),
            m == st@,
            m.wf(),
            m.canonical(),
            best_ok(m, best@),
            all_settled(m, best@),
            c < best@.len(),
            best@[c as int] == Some((cost, fi, r)),
            fi < m.tables.len(),
            r < t.rows.len(),
            t == m.tables[fi as int],
            row == t.rows[r as int],
            n == t.input.len(),
            args@ == row.0,
            input@ == t.input,
            args@.len() == n,
            usable(m, fi as int, r as int),
            args_known(m, best@, fi as int, r as int, n),
            cost >= 1 + args_cost(m, best@, fi as int, r as int, n),
            canon_args(m.roots, t.input, row.0) == row.0,
            children@.len() == p,
            forall|x: int|
                0 <= x < p ==> arg_value(m, t.input[x], #[trigger] children@[x]) == Some(row.0[x]),
            prefix_count(children@, p as int) == args_cost(m, best@, fi as int, r as int, p as int),
        decreases args@.len() - p,
    {
        let v = args[p];
        let ghost kids = children@;
        let child = if input[p].is_sort() {
            let a = match v {
                Value::Id(a) => a,
                _ => Id(0),
            };
            proof {
                assert(is_known_class(m.roots, row.0[p as int]));
                assert(canon_args(m.roots, t.input, row.0)[p as int] == row.0[p as int]);
                assert(m.roots[a.0 as int] == a.0);
                assert(best@[class_of(m.roots, t.rows[r as int].0[p as int])] is Some);
                lemma_args_cost_mono(m, best@, fi as int, r as int, p + 1, n);
                lemma_args_cost_mono(m, best@, fi as int, r as int, p as int, p as int);
            }
            build(st, best, a.0)
        } else {
            assert(!(row.0[p as int] is Id));
            Expr::Lit(literal_of(v))
        };
        children.push(child);
        proof {
            lemma_prefix_push(kids, child, p as int);
            assert(children@[p as int] == child);
            assert forall|x: int| 0 <= x < p + 1 implies arg_value(
                m,
                t.input[x],
                #[trigger] children@[x],
            ) == Some(row.0[x]) by {
                if x < p {
                    assert(children@[x] == kids[x]);
                }
            }
        }
        p += 1;
    }
    let name = f.name();
    let ghost kids = children@;
    let e = Expr::Call(name, children);
    proof {
        lemma_function_index(m.tables, fi as int);
        assert(call_key(m, t.input, kids) =~= row.0);
        lemma_row_found(t.rows, r as int);
        lemma_count_split(kids, 0);
        assert(node_count(e) == 1 + node_count_all(kids, 0));
    }
    e
}

proof fn lemma_args_eval(
    env: Env,
    st: StateModel,
    ctx: Map<Symbol, Value>,
    args: Seq<Expr>,
    key: Seq<Value>,
    i: int,
    acc: Seq<Value>,
    fuel: nat,
)
    requires
        key.len() == args.len(),
        0 <= i <= args.len(),
        acc == key.subrange(0, i),
        forall|p: int|
            0 <= p < args.len() ==> eval_spec(env, st, ctx, #[trigger] args[p], fuel) == (
                st,
                Ok::<Value, Error>(key[p]),
            ),
    ensures
        eval_args_spec(env, st, ctx, args, i, acc, fuel) == (st, Ok::<Seq<Value>, Error>(key)),
    decreases args.len() - i,
{
    if i < args.len() {
        assert(acc.push(key[i]) =~= key.subrange(0, i + 1));
        lemma_args_eval(env, st, ctx, args, key, i + 1, acc.push(key[i]), fuel);
    } else {
        assert(acc =~= key);
    }
}

/// A term that is in a canonical graph evaluates to its class, and the
/// evaluation changes nothing.
pub proof fn lemma_term_eval(env: Env, st: StateModel, ctx: Map<Symbol, Value>, e: Expr, fuel: nat)
    requires
        st.wf(),
        st.canonical(),
        term_class(st, e) is Some,
    ensures
        eval_spec(env, st, ctx, e, fuel) == (
            st,
            Ok::<Value, Error>(Value::Id(Id(term_class(st, e)->Some_0 as usize))),
        ),
    decreases e,
{
    lemma_term_class_known(st, e);
    match e {
        Expr::Call(f, args) => {
            let fi = function_index(st.tables, f);
            let t = st.tables[fi];
            let key = call_key(st, t.input, args@);
            assert forall|p: int| 0 <= p < args@.len() implies eval_spec(
                env,
                st,
                ctx,
                #[trigger] args@[p],
                fuel,
            ) == (st, Ok::<Value, Error>(key[p])) by {
                assert(arg_value(st, t.input[p], args@[p]) is Some);
                if t.input[p] is Sort {
                    lemma_term_eval(env, st, ctx, args@[p], fuel);
                }
            }
            assert(Seq::<Value>::empty() =~= key.subrange(0, 0));
            lemma_args_eval(env, st, ctx, args@, key, 0, Seq::empty(), fuel);
            assert(has_key(t.rows, key));
            let r = key_row(t.rows, key);
            assert(t.canonical(st.roots));
            assert(row_canonical(st.roots, t.input, t.output, t.rows[r]));
        },
        _ => {},
    }
}

/// Extracts a term of least cost from the class of `id`, where every
/// operator application costs one.
///
/// The term is in the graph and belongs to the class, the cost is the
/// number of its operator applications, and no term of the class has
/// fewer. Nothing can be extracted from an identifier that was not handed
/// out, nor from a class that has no term of fewer operator applications
/// than the largest cost there is.
pub fn extract(st: &State, id: Id) -> (r: Result<(usize, Expr), Error>)
    requires
        st.wf(),
        st@.canonical(),
    ensures
        match r {
            Ok((cost, term)) => {
                &&& id.0 < st@.roots.len()
                &&& term_class(st@, term) == Some(st@.roots[id.0 as int])
                &&& cost == node_count(term)
                &&& cost < usize::MAX
                &&& forall|other: Expr|
                    #[trigger] term_class(st@, other) == Some(st@.roots[id.0 as int]) ==> cost
                        <= node_count(other)
            },
            Err(e) => {
                &&& e == Error::Unextractable(id)
                &&& id.0 < st@.roots.len() ==> forall|other: Expr|
                    #[trigger] term_class(st@, other) == Some(st@.roots[id.0 as int])
                        ==> node_count(other) >= usize::MAX
            },
        },
{
    if id.0 >= st.num_ids() {
        return Err(Error::Unextractable(id));
    }
    let best = least_costs(st);
    let c = st.find(id).0;
    proof {
        st.lemma_wf();
        assert(0 <= st@.roots[id.0 as int] <= id.0);
        assert forall|other: Expr|
            #[trigger] term_class(st@, other) == Some(c as int) && node_count(other)
                < usize::MAX implies (best@[c as int] matches Some((cost, _, _)) && cost
            <= node_count(other)) by {
            lemma_least(st@, best@, other);
        }
    }
    match best[c] {
        None => Err(Error::Unextractable(id)),
        Some((cost, _, _)) => {
            let term = build(st, &best, c);
            assert(entry_ok(st@, best@, c as int));
            Ok((cost, term))
        },
    }
}

} // verus!
