//! The join engine: generic join of the atoms of a query, one variable at
//! a time.

use crate::function::{has_key, key_row, keys_distinct, table_get, Row};
use crate::model::{function_index, has_function, TableModel};
use crate::query::{Atom, AtomModel, AtomTerm, Query, QueryModel};
use crate::state::State;
use crate::value::Value;
use vstd::prelude::*;

verus! {

/// The values that an assignment gives to the terms of an atom.
pub open spec fn instantiate(terms: Seq<AtomTerm>, sigma: Seq<Value>) -> Seq<Value> {
    Seq::new(
        terms.len(),
        |k: int|
            match terms[k] {
                AtomTerm::Var(v) => sigma[v as int],
                AtomTerm::Value(x) => x,
            },
    )
}

/// A row as one tuple: the arguments, then the output.
pub open spec fn row_tuple(row: Row) -> Seq<Value> {
    row.0.push(row.1)
}

/// Whether a tuple agrees with the terms of an atom as far as `beta`
/// binds them: constants must be equal, and so must the variables whose
/// index is below the length of `beta`.
pub open spec fn partial_match(terms: Seq<AtomTerm>, tuple: Seq<Value>, beta: Seq<Value>) -> bool {
    &&& tuple.len() == terms.len()
    &&& forall|p: int|
        0 <= p < terms.len() ==> match #[trigger] terms[p] {
            AtomTerm::Value(x) => tuple[p] == x,
            AtomTerm::Var(v) => v < beta.len() ==> tuple[p] == beta[v as int],
        }
}

/// The rows of the table that an atom speaks of; none where no table has
/// its name.
pub open spec fn atom_rows(tables: Seq<TableModel>, atom: AtomModel) -> Seq<Row> {
    if has_function(tables, atom.0) {
        tables[function_index(tables, atom.0)].rows
    } else {
        Seq::empty()
    }
}

/// Whether some row of the atom's table agrees with the atom as far as
/// `beta` binds it.
pub open spec fn atom_supported(tables: Seq<TableModel>, atom: AtomModel, beta: Seq<Value>) -> bool {
    exists|r: int|
        0 <= r < atom_rows(tables, atom).len() && partial_match(
            atom.1,
            row_tuple(#[trigger] atom_rows(tables, atom)[r]),
            beta,
        )
}

/// Whether every atom of the query is supported as far as `beta` binds
/// it.
pub open spec fn all_supported(tables: Seq<TableModel>, q: QueryModel, beta: Seq<Value>) -> bool {
    forall|a: int| 0 <= a < q.atoms.len() ==> atom_supported(tables, #[trigger] q.atoms[a], beta)
}

/// Whether the atom holds under the assignment: the row of its arguments
/// exists and has its output.
pub open spec fn atom_holds(tables: Seq<TableModel>, atom: AtomModel, sigma: Seq<Value>) -> bool {
    exists|r: int|
        0 <= r < atom_rows(tables, atom).len() && row_tuple(#[trigger] atom_rows(tables, atom)[r])
            == instantiate(atom.1, sigma)
}

/// Whether `sigma` is a solution of the query: it gives a value to each
/// variable index, every variable index occurs in some atom, and every
/// atom holds.
pub open spec fn is_solution(tables: Seq<TableModel>, q: QueryModel, sigma: Seq<Value>) -> bool {
    &&& q.anchored()
    &&& sigma.len() == q.num_vars
    &&& forall|a: int| 0 <= a < q.atoms.len() ==> atom_holds(tables, #[trigger] q.atoms[a], sigma)
}

/// The first atom at or after `a` that mentions variable `v`; the number
/// of atoms where none does.
pub open spec fn first_atom(q: QueryModel, v: int, a: int) -> int
    decreases q.atoms.len() - a,
{
    if a < 0 || a >= q.atoms.len() {
        q.atoms.len() as int
    } else if q.mentions(a, v) {
        a
    } else {
        first_atom(q, v, a + 1)
    }
}

/// The first position at or after `p` at which the terms hold variable
/// `v`; the number of terms where none does.
pub open spec fn first_pos(terms: Seq<AtomTerm>, v: int, p: int) -> int
    decreases terms.len() - p,
{
    if p < 0 || p >= terms.len() {
        terms.len() as int
    } else if terms[p] == AtomTerm::Var(v as usize) {
        p
    } else {
        first_pos(terms, v, p + 1)
    }
}

/// The candidates that the first `r` rows give for the next variable, in
/// the order of the rows, each once: the value at position `p0` of each
/// row of the right length, where every atom is still supported once the
/// variable has that value.
pub open spec fn candidates_upto(
    tables: Seq<TableModel>,
    q: QueryModel,
    beta: Seq<Value>,
    rows: Seq<Row>,
    arity: int,
    p0: int,
    r: int,
) -> Seq<Value>
    decreases r,
{
    if r <= 0 {
        Seq::empty()
    } else {
        let before = candidates_upto(tables, q, beta, rows, arity, p0, r - 1);
        let tuple = row_tuple(rows[r - 1]);
        if tuple.len() == arity && all_supported(tables, q, beta.push(tuple[p0]))
            && !before.contains(tuple[p0]) {
            before.push(tuple[p0])
        } else {
            before
        }
    }
}

/// The candidates for the variable after those that `beta` binds: they are
/// read off the rows of the first atom that mentions the variable, at the
/// first position where it does.
pub open spec fn candidates_spec(tables: Seq<TableModel>, q: QueryModel, beta: Seq<Value>) -> Seq<
    Value,
> {
    let v = beta.len() as int;
    let a0 = first_atom(q, v, 0);
    if a0 >= q.atoms.len() {
        Seq::empty()
    } else {
        let atom = q.atoms[a0];
        let rows = atom_rows(tables, atom);
        candidates_upto(
            tables,
            q,
            beta,
            rows,
            atom.1.len() as int,
            first_pos(atom.1, v, 0),
            rows.len() as int,
        )
    }
}

/// The solutions that extend `beta`, in the order in which the join
/// finds them: the variables are bound in the order of their indices, each
/// to its candidates in their order.
pub open spec fn join_spec(tables: Seq<TableModel>, q: QueryModel, beta: Seq<Value>) -> Seq<
    Seq<Value>,
>
    decreases q.num_vars - beta.len(), candidates_spec(tables, q, beta).len() + 1,
{
    if beta.len() >= q.num_vars {
        if all_supported(tables, q, beta) {
            seq![beta]
        } else {
            Seq::empty()
        }
    } else {
        expand_spec(tables, q, beta, candidates_spec(tables, q, beta), 0)
    }
}

/// The solutions that extend `beta` by one of the candidates `i..`.
pub open spec fn expand_spec(
    tables: Seq<TableModel>,
    q: QueryModel,
    beta: Seq<Value>,
    cands: Seq<Value>,
    i: int,
) -> Seq<Seq<Value>>
    decreases q.num_vars - beta.len(), cands.len() - i,
{
    if i < 0 || i >= cands.len() || beta.len() >= q.num_vars {
        Seq::empty()
    } else {
        join_spec(tables, q, beta.push(cands[i])) + expand_spec(tables, q, beta, cands, i + 1)
    }
}

/// The solutions of a query in the order in which the join finds them;
/// none where some variable occurs in no atom.
pub open spec fn solutions_list(tables: Seq<TableModel>, q: QueryModel) -> Seq<Seq<Value>> {
    if q.anchored() {
        join_spec(tables, q, Seq::empty())
    } else {
        Seq::empty()
    }
}

/// An atom that holds is found by lookup: its arguments are a key of the
/// table, and the output stored under it is the atom's output.
pub proof fn lemma_holds_is_lookup(tables: Seq<TableModel>, atom: AtomModel, sigma: Seq<Value>)
    requires
        atom_holds(tables, atom, sigma),
        has_function(tables, atom.0) ==> keys_distinct(
            tables[function_index(tables, atom.0)].rows,
        ),
    ensures
        has_function(tables, atom.0),
        atom.1.len() > 0,
        table_get(
            tables[function_index(tables, atom.0)].rows,
            instantiate(atom.1, sigma).drop_last(),
        ) == Some(instantiate(atom.1, sigma).last()),
{
    let rows = atom_rows(tables, atom);
    let r = choose|r: int|
        0 <= r < rows.len() && row_tuple(#[trigger] rows[r]) == instantiate(atom.1, sigma);
    let inst = instantiate(atom.1, sigma);
    assert(row_tuple(rows[r]).len() == rows[r].0.len() + 1);
    assert(inst.drop_last() =~= rows[r].0);
    assert(inst.last() == rows[r].1);
    let k = inst.drop_last();
    assert(has_key(rows, k));
    let j = key_row(rows, k);
    if j < r {
        assert(rows[j].0 != rows[r].0);
    } else if r < j {
        assert(rows[r].0 != rows[j].0);
    }
}

/// Where every variable is bound, agreeing with an atom is holding.
pub proof fn lemma_full_match(terms: Seq<AtomTerm>, tuple: Seq<Value>, sigma: Seq<Value>)
    requires
        forall|p: int|
            0 <= p < terms.len() ==> ((#[trigger] terms[p]) matches AtomTerm::Var(v) ==> v
                < sigma.len()),
    ensures
        partial_match(terms, tuple, sigma) <==> tuple == instantiate(terms, sigma),
{
    let inst = instantiate(terms, sigma);
    if partial_match(terms, tuple, sigma) {
        assert forall|p: int| 0 <= p < terms.len() implies tuple[p] == inst[p] by {
            let t = terms[p];
        }
        assert(tuple =~= inst);
    }
    if tuple == inst {
        assert forall|p: int| 0 <= p < terms.len() implies match #[trigger] terms[p] {
            AtomTerm::Value(x) => tuple[p] == x,
            AtomTerm::Var(v) => v < sigma.len() ==> tuple[p] == sigma[v as int],
        } by {
            assert(tuple[p] == inst[p]);
        }
    }
}

/// A tuple that agrees with an atom under an assignment agrees with it
/// under every prefix of the assignment.
pub proof fn lemma_prefix_match(
    terms: Seq<AtomTerm>,
    tuple: Seq<Value>,
    sigma: Seq<Value>,
    beta: Seq<Value>,
)
    requires
        partial_match(terms, tuple, sigma),
        beta.is_prefix_of(sigma),
    ensures
        partial_match(terms, tuple, beta),
{
    assert forall|p: int| 0 <= p < terms.len() implies match #[trigger] terms[p] {
        AtomTerm::Value(x) => tuple[p] == x,
        AtomTerm::Var(v) => v < beta.len() ==> tuple[p] == beta[v as int],
    } by {
        match terms[p] {
            AtomTerm::Var(v) => {
                if v < beta.len() {
                    assert(beta[v as int] == sigma[v as int]);
                }
            },
            _ => {},
        }
    }
}

fn row_matches(terms: &Vec<AtomTerm>, args: &Vec<Value>, value: Value, beta: &Vec<Value>) -> (r:
    bool)
    ensures
        r == partial_match(terms@, args@.push(value), beta@),
{
    let n = args.len();
    if terms.len() == 0 || terms.len() - 1 != n {
        return false;
    }
    let ghost tuple = args@.push(value);
    let mut p: usize = 0;
    while p < terms.len()
        invariant
            p <= terms@.len(),
            n == args@.len(),
            terms@.len() == n + 1,
            tuple == args@.push(value),
            forall|x: int|
                0 <= x < p ==> match #[trigger] terms@[x] {
                    AtomTerm::Value(c) => tuple[x] == c,
                    AtomTerm::Var(v) => v < beta@.len() ==> tuple[x] == beta@[v as int],
                },
        decreases terms@.len() - p,
    {
        let actual = if p < n {
            args[p]
        } else {
            value
        };
        assert(actual == tuple[p as int]);
        match terms[p] {
            AtomTerm::Value(c) => {
                if actual != c {
                    return false;
                }
            },
            AtomTerm::Var(v) => {
                if v < beta.len() {
                    if actual != beta[v] {
                        return false;
                    }
                }
            },
        }
        p += 1;
    }
    true
}

fn supported(st: &State, atom: &Atom, beta: &Vec<Value>) -> (r: bool)
    requires
        st.wf(),
    ensures
        r == atom_supported(st@.tables, (atom.head, atom.terms@), beta@),
{
    let ghost am = (atom.head, atom.terms@);
    match st.find_function(atom.head) {
        None => false,
        Some(fi) => {
            let f = st.function(fi);
            let ghost rows = atom_rows(st@.tables, am);
            assert(rows == f.rows());
            let mut r: usize = 0;
            while r < f.len()
                invariant
                    r <= f.rows().len(),
                    rows == f.rows(),
                    rows == atom_rows(st@.tables, am),
                    am == (atom.head, atom.terms@),
                    forall|x: int| 0 <= x < r ==> !partial_match(am.1, row_tuple(#[trigger] rows[x]), beta@),
                decreases f.rows().len() - r,
            {
                if row_matches(&atom.terms, f.row_args(r), f.row_value(r), beta) {
                    assert(partial_match(am.1, row_tuple(rows[r as int]), beta@));
                    return true;
                }
                r += 1;
            }
            false
        },
    }
}

fn every_supported(st: &State, q: &Query, beta: &Vec<Value>) -> (r: bool)
    requires
        st.wf(),
    ensures
        r == all_supported(st@.tables, q@, beta@),
{
    let mut a: usize = 0;
    while a < q.num_atoms()
        invariant
            a <= q@.atoms.len(),
            st.wf(),
            forall|x: int| 0 <= x < a ==> atom_supported(st@.tables, #[trigger] q@.atoms[x], beta@),
        decreases q@.atoms.len() - a,
    {
        if !supported(st, q.atom(a), beta) {
            return false;
        }
        a += 1;
    }
    true
}

/// The first atom that mentions variable `v`, and the first position at
/// which it does.
fn first_mention(q: &Query, v: usize) -> (r: Option<(usize, usize)>)
    ensures
        match r {
            Some((a, p)) => a < q@.atoms.len() && p < q@.atoms[a as int].1.len()
                && q@.atoms[a as int].1[p as int] == AtomTerm::Var(v) && a == first_atom(
                q@,
                v as int,
                0,
            ) && p == first_pos(q@.atoms[a as int].1, v as int, 0),
            None => !q@.mentioned(v as int) && first_atom(q@, v as int, 0) == q@.atoms.len(),
        },
{
    let mut a: usize = 0;
    while a < q.num_atoms()
        invariant
            a <= q@.atoms.len(),
            forall|x: int| 0 <= x < a ==> !#[trigger] q@.mentions(x, v as int),
            first_atom(q@, v as int, 0) == first_atom(q@, v as int, a as int),
        decreases q@.atoms.len() - a,
    {
        let atom = q.atom(a);
        let mut p: usize = 0;
        while p < atom.terms.len()
            invariant
                a < q@.atoms.len(),
                p <= atom.terms@.len(),
                (atom.head, atom.terms@) == q@.atoms[a as int],
                forall|x: int| 0 <= x < p ==> #[trigger] atom.terms@[x] != AtomTerm::Var(v),
                first_pos(atom.terms@, v as int, 0) == first_pos(atom.terms@, v as int, p as int),
                first_atom(q@, v as int, 0) == first_atom(q@, v as int, a as int),
            decreases atom.terms@.len() - p,
        {
            if atom.terms[p] == AtomTerm::Var(v) {
                assert(q@.mentions(a as int, v as int));
                return Some((a, p));
            }
            p += 1;
        }
        assert(!q@.mentions(a as int, v as int)) by {
            if q@.mentions(a as int, v as int) {
                let k = choose|k: int|
                    0 <= k < q@.atoms[a as int].1.len() && #[trigger] q@.atoms[a as int].1[k]
                        == AtomTerm::Var(v);
                assert(atom.terms@[k] != AtomTerm::Var(v));
            }
        }
        a += 1;
    }
    assert(!q@.mentioned(v as int)) by {
        if q@.mentioned(v as int) {
            let x = choose|x: int| 0 <= x < q@.atoms.len() && #[trigger] q@.mentions(x, v as int);
        }
    }
    None
}

/// Whether every variable index occurs in some atom.
pub fn is_anchored(q: &Query) -> (r: bool)
    ensures
        r == q@.anchored(),
{
    let mut v: usize = 0;
    while v < q.num_vars()
        invariant
            v <= q@.num_vars,
            forall|x: int| 0 <= x < v ==> #[trigger] q@.mentioned(x),
        decreases q@.num_vars - v,
    {
        match first_mention(q, v) {
            None => {
                return false;
            },
            Some((a, p)) => {
                assert(q@.mentions(a as int, v as int));
                assert(q@.mentioned(v as int));
            },
        }
        v += 1;
    }
    true
}

fn contains_value(vals: &Vec<Value>, v: Value) -> (r: bool)
    ensures
        r == vals@.contains(v),
{
    let mut i: usize = 0;
    while i < vals.len()
        invariant
            i <= vals@.len(),
            forall|k: int| 0 <= k < i ==> vals@[k] != v,
        decreases vals@.len() - i,
    {
        if vals[i] == v {
            return true;
        }
        i += 1;
    }
    false
}

/// The values that the next variable can take: those for which every atom
/// is still supported, each once.
fn candidates(st: &State, q: &Query, beta: &mut Vec<Value>) -> (cands: Vec<Value>)
    requires
        st.wf(),
        old(beta)@.len() < q@.num_vars,
    ensures
        final(beta)@ == old(beta)@,
        cands@ == candidates_spec(st@.tables, q@, old(beta)@),
        cands@.no_duplicates(),
        forall|c: Value|
            q@.mentioned(old(beta)@.len() as int) && all_supported(
                st@.tables,
                q@,
                old(beta)@.push(c),
            ) ==> #[trigger] cands@.contains(c),
{
    let mut cands: Vec<Value> = Vec::new();
    let k = beta.len();
    let (a0, p0) = match first_mention(q, k) {
        None => {
            return cands;
        },
        Some(m) => m,
    };
    let atom = q.atom(a0);
    let ghost am = q@.atoms[a0 as int];
    let ghost b0 = beta@;
    let fi = match st.find_function(atom.head) {
        None => {
            assert forall|c: Value| all_supported(st@.tables, q@, b0.push(c)) implies #[trigger] cands@.contains(
                c,
            ) by {
                assert(atom_supported(st@.tables, q@.atoms[a0 as int], b0.push(c)));
            }
            return cands;
        },
        Some(fi) => fi,
    };
    let f = st.function(fi);
    let ghost rows = f.rows();
    assert(rows == atom_rows(st@.tables, am));
    let mut r: usize = 0;
    while r < f.len()
        invariant
            r <= rows.len(),
            rows == f.rows(),
            rows == atom_rows(st@.tables, am),
            st.wf(),
            beta@ == b0,
            k == b0.len(),
            a0 < q@.atoms.len(),
            am == q@.atoms[a0 as int],
            am == (atom.head, atom.terms@),
            p0 < am.1.len(),
            am.1[p0 as int] == AtomTerm::Var(k),
            cands@.no_duplicates(),
            cands@ == candidates_upto(
                st@.tables,
                q@,
                b0,
                rows,
                am.1.len() as int,
                p0 as int,
                r as int,
            ),
            forall|x: int, c: Value|
                0 <= x < r && partial_match(am.1, row_tuple(#[trigger] rows[x]), b0.push(c))
                    && all_supported(st@.tables, q@, b0.push(c)) ==> #[trigger] cands@.contains(c),
        decreases rows.len() - r,
    {
        let args = f.row_args(r);
        assert(row_tuple(rows[r as int]).len() == args@.len() + 1);
        if args.len() == atom.terms.len() - 1 {
            let c = if p0 < args.len() {
                args[p0]
            } else {
                f.row_value(r)
            };
            assert(c == row_tuple(rows[r as int])[p0 as int]);
            beta.push(c);
            let ok = every_supported(st, q, beta);
            let _ = beta.pop();
            assert(beta@ =~= b0);
            let ghost before = cands@;
            if ok && !contains_value(&cands, c) {
                cands.push(c);
            }
            proof {
                assert forall|x: int, d: Value|
                    0 <= x < r + 1 && partial_match(am.1, row_tuple(#[trigger] rows[x]), b0.push(d))
                        && all_supported(st@.tables, q@, b0.push(d)) implies #[trigger] cands@.contains(
                    d,
                ) by {
                    if x < r {
                        assert(before.contains(d));
                        let j = before.index_of(d);
                        assert(cands@[j] == d);
                    } else {
                        let t = am.1[p0 as int];
                        assert(b0.push(d)[k as int] == d);
                        assert(row_tuple(rows[x])[p0 as int] == d);
                        assert(d == c);
                        if before.contains(c) {
                            let j = before.index_of(c);
                            assert(cands@[j] == c);
                        } else {
                            assert(cands@[before.len() as int] == c);
                        }
                    }
                }
            }
        } else {
            proof {
                assert forall|c: Value| !partial_match(am.1, row_tuple(rows[r as int]), b0.push(c)) by {
                    assert(row_tuple(rows[r as int]).len() == args@.len() + 1);
                }
            }
        }
        r += 1;
    }
    proof {
        assert forall|c: Value|
            q@.mentioned(b0.len() as int) && all_supported(
                st@.tables,
                q@,
                b0.push(c),
            ) implies #[trigger] cands@.contains(c) by {
            assert(atom_supported(st@.tables, q@.atoms[a0 as int], b0.push(c)));
            let x = choose|x: int|
                0 <= x < rows.len() && partial_match(am.1, row_tuple(#[trigger] rows[x]), b0.push(c));
        }
    }
    cands
}

/// Whether two lists of assignments hold the same assignments.
pub open spec fn lists_of(out: Seq<Vec<Value>>) -> Seq<Seq<Value>> {
    Seq::new(out.len(), |i: int| out[i]@)
}

fn join_from(st: &State, q: &Query, beta: &mut Vec<Value>, out: &mut Vec<Vec<Value>>)
    requires
        st.wf(),
        q@.wf(),
        q@.anchored(),
        old(beta)@.len() <= q@.num_vars,
    ensures
        final(beta)@ == old(beta)@,
        lists_of(final(out)@) == lists_of(old(out)@) + join_spec(st@.tables, q@, old(beta)@),
        lists_of(old(out)@).is_prefix_of(lists_of(final(out)@)),
        forall|i: int|
            old(out)@.len() <= i < final(out)@.len() ==> is_solution(
                st@.tables,
                q@,
                #[trigger] lists_of(final(out)@)[i],
            ) && old(beta)@.is_prefix_of(lists_of(final(out)@)[i]),
        forall|sigma: Seq<Value>|
            #[trigger] is_solution(st@.tables, q@, sigma) && old(beta)@.is_prefix_of(sigma)
                ==> exists|i: int|
                old(out)@.len() <= i < final(out)@.len() && #[trigger] lists_of(final(out)@)[i]
                    == sigma,
        forall|i: int, j: int|
            old(out)@.len() <= i < j < final(out)@.len() ==> #[trigger] lists_of(final(out)@)[i]
                != #[trigger] lists_of(final(out)@)[j],
    decreases q@.num_vars - old(beta)@.len(),
{
    let ghost b0 = beta@;
    let ghost out0 = lists_of(out@);
    if beta.len() == q.num_vars() {
        if every_supported(st, q, beta) {
            let found = crate::action::copy_values(beta);
            out.push(found);
            proof {
                let res = lists_of(out@);
                assert(res =~= out0.push(b0));
                assert(res =~= out0 + seq![b0]);
                assert forall|a: int| 0 <= a < q@.atoms.len() implies atom_holds(
                    st@.tables,
                    #[trigger] q@.atoms[a],
                    b0,
                ) by {
                    let atom = q@.atoms[a];
                    assert(atom_supported(st@.tables, atom, b0));
                    let rows = atom_rows(st@.tables, atom);
                    let r = choose|r: int|
                        0 <= r < rows.len() && partial_match(atom.1, row_tuple(#[trigger] rows[r]), b0);
                    assert forall|p: int| 0 <= p < atom.1.len() implies ((
                    #[trigger] atom.1[p]) matches AtomTerm::Var(v) ==> v < b0.len()) by {
                        assert(q@.atoms[a].1[p] matches AtomTerm::Var(v) ==> v < q@.num_vars);
                    }
                    lemma_full_match(atom.1, row_tuple(rows[r]), b0);
                }
                assert forall|sigma: Seq<Value>|
                    #[trigger] is_solution(st@.tables, q@, sigma) && b0.is_prefix_of(
                        sigma,
                    ) implies exists|i: int|
                    out0.len() <= i < res.len() && #[trigger] res[i] == sigma by {
                    assert(sigma =~= b0);
                    assert(res[out0.len() as int] == sigma);
                }
            }
        } else {
            proof {
                assert(lists_of(out@) =~= out0);
                assert(out0 + Seq::<Seq<Value>>::empty() =~= out0);
                assert forall|sigma: Seq<Value>|
                    #[trigger] is_solution(st@.tables, q@, sigma) && b0.is_prefix_of(
                        sigma,
                    ) implies false by {
                    assert(sigma =~= b0);
                    assert forall|a: int| 0 <= a < q@.atoms.len() implies atom_supported(
                        st@.tables,
                        #[trigger] q@.atoms[a],
                        b0,
                    ) by {
                        lemma_solution_supports(st@.tables, q@, sigma, b0, a);
                    }
                }
            }
        }
        return;
    }
    let k = beta.len();
    let cands = candidates(st, q, beta);
    let mut ci: usize = 0;
    while ci < cands.len()
        invariant
            ci <= cands@.len(),
            st.wf(),
            q@.wf(),
            q@.anchored(),
            beta@ == b0,
            b0 == old(beta)@,
            k == b0.len(),
            k < q@.num_vars,
            out0 == lists_of(old(out)@),
            cands@.no_duplicates(),
            cands@ == candidates_spec(st@.tables, q@, b0),
            out0 + expand_spec(st@.tables, q@, b0, cands@, 0) == lists_of(out@) + expand_spec(
                st@.tables,
                q@,
                b0,
                cands@,
                ci as int,
            ),
            out0.is_prefix_of(lists_of(out@)),
            forall|i: int|
                out0.len() <= i < out@.len() ==> is_solution(
                    st@.tables,
                    q@,
                    #[trigger] lists_of(out@)[i],
                ) && b0.is_prefix_of(lists_of(out@)[i]) && exists|x: int|
                    0 <= x < ci && lists_of(out@)[i][k as int] == #[trigger] cands@[x],
            forall|sigma: Seq<Value>, x: int|
                #[trigger] is_solution(st@.tables, q@, sigma) && b0.is_prefix_of(sigma) && 0 <= x
                    < ci && sigma[k as int] == #[trigger] cands@[x] ==> exists|i: int|
                    out0.len() <= i < out@.len() && #[trigger] lists_of(out@)[i] == sigma,
            forall|i: int, j: int|
                out0.len() <= i < j < out@.len() ==> #[trigger] lists_of(out@)[i]
                    != #[trigger] lists_of(out@)[j],
        decreases cands@.len() - ci,
    {
        let c = cands[ci];
        let ghost mid = lists_of(out@);
        beta.push(c);
        let ghost b1 = beta@;
        join_from(st, q, beta, out);
        let _ = beta.pop();
        proof {
            assert(beta@ =~= b0);
            let res = lists_of(out@);
            assert(b0.is_prefix_of(b1));
            assert(out0.is_prefix_of(res));
            assert(b1 =~= b0.push(c));
            let found = join_spec(st@.tables, q@, b1);
            let rest = expand_spec(st@.tables, q@, b0, cands@, ci + 1);
            assert(expand_spec(st@.tables, q@, b0, cands@, ci as int) == found + rest);
            assert(res == mid + found);
            assert(mid + (found + rest) =~= (mid + found) + rest);
            assert forall|i: int| out0.len() <= i < res.len() implies is_solution(
                st@.tables,
                q@,
                #[trigger] res[i],
            ) && b0.is_prefix_of(res[i]) && exists|x: int|
                0 <= x < ci + 1 && res[i][k as int] == #[trigger] cands@[x] by {
                if i < mid.len() {
                    assert(res[i] == mid[i]);
                    let x = choose|x: int| 0 <= x < ci && mid[i][k as int] == #[trigger] cands@[x];
                    assert(res[i][k as int] == cands@[x]);
                } else {
                    assert(b1.is_prefix_of(res[i]));
                    assert(res[i][k as int] == b1[k as int]);
                    assert(res[i][k as int] == cands@[ci as int]);
                }
            }
            assert forall|sigma: Seq<Value>, x: int|
                #[trigger] is_solution(st@.tables, q@, sigma) && b0.is_prefix_of(sigma) && 0 <= x
                    < ci + 1 && sigma[k as int] == #[trigger] cands@[x] implies exists|i: int|
                out0.len() <= i < res.len() && #[trigger] res[i] == sigma by {
                if x < ci {
                    let i = choose|i: int| out0.len() <= i < mid.len() && #[trigger] mid[i] == sigma;
                    assert(res[i] == mid[i]);
                } else {
                    assert(b1 =~= b0.push(c));
                    assert(b1.is_prefix_of(sigma)) by {
                        assert forall|y: int| 0 <= y < b1.len() implies b1[y] == sigma[y] by {
                            if y < k {
                                assert(b0[y] == sigma[y]);
                            }
                        }
                    }
                    let i = choose|i: int| mid.len() <= i < res.len() && #[trigger] res[i] == sigma;
                }
            }
            assert forall|i: int, j: int| out0.len() <= i < j < res.len() implies #[trigger] res[i]
                != #[trigger] res[j] by {
                if j < mid.len() {
                    assert(res[i] == mid[i] && res[j] == mid[j]);
                } else if i >= mid.len() {
                } else {
                    assert(res[i] == mid[i]);
                    let x = choose|x: int| 0 <= x < ci && mid[i][k as int] == #[trigger] cands@[x];
                    assert(b1.is_prefix_of(res[j]));
                    assert(res[j][k as int] == b1[k as int]);
                    assert(cands@[x] != cands@[ci as int]);
                }
            }
        }
        ci += 1;
    }
    proof {
        let res = lists_of(out@);
        assert(res + Seq::<Seq<Value>>::empty() =~= res);
        assert forall|sigma: Seq<Value>|
            #[trigger] is_solution(st@.tables, q@, sigma) && b0.is_prefix_of(sigma) implies exists|
            i: int,
        |
            out0.len() <= i < res.len() && #[trigger] res[i] == sigma by {
            let c = sigma[k as int];
            let b1 = b0.push(c);
            assert(b1.is_prefix_of(sigma)) by {
                assert forall|y: int| 0 <= y < b1.len() implies b1[y] == sigma[y] by {
                    if y < k {
                        assert(b0[y] == sigma[y]);
                    }
                }
            }
            assert forall|a: int| 0 <= a < q@.atoms.len() implies atom_supported(
                st@.tables,
                #[trigger] q@.atoms[a],
                b1,
            ) by {
                lemma_solution_supports(st@.tables, q@, sigma, b1, a);
            }
            assert(q@.mentioned(k as int));
            assert(cands@.contains(c));
            let x = cands@.index_of(c);
            assert(sigma[k as int] == cands@[x]);
        }
    }
}

/// A solution supports every atom under each of its prefixes.
pub proof fn lemma_solution_supports(
    tables: Seq<TableModel>,
    q: QueryModel,
    sigma: Seq<Value>,
    beta: Seq<Value>,
    a: int,
)
    requires
        q.wf(),
        is_solution(tables, q, sigma),
        beta.is_prefix_of(sigma),
        0 <= a < q.atoms.len(),
    ensures
        atom_supported(tables, q.atoms[a], beta),
{
    let atom = q.atoms[a];
    assert(atom_holds(tables, atom, sigma));
    let rows = atom_rows(tables, atom);
    let r = choose|r: int|
        0 <= r < rows.len() && row_tuple(#[trigger] rows[r]) == instantiate(atom.1, sigma);
    assert forall|p: int| 0 <= p < atom.1.len() implies ((#[trigger] atom.1[p]) matches AtomTerm::Var(
        v,
    ) ==> v < sigma.len()) by {
        assert(q.atoms[a].1[p] matches AtomTerm::Var(v) ==> v < q.num_vars);
    }
    lemma_full_match(atom.1, row_tuple(rows[r]), sigma);
    lemma_prefix_match(atom.1, row_tuple(rows[r]), sigma, beta);
}

/// Runs a query against the tables and returns its solutions, each once,
/// in no particular order. Every assignment returned satisfies every atom,
/// and every assignment that does is returned.
pub fn run_query(st: &State, q: &Query) -> (res: Vec<Vec<Value>>)
    requires
        st.wf(),
        q@.wf(),
    ensures
        lists_of(res@) == solutions_list(st@.tables, q@),
        forall|i: int|
            0 <= i < res@.len() ==> is_solution(st@.tables, q@, #[trigger] lists_of(res@)[i]),
        forall|sigma: Seq<Value>|
            #[trigger] is_solution(st@.tables, q@, sigma) ==> lists_of(res@).contains(sigma),
        lists_of(res@).no_duplicates(),
{
    let mut out: Vec<Vec<Value>> = Vec::new();
    if !is_anchored(q) {
        assert(lists_of(out@) =~= Seq::<Seq<Value>>::empty());
        return out;
    }
    assert(lists_of(out@) =~= Seq::<Seq<Value>>::empty());
    let mut beta: Vec<Value> = Vec::new();
    join_from(st, q, &mut beta, &mut out);
    proof {
        let res = lists_of(out@);
        assert(Seq::<Seq<Value>>::empty() + join_spec(st@.tables, q@, Seq::empty()) =~= join_spec(
            st@.tables,
            q@,
            Seq::empty(),
        ));
        assert forall|sigma: Seq<Value>| #[trigger] is_solution(st@.tables, q@, sigma) implies res.contains(
            sigma,
        ) by {
            assert(Seq::<Value>::empty().is_prefix_of(sigma));
            let i = choose|i: int| 0 <= i < res.len() && #[trigger] res[i] == sigma;
        }
    }
    out
}

} // verus!
