//! What rebuilding does to the model, and why it ends in canonical form.

use crate::error::Error;
use crate::function::{
    canon_args, capped_sum, has_key, key_row, keys_distinct, lemma_canon_args_fit,
    lemma_canon_fits, rebuild_fold, rebuild_step, row_canonical, row_typed, rows_canonical,
    rows_typed, table_get, Rebuilt, Row,
};
use crate::merge::Merger;
use crate::model::{same_schemas, Env, StateModel, TableModel};
use crate::unionfind::{
    canon_value, is_known_class, lemma_union_classes, merged_root, num_classes, roots_union,
    roots_wf,
};
use crate::value::{Id, Type, Value};
use vstd::prelude::*;

verus! {

/// Whether the classes `r` are the classes `r0` with some of them merged.
pub open spec fn coarsens(r0: Seq<int>, r: Seq<int>) -> bool {
    &&& r.len() == r0.len()
    &&& forall|i: int, j: int|
        0 <= i < r0.len() && 0 <= j < r0.len() && r0[i] == r0[j] ==> #[trigger] r[i]
            == #[trigger] r[j]
}

/// What reconciling two rows of table `k` needs.
pub open spec fn table_merger(env: Env, st: StateModel, k: int) -> Merger {
    Merger { name: st.tables[k].name, merge: env.decls[k].merge, prims: env.prims }
}

/// What the rebuild of table `k` against the classes as they are reaches.
pub open spec fn table_fold(env: Env, st: StateModel, k: int) -> Rebuilt {
    let t = st.tables[k];
    rebuild_fold(
        t.rows,
        t.rows.len() as int,
        t.input,
        t.output,
        table_merger(env, st, k),
        st.roots,
        st.pool,
    )
}

/// The error that ends the rebuild of table `k`, if any.
pub open spec fn table_error(env: Env, st: StateModel, k: int) -> Option<Error> {
    table_fold(env, st, k).error
}

/// The state after table `k` was rebuilt against the classes as they are.
/// A table whose rebuild ends in an error stays as it was.
pub open spec fn rebuild_table(env: Env, st: StateModel, k: int) -> StateModel {
    let t = st.tables[k];
    let out = table_fold(env, st, k);
    StateModel {
        roots: out.roots,
        unions: (out.roots.len() - num_classes(out.roots)) as nat,
        pool: out.pool,
        tables: if out.error is None {
            st.tables.update(k, TableModel { rows: out.rows, updates: 0, ..t })
        } else {
            st.tables
        },
        ..st
    }
}

/// What rebuilding table `k` reports: the classes it merged away plus the
/// insertions counted; nothing where it ends in an error.
pub open spec fn table_count(env: Env, st: StateModel, k: int) -> int {
    if table_error(env, st, k) is Some {
        0
    } else {
        capped_sum(
            num_classes(st.roots) - num_classes(rebuild_table(env, st, k).roots),
            st.tables[k].updates as int,
        )
    }
}

/// The state after the first `n` tables were rebuilt, one after the other.
pub open spec fn pass_spec(env: Env, st: StateModel, n: int) -> StateModel
    decreases n,
{
    if n <= 0 {
        st
    } else {
        rebuild_table(env, pass_spec(env, st, n - 1), n - 1)
    }
}

/// The first error among the rebuilds of the first `n` tables, if any.
pub open spec fn pass_error(env: Env, st: StateModel, n: int) -> Option<Error>
    decreases n,
{
    if n <= 0 {
        None
    } else {
        match pass_error(env, st, n - 1) {
            Some(e) => Some(e),
            None => table_error(env, pass_spec(env, st, n - 1), n - 1),
        }
    }
}

/// What rebuilding the first `n` tables reports in all.
pub open spec fn pass_count(env: Env, st: StateModel, n: int) -> int
    decreases n,
{
    if n <= 0 {
        0
    } else {
        capped_sum(pass_count(env, st, n - 1), table_count(env, pass_spec(env, st, n - 1), n - 1))
    }
}

/// Whether a pass over all tables is the last: it met an error, or it
/// reported nothing.
pub open spec fn pass_ends(env: Env, st: StateModel) -> bool {
    pass_error(env, st, st.tables.len() as int) is Some || pass_count(
        env,
        st,
        st.tables.len() as int,
    ) == 0
}

/// The state after at most `fuel` passes over all the tables, of which
/// the last reported nothing or met an error.
pub open spec fn settle_spec(env: Env, st: StateModel, fuel: nat) -> StateModel
    decreases fuel,
{
    if fuel == 0 {
        st
    } else if pass_ends(env, st) {
        pass_spec(env, st, st.tables.len() as int)
    } else {
        settle_spec(env, pass_spec(env, st, st.tables.len() as int), (fuel - 1) as nat)
    }
}

/// The error that ends a rebuild, if any: the first error of the first
/// pass that meets one.
pub open spec fn settle_error(env: Env, st: StateModel, fuel: nat) -> Option<Error>
    decreases fuel,
{
    if fuel == 0 {
        None
    } else if pass_ends(env, st) {
        pass_error(env, st, st.tables.len() as int)
    } else {
        settle_error(env, pass_spec(env, st, st.tables.len() as int), (fuel - 1) as nat)
    }
}

/// What all the passes of a rebuild report in all.
pub open spec fn settle_count(env: Env, st: StateModel, fuel: nat) -> int
    decreases fuel,
{
    if fuel == 0 {
        0
    } else if pass_ends(env, st) {
        0
    } else {
        capped_sum(
            pass_count(env, st, st.tables.len() as int),
            settle_count(env, pass_spec(env, st, st.tables.len() as int), (fuel - 1) as nat),
        )
    }
}

/// The passes that a rebuild of `st` can need: one for each class that can
/// still be merged away, one for the insertions counted, and the last.
pub open spec fn settle_fuel(st: StateModel) -> nat {
    num_classes(st.roots) + 2
}

/// The representative of a representative is itself.
pub proof fn lemma_canon_idempotent(r: Seq<int>, v: Value)
    requires
        roots_wf(r),
    ensures
        canon_value(r, canon_value(r, v)) == canon_value(r, v),
{
    match v {
        Value::Id(id) => {
            if id.0 < r.len() {
                assert(r[r[id.0 as int]] == r[id.0 as int]);
            }
        },
        _ => {},
    }
}

/// A canonical argument tuple is its own canonical form.
pub proof fn lemma_canon_args_idempotent(r: Seq<int>, input: Seq<Type>, args: Seq<Value>)
    requires
        roots_wf(r),
    ensures
        canon_args(r, input, canon_args(r, input, args)) == canon_args(r, input, args),
{
    let c = canon_args(r, input, args);
    assert forall|i: int| 0 <= i < c.len() implies canon_args(r, input, c)[i] == c[i] by {
        lemma_canon_idempotent(r, args[i]);
    }
    assert(canon_args(r, input, c) =~= c);
}

/// What holds of the rows and classes while one table is rebuilt from the
/// classes `r0`.
pub open spec fn fold_inv(acc: Rebuilt, input: Seq<Type>, output: Type, r0: Seq<int>) -> bool {
    let rows = acc.rows;
    let r = acc.roots;
    &&& roots_wf(r)
    &&& coarsens(r0, r)
    &&& keys_distinct(rows)
    &&& rows_typed(input, output, rows)
    &&& num_classes(r) <= num_classes(r0)
    &&& num_classes(r) == num_classes(r0) ==> r == r0 && rows_canonical(r0, input, output, rows)
}

proof fn lemma_step(
    acc: Rebuilt,
    input: Seq<Type>,
    output: Type,
    m: Merger,
    r0: Seq<int>,
    row: Row,
)
    requires
        roots_wf(r0),
        fold_inv(acc, input, output, r0),
        row_typed(input, output, row),
    ensures
        fold_inv(rebuild_step(acc, input, output, m, row), input, output, r0),
        output !is Sort ==> rebuild_step(acc, input, output, m, row).roots == acc.roots,
{
    let rows = acc.rows;
    let r = acc.roots;
    let key = canon_args(r, input, row.0);
    let next = rebuild_step(acc, input, output, m, row);
    lemma_canon_args_idempotent(r, input, row.0);
    lemma_canon_idempotent(r, row.1);
    lemma_canon_args_fit(r, input, row.0);
    lemma_canon_fits(r, row.1, output);
    if acc.error is Some {
        return ;
    }
    match table_get(rows, key) {
        None => {
            let v = if output is Sort {
                canon_value(r, row.1)
            } else {
                row.1
            };
            let rows2 = rows.push((key, v));
            assert(next.rows == rows2 && next.roots == r);
            assert(rows_typed(input, output, rows2)) by {
                assert forall|i: int| 0 <= i < rows2.len() implies row_typed(
                    input,
                    output,
                    #[trigger] rows2[i],
                ) by {
                    if i < rows.len() {
                        assert(row_typed(input, output, rows[i]));
                    }
                }
            }
            assert(keys_distinct(rows2)) by {
                assert forall|i: int, j: int| 0 <= i < j < rows2.len() implies (#[trigger] rows2[i]).0
                    != (#[trigger] rows2[j]).0 by {
                    if j < rows.len() {
                        assert(rows[i].0 != rows[j].0);
                    } else {
                        if rows2[i].0 == key {
                            assert(rows[i].0 == key);
                            assert(has_key(rows, key));
                        }
                    }
                }
            }
            if num_classes(r) == num_classes(r0) {
                assert forall|i: int| 0 <= i < rows2.len() implies row_canonical(
                    r0,
                    input,
                    output,
                    #[trigger] rows2[i],
                ) by {
                    if i < rows.len() {
                        assert(row_canonical(r0, input, output, rows[i]));
                    }
                }
            }
        },
        Some(existing) => {
            if output is Sort && is_known_class(r, row.1) && is_known_class(r, existing) {
                let a = row.1->Id_0.0 as int;
                let b = existing->Id_0.0 as int;
                let m = merged_root(r, a, b);
                let u = roots_union(r, a, b);
                let j = key_row(rows, key);
                let rows2 = rows.update(j, (key, Value::Id(Id(m as usize))));
                assert(next.rows == rows2 && next.roots == u);
                lemma_union_classes(r, a, b);
                assert(rows_typed(input, output, rows2)) by {
                    assert forall|i: int| 0 <= i < rows2.len() implies row_typed(
                        input,
                        output,
                        #[trigger] rows2[i],
                    ) by {
                        if i != j {
                            assert(row_typed(input, output, rows[i]));
                        } else {
                            assert(rows[j].0 == key);
                        }
                    }
                }
                assert(coarsens(r0, u)) by {
                    assert forall|x: int, y: int|
                        0 <= x < r0.len() && 0 <= y < r0.len() && r0[x] == r0[y] implies #[trigger] u[x]
                        == #[trigger] u[y] by {
                        assert(r[x] == r[y]);
                    }
                }
                assert(keys_distinct(rows2)) by {
                    assert forall|x: int, y: int| 0 <= x < y < rows2.len() implies (
                    #[trigger] rows2[x]).0 != (#[trigger] rows2[y]).0 by {
                        assert(rows[x].0 != rows[y].0);
                        assert(rows[j].0 == key);
                    }
                }
                if num_classes(u) == num_classes(r0) {
                    assert(r[a] == r[b]);
                    assert(u == r);
                    assert(0 <= r[a] <= a);
                    assert(r[r[a]] == r[a]);
                    assert forall|i: int| 0 <= i < rows2.len() implies row_canonical(
                        r0,
                        input,
                        output,
                        #[trigger] rows2[i],
                    ) by {
                        if i != j {
                            assert(row_canonical(r0, input, output, rows[i]));
                        } else {
                            assert(rows[j].0 == key);
                        }
                    }
                }
            } else if output !is Sort && output is NumType && existing != row.1 {
                let j = key_row(rows, key);
                assert(rows[j].0 == key);
                if next.error is None {
                    let rows2 = next.rows;
                    assert(next.roots == r);
                    assert(rows2.len() == rows.len());
                    assert forall|i: int| 0 <= i < rows2.len() implies row_typed(
                        input,
                        output,
                        #[trigger] rows2[i],
                    ) by {
                        if i != j {
                            assert(rows2[i] == rows[i]);
                            assert(row_typed(input, output, rows[i]));
                        }
                    }
                    assert forall|x: int, y: int| 0 <= x < y < rows2.len() implies (
                    #[trigger] rows2[x]).0 != (#[trigger] rows2[y]).0 by {
                        assert(rows[x].0 != rows[y].0);
                    }
                    if num_classes(r) == num_classes(r0) {
                        assert forall|i: int| 0 <= i < rows2.len() implies row_canonical(
                            r0,
                            input,
                            output,
                            #[trigger] rows2[i],
                        ) by {
                            if i != j {
                                assert(rows2[i] == rows[i]);
                                assert(row_canonical(r0, input, output, rows[i]));
                            }
                        }
                    }
                } else {
                    assert(next.rows == rows && next.roots == r);
                }
            } else {
                assert(next == acc);
            }
        },
    }
}

/// Rebuilding a table keeps the classes well formed and only merges
/// them; where it merged none, every row it leaves is canonical.
pub proof fn lemma_fold(
    source: Seq<Row>,
    n: int,
    input: Seq<Type>,
    output: Type,
    m: Merger,
    r0: Seq<int>,
    pool: Seq<(int, int)>,
)
    requires
        roots_wf(r0),
        rows_typed(input, output, source),
        n <= source.len(),
    ensures
        fold_inv(rebuild_fold(source, n, input, output, m, r0, pool), input, output, r0),
        output !is Sort ==> rebuild_fold(source, n, input, output, m, r0, pool).roots == r0,
    decreases n,
{
    if n <= 0 {
        assert(rows_canonical(r0, input, output, Seq::<Row>::empty()));
        assert(rows_typed(input, output, Seq::<Row>::empty()));
        assert(coarsens(r0, r0));
    } else {
        lemma_fold(source, n - 1, input, output, m, r0, pool);
        assert(row_typed(input, output, source[n - 1]));
        lemma_step(
            rebuild_fold(source, n - 1, input, output, m, r0, pool),
            input,
            output,
            m,
            r0,
            source[n - 1],
        );
    }
}

/// Rebuilding canonical rows with distinct keys gives the same rows and
/// merges nothing.
pub proof fn lemma_fold_canonical(
    source: Seq<Row>,
    n: int,
    input: Seq<Type>,
    output: Type,
    m: Merger,
    r0: Seq<int>,
    pool: Seq<(int, int)>,
)
    requires
        roots_wf(r0),
        keys_distinct(source),
        rows_canonical(r0, input, output, source),
        0 <= n <= source.len(),
    ensures
        rebuild_fold(source, n, input, output, m, r0, pool) == (Rebuilt {
            rows: source.subrange(0, n),
            roots: r0,
            pool,
            error: None,
        }),
    decreases n,
{
    if n <= 0 {
        assert(source.subrange(0, 0) =~= Seq::<Row>::empty());
    } else {
        lemma_fold_canonical(source, n - 1, input, output, m, r0, pool);
        let rows = source.subrange(0, n - 1);
        let row = source[n - 1];
        assert(row_canonical(r0, input, output, row));
        let key = canon_args(r0, input, row.0);
        assert(key == row.0);
        assert(!has_key(rows, key)) by {
            if has_key(rows, key) {
                let i = key_row(rows, key);
                assert(rows[i] == source[i]);
                assert(source[i].0 != source[n - 1].0);
            }
        }
        assert(rows.push(row) =~= source.subrange(0, n));
        if output is Sort {
            assert(canon_value(r0, row.1) == row.1);
        }
        assert((key, row.1) == row);
    }
}

/// Merging merged classes is merging.
pub proof fn lemma_coarsens_trans(a: Seq<int>, b: Seq<int>, c: Seq<int>)
    requires
        coarsens(a, b),
        coarsens(b, c),
    ensures
        coarsens(a, c),
{
    assert forall|i: int, j: int|
        0 <= i < a.len() && 0 <= j < a.len() && a[i] == a[j] implies #[trigger] c[i] == #[trigger] c[j] by {
        assert(b[i] == b[j]);
    }
}

/// What a pass over the first `n` tables keeps and what it reaches.
pub open spec fn pass_inv(env: Env, st: StateModel, n: int) -> bool {
    let p = pass_spec(env, st, n);
    &&& p.wf()
    &&& same_schemas(st.tables, p.tables)
    &&& coarsens(st.roots, p.roots)
    &&& p.globals == st.globals
    &&& num_classes(p.roots) <= num_classes(st.roots)
    &&& p.unions >= st.unions
    &&& forall|k: int| n <= k < st.tables.len() ==> #[trigger] p.tables[k] == st.tables[k]
    &&& pass_error(env, st, n) is None ==> forall|k: int|
        0 <= k < n ==> (#[trigger] p.tables[k]).updates == 0
    &&& pass_count(env, st, n) >= 0
    &&& (pass_error(env, st, n) is None && pass_count(env, st, n) == 0) ==> {
        &&& p.roots == st.roots
        &&& forall|k: int| 0 <= k < n ==> (#[trigger] p.tables[k]).canonical(st.roots)
    }
    &&& (num_classes(p.roots) == num_classes(st.roots) && forall|k: int|
        0 <= k < n ==> (#[trigger] st.tables[k]).updates == 0) ==> pass_count(env, st, n) == 0
}

/// A pass keeps the state well formed, keeps the schemas, and only merges
/// classes. Where it meets no error, it counts from zero in every table
/// it rebuilt; where it also reports nothing, it merged nothing and left
/// every table it rebuilt in canonical form. It reports nothing where it
/// merged nothing and no insertion was counted.
pub proof fn lemma_pass(env: Env, st: StateModel, n: int)
    requires
        st.wf(),
        0 <= n <= st.tables.len(),
    ensures
        pass_inv(env, st, n),
    decreases n,
{
    if n <= 0 {
        assert(coarsens(st.roots, st.roots));
    } else {
        lemma_pass(env, st, n - 1);
        let q = pass_spec(env, st, n - 1);
        let p = pass_spec(env, st, n);
        let t = q.tables[n - 1];
        assert(t == st.tables[n - 1]);
        assert(keys_distinct(t.rows));
        assert(t.typed());
        let m = table_merger(env, q, n - 1);
        lemma_fold(t.rows, t.rows.len() as int, t.input, t.output, m, q.roots, q.pool);
        let out = table_fold(env, q, n - 1);
        let rows = out.rows;
        let roots = out.roots;
        crate::unionfind::lemma_classes_le_len(roots);
        crate::unionfind::lemma_classes_le_len(q.roots);
        lemma_coarsens_trans(st.roots, q.roots, roots);
        if out.error is None {
            assert(p.tables == q.tables.update(n - 1, TableModel { rows, updates: 0, ..t }));
        } else {
            assert(p.tables == q.tables);
        }
        assert(crate::model::names_distinct(p.tables)) by {
            assert forall|i: int, j: int| 0 <= i < j < p.tables.len() implies (
            #[trigger] p.tables[i]).name != (#[trigger] p.tables[j]).name by {
                assert(q.tables[i].name != q.tables[j].name);
            }
        }
        assert forall|i: int| 0 <= i < p.tables.len() implies keys_distinct(
            (#[trigger] p.tables[i]).rows,
        ) by {
            if i != n - 1 || out.error is Some {
                assert(keys_distinct(q.tables[i].rows));
            }
        }
        assert forall|i: int| 0 <= i < p.tables.len() implies (#[trigger] p.tables[i]).typed() by {
            if i != n - 1 || out.error is Some {
                assert(q.tables[i].typed());
            }
        }
        assert(same_schemas(st.tables, p.tables)) by {
            assert forall|i: int| 0 <= i < st.tables.len() implies (#[trigger] st.tables[i]).name
                == p.tables[i].name && st.tables[i].input == p.tables[i].input
                && st.tables[i].output == p.tables[i].output by {
                assert(st.tables[i].name == q.tables[i].name);
            }
        }
        assert forall|k: int| n <= k < st.tables.len() implies #[trigger] p.tables[k]
            == st.tables[k] by {
            assert(q.tables[k] == st.tables[k]);
        }
        if pass_error(env, st, n) is None {
            assert forall|k: int| 0 <= k < n implies (#[trigger] p.tables[k]).updates == 0 by {
                if k < n - 1 {
                    assert(q.tables[k].updates == 0);
                }
            }
            if pass_count(env, st, n) == 0 {
                assert(pass_count(env, st, n - 1) == 0);
                assert(table_count(env, q, n - 1) == 0);
                assert(num_classes(roots) == num_classes(q.roots));
                assert forall|k: int| 0 <= k < n implies (#[trigger] p.tables[k]).canonical(
                    st.roots,
                ) by {
                    if k < n - 1 {
                        assert(q.tables[k].canonical(st.roots));
                    }
                }
            }
        }
        if num_classes(p.roots) == num_classes(st.roots) && forall|k: int|
            0 <= k < n ==> (#[trigger] st.tables[k]).updates == 0 {
            assert(st.tables[n - 1].updates == 0);
            assert(pass_count(env, st, n - 1) == 0);
        }
    }
}

/// A pass over a canonical state in which no insertion is counted changes
/// nothing, reports nothing and meets no error.
pub proof fn lemma_pass_idempotent(env: Env, st: StateModel, n: int)
    requires
        st.wf(),
        st.canonical(),
        st.settled(),
        0 <= n <= st.tables.len(),
    ensures
        pass_spec(env, st, n) == st,
        pass_count(env, st, n) == 0,
        pass_error(env, st, n) is None,
    decreases n,
{
    if n > 0 {
        lemma_pass_idempotent(env, st, n - 1);
        let t = st.tables[n - 1];
        assert(t.canonical(st.roots));
        assert(t.updates == 0);
        lemma_fold_canonical(
            t.rows,
            t.rows.len() as int,
            t.input,
            t.output,
            table_merger(env, st, n - 1),
            st.roots,
            st.pool,
        );
        assert(t.rows.subrange(0, t.rows.len() as int) =~= t.rows);
        crate::unionfind::lemma_classes_le_len(st.roots);
        let p = rebuild_table(env, st, n - 1);
        assert(p.tables =~= st.tables);
    }
}

/// The number by which a rebuild's work is bounded: the classes, and one
/// more while an insertion is counted.
pub open spec fn settle_measure(st: StateModel) -> nat {
    num_classes(st.roots) + if st.settled() {
        0nat
    } else {
        1nat
    }
}

/// A pass that meets no error and reports something brings the state
/// nearer to rest.
pub proof fn lemma_pass_progress(env: Env, st: StateModel)
    requires
        st.wf(),
        !pass_ends(env, st),
    ensures
        settle_measure(pass_spec(env, st, st.tables.len() as int)) < settle_measure(st),
{
    let n = st.tables.len() as int;
    lemma_pass(env, st, n);
    let p = pass_spec(env, st, n);
    assert(p.settled());
    if num_classes(p.roots) == num_classes(st.roots) {
        if st.settled() {
            assert(pass_count(env, st, n) == 0);
        }
    }
}

/// A rebuild reports no negative number.
pub proof fn lemma_settle_count(env: Env, st: StateModel, fuel: nat)
    requires
        st.wf(),
    ensures
        settle_count(env, st, fuel) >= 0,
    decreases fuel,
{
    if fuel > 0 {
        lemma_pass(env, st, st.tables.len() as int);
        if !pass_ends(env, st) {
            lemma_settle_count(env, pass_spec(env, st, st.tables.len() as int), (fuel - 1) as nat);
        }
    }
}

} // verus!
