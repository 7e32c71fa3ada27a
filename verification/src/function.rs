//! Function tables: rows from an argument tuple to an output value.

use crate::ast::{Expr, FunctionDecl};
use crate::error::{same_error, Error, TypeError};
use crate::merge::{merge_ctx, prims_wf, pure_eval, pure_eval_spec, Merger};
use crate::primitive::{Primitive, Primitives};
use crate::rational::RationalPool;
use crate::subst::Subst;
use crate::index::{index_contents, index_get, index_insert, index_new, index_remove, HashIndex};
use crate::symbol::Symbol;
use crate::unionfind::{
    canon_value, is_known_class, merged_root, roots_union, roots_wf, UnionFind,
};
use crate::value::{values_equal, Id, Type, Value};
use vstd::prelude::*;

verus! {

/// One row of a table: the argument tuple and the output.
pub type Row = (Seq<Value>, Value);

/// Whether some row has the key `k`.
pub open spec fn has_key(rows: Seq<Row>, k: Seq<Value>) -> bool {
    exists|i: int| 0 <= i < rows.len() && (#[trigger] rows[i]).0 == k
}

/// A row with the key `k`.
pub open spec fn key_row(rows: Seq<Row>, k: Seq<Value>) -> int {
    choose|i: int| 0 <= i < rows.len() && (#[trigger] rows[i]).0 == k
}

/// No key occurs in two rows.
pub open spec fn keys_distinct(rows: Seq<Row>) -> bool {
    forall|i: int, j: int|
        0 <= i < j < rows.len() ==> (#[trigger] rows[i]).0 != (#[trigger] rows[j]).0
}

/// The output stored under `k`, if any.
pub open spec fn table_get(rows: Seq<Row>, k: Seq<Value>) -> Option<Value> {
    if has_key(rows, k) {
        Some(rows[key_row(rows, k)].1)
    } else {
        None
    }
}

/// The rows after `v` was stored under `k`: the row of `k` is overwritten
/// in place, or a new row is appended.
pub open spec fn table_set(rows: Seq<Row>, k: Seq<Value>, v: Value) -> Seq<Row> {
    if has_key(rows, k) {
        rows.update(key_row(rows, k), (k, v))
    } else {
        rows.push((k, v))
    }
}

/// Whether the arguments are as many as the schema asks, each of the type
/// of its position.
pub open spec fn args_fit(input: Seq<Type>, args: Seq<Value>) -> bool {
    &&& args.len() == input.len()
    &&& forall|i: int| 0 <= i < args.len() ==> (#[trigger] args[i]).spec_fits(input[i])
}

/// Whether a row fits the schema: its arguments do, and its output has
/// the output type.
pub open spec fn row_typed(input: Seq<Type>, output: Type, row: Row) -> bool {
    args_fit(input, row.0) && row.1.spec_fits(output)
}

/// Whether every row fits the schema.
pub open spec fn rows_typed(input: Seq<Type>, output: Type, rows: Seq<Row>) -> bool {
    forall|i: int| 0 <= i < rows.len() ==> row_typed(input, output, #[trigger] rows[i])
}

/// A value and its representative have the same types.
pub proof fn lemma_canon_fits(r: Seq<int>, v: Value, ty: Type)
    requires
        roots_wf(r),
    ensures
        canon_value(r, v).spec_fits(ty) == v.spec_fits(ty),
{
}

/// Arguments that fit a schema fit it in canonical form.
pub proof fn lemma_canon_args_fit(r: Seq<int>, input: Seq<Type>, args: Seq<Value>)
    requires
        roots_wf(r),
        args_fit(input, args),
    ensures
        args_fit(input, canon_args(r, input, args)),
{
    let c = canon_args(r, input, args);
    assert forall|i: int| 0 <= i < c.len() implies (#[trigger] c[i]).spec_fits(input[i]) by {
        assert(args[i].spec_fits(input[i]));
        lemma_canon_fits(r, args[i], input[i]);
    }
}

/// Whether the values are as many as the types, each of the type of its
/// position.
pub fn values_fit(input: &Vec<Type>, args: &Vec<Value>) -> (b: bool)
    ensures
        b == args_fit(input@, args@),
{
    if args.len() != input.len() {
        return false;
    }
    let mut i: usize = 0;
    while i < args.len()
        invariant
            i <= args@.len(),
            args@.len() == input@.len(),
            forall|k: int| 0 <= k < i ==> (#[trigger] args@[k]).spec_fits(input@[k]),
        decreases args@.len() - i,
    {
        if !args[i].fits(input[i]) {
            return false;
        }
        i += 1;
    }
    true
}

/// The rows as a map from key to output.
pub open spec fn rows_map(rows: Seq<Row>) -> Map<Seq<Value>, Value> {
    Map::new(|k: Seq<Value>| has_key(rows, k), |k: Seq<Value>| rows[key_row(rows, k)].1)
}

/// The argument tuple with each position of a sort type replaced by its
/// representative.
pub open spec fn canon_args(r: Seq<int>, input: Seq<Type>, args: Seq<Value>) -> Seq<Value> {
    Seq::new(
        args.len(),
        |i: int|
            if i < input.len() && input[i] is Sort {
                canon_value(r, args[i])
            } else {
                args[i]
            },
    )
}

/// Whether a row is in canonical form: every argument at a position of a
/// sort type is its own representative, and so is the output where the
/// output type is a sort.
pub open spec fn row_canonical(r: Seq<int>, input: Seq<Type>, output: Type, row: Row) -> bool {
    &&& canon_args(r, input, row.0) == row.0
    &&& output is Sort ==> canon_value(r, row.1) == row.1
}

/// Whether every row is in canonical form.
pub open spec fn rows_canonical(
    r: Seq<int>,
    input: Seq<Type>,
    output: Type,
    rows: Seq<Row>,
) -> bool {
    forall|i: int| 0 <= i < rows.len() ==> row_canonical(r, input, output, #[trigger] rows[i])
}

/// What a rebuild has reached: the rows stored again so far, the classes,
/// the pool of rationals, and the error that ended it, if any.
pub struct Rebuilt {
    pub rows: Seq<Row>,
    pub roots: Seq<int>,
    pub pool: Seq<(int, int)>,
    pub error: Option<Error>,
}

/// What becomes of two rows of a numeric function that meet with
/// different outputs: the value of the merge expression under `old`, the
/// output stored, and `new`, the output that comes, is stored, if it has
/// the output type. The merge expression is evaluated without the tables.
/// A function without a merge expression cannot reconcile them, which is
/// an error, as is a merge expression that fails or gives another type.
pub open spec fn reconcile_rows(
    acc: Rebuilt,
    output: Type,
    m: Merger,
    key: Seq<Value>,
    existing: Value,
    incoming: Value,
) -> Rebuilt {
    match m.merge {
        None => Rebuilt { error: Some(Error::Type(TypeError::NoMerge(m.name))), ..acc },
        Some(expr) => {
            let (pool, r) = pure_eval_spec(m.prims, acc.pool, merge_ctx(existing, incoming), expr);
            match r {
                Err(e) => Rebuilt { pool, error: Some(e), ..acc },
                Ok(v) => if v.spec_fits(output) {
                    Rebuilt {
                        rows: acc.rows.update(key_row(acc.rows, key), (key, v)),
                        pool,
                        ..acc
                    }
                } else {
                    Rebuilt { pool, error: Some(Error::Type(TypeError::BadOutput(m.name))), ..acc }
                },
            }
        },
    }
}

/// One step of a rebuild: the row is brought into canonical form against
/// the classes as they are now and stored again. Where its key is taken:
/// for a sort output the two outputs are merged and the representative is
/// stored; for a numeric output two different outputs are reconciled, see
/// [`reconcile_rows`]; two unit outputs, and two equal numbers, are one
/// row. After an error nothing more is done.
pub open spec fn rebuild_step(
    acc: Rebuilt,
    input: Seq<Type>,
    output: Type,
    m: Merger,
    row: Row,
) -> Rebuilt {
    if acc.error is Some {
        acc
    } else {
        let key = canon_args(acc.roots, input, row.0);
        match table_get(acc.rows, key) {
            None => if output is Sort {
                Rebuilt { rows: acc.rows.push((key, canon_value(acc.roots, row.1))), ..acc }
            } else {
                Rebuilt { rows: acc.rows.push((key, row.1)), ..acc }
            },
            Some(existing) => if output is Sort {
                if is_known_class(acc.roots, row.1) && is_known_class(acc.roots, existing) {
                    let a = row.1->Id_0.0 as int;
                    let b = existing->Id_0.0 as int;
                    Rebuilt {
                        rows: acc.rows.update(
                            key_row(acc.rows, key),
                            (key, Value::Id(Id(merged_root(acc.roots, a, b) as usize))),
                        ),
                        roots: roots_union(acc.roots, a, b),
                        ..acc
                    }
                } else {
                    acc
                }
            } else if output is NumType && existing != row.1 {
                reconcile_rows(acc, output, m, key, existing, row.1)
            } else {
                acc
            },
        }
    }
}

/// What the rebuild of the first `n` rows of `source`, one after the
/// other, into an empty table reaches from the classes `r` and the pool
/// `pool`.
pub open spec fn rebuild_fold(
    source: Seq<Row>,
    n: int,
    input: Seq<Type>,
    output: Type,
    m: Merger,
    r: Seq<int>,
    pool: Seq<(int, int)>,
) -> Rebuilt
    decreases n,
{
    if n <= 0 {
        Rebuilt { rows: Seq::empty(), roots: r, pool, error: None }
    } else {
        rebuild_step(
            rebuild_fold(source, n - 1, input, output, m, r, pool),
            input,
            output,
            m,
            source[n - 1],
        )
    }
}

/// Once a rebuild has met an error, the rows after it change nothing.
pub proof fn lemma_fold_stuck(
    source: Seq<Row>,
    k: int,
    n: int,
    input: Seq<Type>,
    output: Type,
    m: Merger,
    r: Seq<int>,
    pool: Seq<(int, int)>,
)
    requires
        0 <= k <= n,
        rebuild_fold(source, k, input, output, m, r, pool).error is Some,
    ensures
        rebuild_fold(source, n, input, output, m, r, pool) == rebuild_fold(
            source,
            k,
            input,
            output,
            m,
            r,
            pool,
        ),
    decreases n,
{
    if k < n {
        lemma_fold_stuck(source, k, n - 1, input, output, m, r, pool);
    }
}

/// What reconciling needs, from what a rebuild is given.
pub open spec fn merger_of(name: Symbol, merge: Option<&Expr>, prims: Seq<Primitive>) -> Merger {
    Merger {
        name,
        merge: match merge {
            Some(e) => Some(*e),
            None => None,
        },
        prims,
    }
}

/// The sum of two counts, held at the largest count there is.
pub open spec fn capped_sum(a: int, b: int) -> int {
    if a + b > usize::MAX {
        usize::MAX as int
    } else {
        a + b
    }
}

/// The code of one value in a fingerprint.
#[verifier::opaque]
pub closed spec fn value_code(v: Value) -> u64 {
    match v {
        Value::Unit => 1u64,
        Value::Int(i) => (i as u64).wrapping_mul(4u64).wrapping_add(2u64),
        Value::Rational(r) => (r.0 as u64).wrapping_mul(4u64).wrapping_add(3u64),
        Value::Id(id) => (id.0 as u64).wrapping_mul(4u64),
    }
}

/// The fingerprint of an argument tuple: equal tuples have equal
/// fingerprints.
#[verifier::opaque]
pub closed spec fn fingerprint(args: Seq<Value>) -> u64
    decreases args.len(),
{
    if args.len() == 0 {
        0xcbf2_9ce4_8422_2325u64
    } else {
        fingerprint(args.drop_last()).wrapping_mul(0x0000_0100_0000_01b3u64).wrapping_add(
            value_code(args.last()),
        )
    }
}

fn code_of(v: Value) -> (c: u64)
    ensures
        c == value_code(v),
{
    reveal(value_code);
    match v {
        Value::Unit => 1u64,
        Value::Int(i) => (#[verifier::truncate] (i as u64)).wrapping_mul(4u64).wrapping_add(2u64),
        Value::Rational(r) => (#[verifier::truncate] (r.0 as u64)).wrapping_mul(4u64).wrapping_add(
            3u64,
        ),
        Value::Id(id) => (#[verifier::truncate] (id.0 as u64)).wrapping_mul(4u64),
    }
}

fn fingerprint_of(args: &Vec<Value>) -> (h: u64)
    ensures
        h == fingerprint(args@),
{
    let mut h: u64 = 0xcbf2_9ce4_8422_2325u64;
    let mut i: usize = 0;
    proof {
        reveal_with_fuel(fingerprint, 1);
        assert(args@.subrange(0, 0) =~= Seq::<Value>::empty());
    }
    while i < args.len()
        invariant
            i <= args.len(),
            h == fingerprint(args@.subrange(0, i as int)),
        decreases args.len() - i,
    {
        proof {
            reveal_with_fuel(fingerprint, 1);
            assert(args@.subrange(0, i + 1).drop_last() =~= args@.subrange(0, i as int));
            assert(args@.subrange(0, i + 1).last() == args@[i as int]);
        }
        h = h.wrapping_mul(0x0000_0100_0000_01b3u64).wrapping_add(code_of(args[i]));
        i += 1;
    }
    assert(args@.subrange(0, i as int) =~= args@);
    h
}

/// Whether the bucket lists the row number `i`.
spec fn lists(b: Seq<usize>, i: int) -> bool {
    exists|m: int| 0 <= m < b.len() && #[trigger] b[m] == i
}

/// Every row is listed under the fingerprint of its key.
#[verifier::opaque]
spec fn index_complete(rows: Seq<(Vec<Value>, Value)>, c: Map<u64, Seq<usize>>) -> bool {
    forall|i: int|
        0 <= i < rows.len() ==> c.contains_key(fingerprint((#[trigger] rows[i]).0@)) && lists(
            c[fingerprint(rows[i].0@)],
            i,
        )
}

/// Every listed number is the number of a row.
#[verifier::opaque]
spec fn index_bounded(n: nat, c: Map<u64, Seq<usize>>) -> bool {
    forall|h: u64, k: int| c.contains_key(h) && 0 <= k < c[h].len() ==> (#[trigger] c[h][k]) < n
}

proof fn lemma_listed(rows: Seq<(Vec<Value>, Value)>, c: Map<u64, Seq<usize>>, i: int) -> (m: int)
    requires
        index_complete(rows, c),
        0 <= i < rows.len(),
    ensures
        c.contains_key(fingerprint(rows[i].0@)),
        0 <= m < c[fingerprint(rows[i].0@)].len(),
        c[fingerprint(rows[i].0@)][m] == i,
{
    reveal(index_complete);
    let b = c[fingerprint(rows[i].0@)];
    assert(lists(b, i));
    choose|m: int| 0 <= m < b.len() && #[trigger] b[m] == i
}

proof fn lemma_bounded(n: nat, c: Map<u64, Seq<usize>>, h: u64, k: int)
    requires
        index_bounded(n, c),
        c.contains_key(h),
        0 <= k < c[h].len(),
    ensures
        c[h][k] < n,
{
    reveal(index_bounded);
}

/// The table of one function.
pub struct Function {
    name: Symbol,
    input: Vec<Type>,
    output: Type,
    rows: Vec<(Vec<Value>, Value)>,
    index: HashIndex,
    updates: usize,
}

impl Function {
    /// The rows, in the order in which their keys were first stored.
    pub closed spec fn rows(&self) -> Seq<Row> {
        Seq::new(self.rows@.len(), |i: int| (self.rows@[i].0@, self.rows@[i].1))
    }

    /// The table as a map from argument tuple to output.
    pub open spec fn view(&self) -> Map<Seq<Value>, Value> {
        rows_map(self.rows())
    }

    /// The name of the function.
    pub closed spec fn spec_name(&self) -> Symbol {
        self.name
    }

    /// The types of the arguments.
    pub closed spec fn spec_input(&self) -> Seq<Type> {
        self.input@
    }

    /// The type of the output.
    pub closed spec fn spec_output(&self) -> Type {
        self.output
    }

    /// The number of insertions since the last rebuild, held at the
    /// largest count there is.
    pub closed spec fn spec_updates(&self) -> nat {
        self.updates as nat
    }

    spec fn index_ok(&self) -> bool {
        index_complete(self.rows@, index_contents(self.index)) && index_bounded(
            self.rows@.len(),
            index_contents(self.index),
        )
    }

    /// The table's invariant: no key occurs twice, every row fits the
    /// schema, and the index finds every row.
    pub closed spec fn wf(&self) -> bool {
        &&& keys_distinct(self.rows())
        &&& rows_typed(self.input@, self.output, self.rows())
        &&& self.index_ok()
    }

    /// What the invariant says of the rows.
    pub proof fn lemma_wf(&self)
        requires
            self.wf(),
        ensures
            keys_distinct(self.rows()),
            rows_typed(self.spec_input(), self.spec_output(), self.rows()),
    {
    }

    /// An empty table for the declared function.
    pub fn new(decl: &FunctionDecl) -> (f: Self)
        ensures
            f.wf(),
            f.rows() == Seq::<Row>::empty(),
            f.spec_name() == decl.name,
            f.spec_input() == decl.schema.input@,
            f.spec_output() == decl.schema.output,
            f.spec_updates() == 0,
    {
        let mut input: Vec<Type> = Vec::new();
        let mut i: usize = 0;
        while i < decl.schema.input.len()
            invariant
                i <= decl.schema.input@.len(),
                input@ == decl.schema.input@.subrange(0, i as int),
            decreases decl.schema.input@.len() - i,
        {
            input.push(decl.schema.input[i]);
            assert(input@ =~= decl.schema.input@.subrange(0, i + 1));
            i += 1;
        }
        assert(input@ =~= decl.schema.input@);
        let f = Function {
            name: decl.name,
            input,
            output: decl.schema.output,
            rows: Vec::new(),
            index: index_new(),
            updates: 0,
        };
        proof {
            assert(f.rows() =~= Seq::<Row>::empty());
            reveal(index_complete);
            reveal(index_bounded);
        }
        f
    }

    /// The name of the function.
    pub fn name(&self) -> (s: Symbol)
        ensures
            s == self.spec_name(),
    {
        self.name
    }

    /// The types of the arguments.
    pub fn input(&self) -> (t: &Vec<Type>)
        ensures
            t@ == self.spec_input(),
    {
        &self.input
    }

    /// The type of the output.
    pub fn output(&self) -> (t: Type)
        ensures
            t == self.spec_output(),
    {
        self.output
    }

    /// The number of rows.
    pub fn len(&self) -> (n: usize)
        ensures
            n == self.rows().len(),
    {
        self.rows.len()
    }

    /// The arguments of row `i`.
    pub fn row_args(&self, i: usize) -> (a: &Vec<Value>)
        requires
            i < self.rows().len(),
        ensures
            a@ == self.rows()[i as int].0,
    {
        &self.rows[i].0
    }

    /// The output of row `i`.
    pub fn row_value(&self, i: usize) -> (v: Value)
        requires
            i < self.rows().len(),
        ensures
            v == self.rows()[i as int].1,
    {
        self.rows[i].1
    }

    /// The number of the row with the key `args`, if there is one.
    pub fn find_row(&self, args: &Vec<Value>) -> (r: Option<usize>)
        requires
            self.wf(),
        ensures
            match r {
                Some(j) => j < self.rows().len() && self.rows()[j as int].0 == args@ && has_key(
                    self.rows(),
                    args@,
                ) && key_row(self.rows(), args@) == j,
                None => !has_key(self.rows(), args@),
            },
    {
        let h = fingerprint_of(args);
        match index_get(&self.index, h) {
            None => {
                assert(!has_key(self.rows(), args@)) by {
                    if has_key(self.rows(), args@) {
                        let i = key_row(self.rows(), args@);
                        assert(self.rows()[i].0 == args@);
                        assert(self.rows@[i].0@ == args@);
                        let m = lemma_listed(self.rows@, index_contents(self.index), i);
                    }
                }
                None
            },
            Some(bucket) => {
                let mut k: usize = 0;
                while k < bucket.len()
                    invariant
                        k <= bucket@.len(),
                        self.wf(),
                        h == fingerprint(args@),
                        index_contents(self.index).contains_key(h),
                        bucket@ == index_contents(self.index)[h],
                        forall|m: int| 0 <= m < k ==> self.rows@[bucket@[m] as int].0@ != args@,
                    decreases bucket@.len() - k,
                {
                    let j = bucket[k];
                    proof {
                        lemma_bounded(self.rows@.len(), index_contents(self.index), h, k as int);
                    }
                    if values_equal(&self.rows[j].0, args) {
                        proof {
                            let rows = self.rows();
                            assert(rows[j as int].0 == args@);
                            assert(has_key(rows, args@));
                            let i = key_row(rows, args@);
                            if i != j {
                                if i < j {
                                    assert(rows[i].0 != rows[j as int].0);
                                } else {
                                    assert(rows[j as int].0 != rows[i].0);
                                }
                            }
                        }
                        return Some(j);
                    }
                    k += 1;
                }
                assert(!has_key(self.rows(), args@)) by {
                    if has_key(self.rows(), args@) {
                        let i = key_row(self.rows(), args@);
                        assert(self.rows()[i].0 == args@);
                        assert(self.rows@[i].0@ == args@);
                        let m = lemma_listed(self.rows@, index_contents(self.index), i);
                        assert(self.rows@[bucket@[m] as int].0@ != args@);
                    }
                }
                None
            },
        }
    }

    /// The output stored under `args`, if any.
    pub fn lookup(&self, args: &Vec<Value>) -> (r: Option<Value>)
        requires
            self.wf(),
        ensures
            r == table_get(self.rows(), args@),
    {
        match self.find_row(args) {
            Some(j) => Some(self.rows[j].1),
            None => None,
        }
    }

    fn put(&mut self, args: Vec<Value>, value: Value) -> (r: Option<Value>)
        requires
            old(self).wf(),
            row_typed(old(self).spec_input(), old(self).spec_output(), (args@, value)),
        ensures
            final(self).wf(),
            final(self).rows() == table_set(old(self).rows(), args@, value),
            r == table_get(old(self).rows(), args@),
            final(self).spec_name() == old(self).spec_name(),
            final(self).spec_input() == old(self).spec_input(),
            final(self).spec_output() == old(self).spec_output(),
            final(self).spec_updates() == old(self).spec_updates(),
    {
        match self.find_row(&args) {
            Some(j) => {
                let before = self.rows[j].1;
                let ghost old_rows = self.rows@;
                self.rows.set(j, (args, value));
                proof {
                    assert(self.rows() =~= table_set(old(self).rows(), args@, value));
                    assert forall|a: int, b: int| 0 <= a < b < self.rows().len() implies (
                    #[trigger] self.rows()[a]).0 != (#[trigger] self.rows()[b]).0 by {
                        assert(old(self).rows()[a].0 != old(self).rows()[b].0);
                    }
                    assert forall|a: int| 0 <= a < self.rows().len() implies row_typed(
                        self.input@,
                        self.output,
                        #[trigger] self.rows()[a],
                    ) by {
                        if a != j {
                            assert(row_typed(self.input@, self.output, old(self).rows()[a]));
                        }
                    }
                    let c = index_contents(self.index);
                    assert(index_complete(self.rows@, c)) by {
                        assert forall|i: int| 0 <= i < self.rows@.len() implies c.contains_key(
                            fingerprint((#[trigger] self.rows@[i]).0@),
                        ) && lists(c[fingerprint(self.rows@[i].0@)], i) by {
                            assert(old_rows[i].0@ == self.rows@[i].0@);
                            let m = lemma_listed(old_rows, c, i);
                        }
                        reveal(index_complete);
                    }
                }
                Some(before)
            },
            None => {
                let h = fingerprint_of(&args);
                let n = self.rows.len();
                let ghost old_rows = self.rows@;
                let ghost c0 = index_contents(self.index);
                let mut bucket = match index_remove(&mut self.index, h) {
                    Some(b) => b,
                    None => Vec::new(),
                };
                let ghost b0 = bucket@;
                bucket.push(n);
                let _ = index_insert(&mut self.index, h, bucket);
                self.rows.push((args, value));
                proof {
                    let c1 = index_contents(self.index);
                    assert(c1 == c0.remove(h).insert(h, b0.push(n)));
                    assert(self.rows() =~= table_set(old(self).rows(), args@, value));
                    assert forall|a: int, b: int| 0 <= a < b < self.rows().len() implies (
                    #[trigger] self.rows()[a]).0 != (#[trigger] self.rows()[b]).0 by {
                        if b < n {
                            assert(old(self).rows()[a].0 != old(self).rows()[b].0);
                        } else {
                            assert(old(self).rows()[a].0 != args@);
                        }
                    }
                    assert forall|a: int| 0 <= a < self.rows().len() implies row_typed(
                        self.input@,
                        self.output,
                        #[trigger] self.rows()[a],
                    ) by {
                        if a < n {
                            assert(row_typed(self.input@, self.output, old(self).rows()[a]));
                        }
                    }
                    assert(index_complete(self.rows@, c1)) by {
                        assert forall|i: int| 0 <= i < self.rows@.len() implies c1.contains_key(
                            fingerprint((#[trigger] self.rows@[i]).0@),
                        ) && lists(c1[fingerprint(self.rows@[i].0@)], i) by {
                            if i < n {
                                assert(self.rows@[i] == old_rows[i]);
                                let hi = fingerprint(old_rows[i].0@);
                                let m = lemma_listed(old_rows, c0, i);
                                if hi == h {
                                    assert(b0.push(n)[m] == i);
                                }
                            } else {
                                assert(b0.push(n)[b0.len() as int] == n);
                            }
                        }
                        reveal(index_complete);
                    }
                    assert(index_bounded(self.rows@.len(), c1)) by {
                        assert forall|g: u64, k: int|
                            c1.contains_key(g) && 0 <= k < c1[g].len() implies (
                        #[trigger] c1[g][k]) < self.rows@.len() by {
                            if g == h {
                                if k < b0.len() {
                                    lemma_bounded(old_rows.len(), c0, h, k);
                                }
                            } else {
                                lemma_bounded(old_rows.len(), c0, g, k);
                            }
                        }
                        reveal(index_bounded);
                    }
                }
                None
            },
        }
    }

    /// Stores `value` under `args`, overwriting any prior output, which is
    /// returned. The insertion is counted. The row must fit the schema.
    pub fn insert(&mut self, args: Vec<Value>, value: Value) -> (r: Option<Value>)
        requires
            old(self).wf(),
            row_typed(old(self).spec_input(), old(self).spec_output(), (args@, value)),
        ensures
            final(self).wf(),
            final(self).rows() == table_set(old(self).rows(), args@, value),
            r == table_get(old(self).rows(), args@),
            final(self).spec_name() == old(self).spec_name(),
            final(self).spec_input() == old(self).spec_input(),
            final(self).spec_output() == old(self).spec_output(),
            final(self).spec_updates() == capped_sum(old(self).spec_updates() as int, 1),
    {
        let r = self.put(args, value);
        self.updates = self.updates.saturating_add(1);
        assert(self.rows() == table_set(old(self).rows(), args@, value));
        r
    }
}

/// Brings an argument tuple into canonical form; shortens the paths that
/// it walks, and changes no class.
pub fn canonicalize(uf: &mut UnionFind, input: &Vec<Type>, args: &Vec<Value>) -> (r: Vec<Value>)
    requires
        old(uf).wf(),
    ensures
        final(uf).wf(),
        final(uf)@ == old(uf)@,
        final(uf).spec_n_unions() == old(uf).spec_n_unions(),
        r@ == canon_args(old(uf)@, input@, args@),
{
    let mut out: Vec<Value> = Vec::new();
    let mut i: usize = 0;
    while i < args.len()
        invariant
            i <= args.len(),
            uf.wf(),
            uf@ == old(uf)@,
            uf.spec_n_unions() == old(uf).spec_n_unions(),
            out@.len() == i,
            forall|k: int| 0 <= k < i ==> out@[k] == canon_args(old(uf)@, input@, args@)[k],
        decreases args.len() - i,
    {
        let v = if i < input.len() && input[i].is_sort() {
            uf.find_mut_value(args[i])
        } else {
            args[i]
        };
        out.push(v);
        i += 1;
    }
    assert(out@ =~= canon_args(old(uf)@, input@, args@));
    out
}

impl Function {
    /// Rebuilds the table against the classes of `uf`: every row is
    /// brought into canonical form and stored again, in the order of the
    /// rows; see [`rebuild_step`] for what happens where two rows meet.
    /// `merge` is the merge expression of the function, which reconciles
    /// two rows of a numeric function that meet with different outputs.
    ///
    /// Returns the number of merges of classes this made plus the
    /// insertions counted since the last rebuild, and counts from zero
    /// again. Where two rows cannot be reconciled, the error is returned
    /// and the table stays as it was.
    pub fn rebuild_with(
        &mut self,
        uf: &mut UnionFind,
        merge: Option<&Expr>,
        prims: &Primitives,
        pool: &mut RationalPool,
    ) -> (r: Result<usize, Error>)
        requires
            prims.indexed(),
            old(self).wf(),
            old(uf).wf(),
            old(pool).wf(),
            prims_wf(prims@),
        ensures
            final(self).wf(),
            final(uf).wf(),
            final(pool).wf(),
            final(uf)@ == rebuild_fold(
                old(self).rows(),
                old(self).rows().len() as int,
                old(self).spec_input(),
                old(self).spec_output(),
                merger_of(old(self).spec_name(), merge, prims@),
                old(uf)@,
                old(pool)@,
            ).roots,
            final(pool)@ == rebuild_fold(
                old(self).rows(),
                old(self).rows().len() as int,
                old(self).spec_input(),
                old(self).spec_output(),
                merger_of(old(self).spec_name(), merge, prims@),
                old(uf)@,
                old(pool)@,
            ).pool,
            match r {
                Ok(c) => {
                    &&& rebuild_fold(
                        old(self).rows(),
                        old(self).rows().len() as int,
                        old(self).spec_input(),
                        old(self).spec_output(),
                        merger_of(old(self).spec_name(), merge, prims@),
                        old(uf)@,
                        old(pool)@,
                    ).error is None
                    &&& final(self).rows() == rebuild_fold(
                        old(self).rows(),
                        old(self).rows().len() as int,
                        old(self).spec_input(),
                        old(self).spec_output(),
                        merger_of(old(self).spec_name(), merge, prims@),
                        old(uf)@,
                        old(pool)@,
                    ).rows
                    &&& final(self).spec_updates() == 0
                    &&& c == capped_sum(
                        final(uf).spec_n_unions() - old(uf).spec_n_unions(),
                        old(self).spec_updates() as int,
                    )
                },
                Err(e) => {
                    &&& rebuild_fold(
                        old(self).rows(),
                        old(self).rows().len() as int,
                        old(self).spec_input(),
                        old(self).spec_output(),
                        merger_of(old(self).spec_name(), merge, prims@),
                        old(uf)@,
                        old(pool)@,
                    ).error matches Some(model)
                    &&& same_error(e, model)
                    &&& final(self).rows() == old(self).rows()
                    &&& final(self).spec_updates() == old(self).spec_updates()
                },
            },
            final(self).spec_name() == old(self).spec_name(),
            final(self).spec_input() == old(self).spec_input(),
            final(self).spec_output() == old(self).spec_output(),
            final(uf).spec_n_unions() >= old(uf).spec_n_unions(),
    {
        let n_before = uf.n_unions();
        let counted = self.updates;
        let mut source: Vec<(Vec<Value>, Value)> = Vec::new();
        std::mem::swap(&mut self.rows, &mut source);
        let mut kept = index_new();
        std::mem::swap(&mut self.index, &mut kept);
        self.updates = 0;
        let ghost src = old(self).rows();
        let ghost input = old(self).spec_input();
        let ghost output = old(self).spec_output();
        let ghost m = merger_of(old(self).spec_name(), merge, prims@);
        let ghost goal = rebuild_fold(src, src.len() as int, input, output, m, old(uf)@, old(pool)@);
        proof {
            reveal(index_complete);
            reveal(index_bounded);
            assert(self.rows() =~= Seq::<Row>::empty());
            uf.lemma_wf();
        }
        let mut failed: Option<Error> = None;
        let mut i: usize = 0;
        while i < source.len()
            invariant_except_break
                failed is None,
                (Rebuilt { rows: self.rows(), roots: uf@, pool: pool@, error: None }) == rebuild_fold(
                    src,
                    i as int,
                    input,
                    output,
                    m,
                    old(uf)@,
                    old(pool)@,
                ),
            invariant
                prims.indexed(),
                i <= source@.len(),
                self.wf(),
                uf.wf(),
                pool.wf(),
                prims_wf(prims@),
                rows_typed(input, output, src),
                src.len() == source@.len(),
                source@ == old(self).rows@,
                kept == old(self).index,
                counted == old(self).updates,
                forall|k: int| 0 <= k < source@.len() ==> #[trigger] src[k] == (
                    source@[k].0@,
                    source@[k].1,
                ),
                m == merger_of(old(self).spec_name(), merge, prims@),
                goal == rebuild_fold(src, src.len() as int, input, output, m, old(uf)@, old(pool)@),
                self.spec_name() == old(self).spec_name(),
                self.spec_input() == input,
                self.spec_output() == output,
                self.spec_updates() == 0,
                uf.spec_n_unions() >= n_before,
                n_before == old(uf).spec_n_unions(),
            ensures
                failed is None ==> (Rebuilt {
                    rows: self.rows(),
                    roots: uf@,
                    pool: pool@,
                    error: None,
                }) == goal,
                failed matches Some(e) ==> uf@ == goal.roots && pool@ == goal.pool && (
                goal.error matches Some(model) && same_error(e, model)),
            decreases source@.len() - i,
        {
            proof {
                uf.lemma_wf();
                assert(row_typed(input, output, src[i as int]));
                lemma_canon_args_fit(uf@, input, src[i as int].0);
                lemma_canon_fits(uf@, src[i as int].1, output);
            }
            let key = canonicalize(uf, &self.input, &source[i].0);
            let value = source[i].1;
            let ghost before = Rebuilt { rows: self.rows(), roots: uf@, pool: pool@, error: None };
            assert(src[i as int] == (source@[i as int].0@, value));
            match self.lookup(&key) {
                None => {
                    let v = if self.output.is_sort() {
                        uf.find_mut_value(value)
                    } else {
                        value
                    };
                    let _ = self.put(key, v);
                },
                Some(existing) => {
                    match self.output {
                        Type::Sort(_) => {
                            match uf.union_values(value, existing) {
                                Some(rep) => {
                                    let _ = self.put(key, rep);
                                },
                                None => {},
                            }
                        },
                        Type::NumType(_) => {
                            if existing != value {
                                let outcome = match merge {
                                    None => Err(Error::Type(TypeError::NoMerge(self.name))),
                                    Some(expr) => {
                                        let mut c = Subst::new();
                                        c.insert(Symbol::old_value(), existing);
                                        c.insert(Symbol::new_value(), value);
                                        match pure_eval(prims, pool, &c, expr) {
                                            Err(e) => Err(e),
                                            Ok(v) => if v.fits(self.output) {
                                                Ok(v)
                                            } else {
                                                Err(Error::Type(TypeError::BadOutput(self.name)))
                                            },
                                        }
                                    },
                                };
                                match outcome {
                                    Ok(v) => {
                                        let _ = self.put(key, v);
                                    },
                                    Err(e) => {
                                        proof {
                                            let next = rebuild_step(
                                                before,
                                                input,
                                                output,
                                                m,
                                                src[i as int],
                                            );
                                            assert(next.error matches Some(model) && same_error(
                                                e,
                                                model,
                                            ));
                                            assert(next.roots == uf@ && next.pool == pool@);
                                            lemma_fold_stuck(
                                                src,
                                                i + 1,
                                                src.len() as int,
                                                input,
                                                output,
                                                m,
                                                old(uf)@,
                                                old(pool)@,
                                            );
                                        }
                                        failed = Some(e);
                                        break;
                                    },
                                }
                            }
                        },
                        Type::Unit => {},
                    }
                },
            }
            assert((Rebuilt { rows: self.rows(), roots: uf@, pool: pool@, error: None })
                == rebuild_step(before, input, output, m, src[i as int]));
            i += 1;
        }
        match failed {
            Some(e) => {
                std::mem::swap(&mut self.rows, &mut source);
                std::mem::swap(&mut self.index, &mut kept);
                self.updates = counted;
                proof {
                    assert(self.rows@ == old(self).rows@);
                    assert(self.rows() =~= old(self).rows());
                }
                Err(e)
            },
            None => Ok((uf.n_unions() - n_before).saturating_add(counted)),
        }
    }

    /// Rebuilds the table of a function without a merge expression against
    /// the classes of `uf`; see [`Function::rebuild_with`]. Two rows of a
    /// numeric function that meet with different outputs are an error.
    pub fn rebuild(&mut self, uf: &mut UnionFind) -> (r: Result<usize, Error>)
        requires
            old(self).wf(),
            old(uf).wf(),
        ensures
            final(self).wf(),
            final(uf).wf(),
            final(uf)@ == rebuild_fold(
                old(self).rows(),
                old(self).rows().len() as int,
                old(self).spec_input(),
                old(self).spec_output(),
                merger_of(old(self).spec_name(), None, Seq::empty()),
                old(uf)@,
                Seq::empty(),
            ).roots,
            match r {
                Ok(c) => {
                    &&& rebuild_fold(
                        old(self).rows(),
                        old(self).rows().len() as int,
                        old(self).spec_input(),
                        old(self).spec_output(),
                        merger_of(old(self).spec_name(), None, Seq::empty()),
                        old(uf)@,
                        Seq::empty(),
                    ).error is None
                    &&& final(self).rows() == rebuild_fold(
                        old(self).rows(),
                        old(self).rows().len() as int,
                        old(self).spec_input(),
                        old(self).spec_output(),
                        merger_of(old(self).spec_name(), None, Seq::empty()),
                        old(uf)@,
                        Seq::empty(),
                    ).rows
                    &&& final(self).spec_updates() == 0
                    &&& c == capped_sum(
                        final(uf).spec_n_unions() - old(uf).spec_n_unions(),
                        old(self).spec_updates() as int,
                    )
                },
                Err(e) => {
                    &&& e == Error::Type(TypeError::NoMerge(old(self).spec_name()))
                    &&& rebuild_fold(
                        old(self).rows(),
                        old(self).rows().len() as int,
                        old(self).spec_input(),
                        old(self).spec_output(),
                        merger_of(old(self).spec_name(), None, Seq::empty()),
                        old(uf)@,
                        Seq::empty(),
                    ).error == Some(e)
                    &&& final(self).rows() == old(self).rows()
                    &&& final(self).spec_updates() == old(self).spec_updates()
                },
            },
            final(self).spec_name() == old(self).spec_name(),
            final(self).spec_input() == old(self).spec_input(),
            final(self).spec_output() == old(self).spec_output(),
            final(uf).spec_n_unions() >= old(uf).spec_n_unions(),
    {
        let prims = Primitives::from_list(Vec::new());
        let mut pool = RationalPool::new();
        let ghost goal = rebuild_fold(
            self.rows(),
            self.rows().len() as int,
            self.spec_input(),
            self.spec_output(),
            merger_of(self.spec_name(), None, Seq::empty()),
            uf@,
            Seq::empty(),
        );
        let r = self.rebuild_with(uf, None, &prims, &mut pool);
        proof {
            if r is Err {
                lemma_no_merge_error(
                    old(self).rows(),
                    old(self).rows().len() as int,
                    old(self).spec_input(),
                    old(self).spec_output(),
                    merger_of(old(self).spec_name(), None, Seq::empty()),
                    old(uf)@,
                    Seq::empty(),
                );
            }
        }
        r
    }
}

/// Without a merge expression the only error of a rebuild is that two rows
/// could not be reconciled.
pub proof fn lemma_no_merge_error(
    source: Seq<Row>,
    n: int,
    input: Seq<Type>,
    output: Type,
    m: Merger,
    r: Seq<int>,
    pool: Seq<(int, int)>,
)
    requires
        m.merge is None,
    ensures
        rebuild_fold(source, n, input, output, m, r, pool).error matches Some(e) ==> e
            == Error::Type(TypeError::NoMerge(m.name)),
    decreases n,
{
    if n > 0 {
        lemma_no_merge_error(source, n - 1, input, output, m, r, pool);
    }
}

} // verus!
