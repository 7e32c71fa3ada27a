//! The mutable state of the graph: classes, rationals, tables and globals.

use crate::ast::FunctionDecl;
use crate::function::{
    canon_args, capped_sum, keys_distinct, row_canonical, row_typed, table_get, Function,
};
use crate::model::{
    function_index, has_function, lemma_function_index, names_distinct, same_schemas, StateModel,
    TableModel,
};
use crate::primitive::{handles_known, prim_result, Primitive, Primitives};
use crate::rational::RationalPool;
use crate::error::{same_error, Error};
use crate::eval::env_of;
use crate::function::merger_of;
use crate::index::NameIndex;
use crate::merge::prims_wf;
use crate::rebuild::{
    coarsens, lemma_pass, lemma_pass_idempotent, lemma_pass_progress, pass_count, pass_error,
    pass_spec, rebuild_table, settle_count, settle_error, settle_fuel, settle_measure,
    settle_spec, table_count, table_merger,
};
use crate::symbol::Symbol;
use crate::unionfind::{canon_value, is_known_class, merged_root, UnionFind};
use crate::value::{Id, Type, Value};
use vstd::prelude::*;

verus! {

/// The classes, the pool of rationals, the tables and the global bindings.
pub struct State {
    unionfind: UnionFind,
    rationals: RationalPool,
    functions: Vec<Function>,
    names: NameIndex,
    global_at: NameIndex,
    global_values: Vec<Value>,
}

/// The model of one table.
pub open spec fn table_model(f: Function) -> TableModel {
    TableModel {
        name: f.spec_name(),
        input: f.spec_input(),
        output: f.spec_output(),
        rows: f.rows(),
        updates: f.spec_updates(),
    }
}

impl State {
    /// The model of the state.
    pub closed spec fn view(&self) -> StateModel {
        StateModel {
            roots: self.unionfind@,
            unions: self.unionfind.spec_n_unions(),
            pool: self.rationals@,
            tables: Seq::new(self.functions@.len(), |i: int| table_model(self.functions@[i])),
            globals: Map::new(
                |s: Symbol| self.global_at@.contains_key(s),
                |s: Symbol| self.global_values@[self.global_at@[s] as int],
            ),
        }
    }

    /// The invariant of the state.
    pub closed spec fn wf(&self) -> bool {
        &&& self.unionfind.wf()
        &&& self.rationals.wf()
        &&& forall|i: int| 0 <= i < self.functions@.len() ==> (#[trigger] self.functions@[i]).wf()
        &&& names_distinct(self@.tables)
        &&& self.names.wf()
        &&& self.global_at.wf()
        &&& forall|s: Symbol| #[trigger]
            self.global_at@.contains_key(s) ==> self.global_at@[s] < self.global_values@.len()
        &&& forall|i: int|
            0 <= i < self.functions@.len() ==> self.names@.contains_key(
                (#[trigger] self.functions@[i]).spec_name(),
            ) && self.names@[self.functions@[i].spec_name()] == i
        &&& forall|s: Symbol| #[trigger]
            self.names@.contains_key(s) ==> self.names@[s] < self.functions@.len()
                && self.functions@[self.names@[s] as int].spec_name() == s
    }

    /// What the invariant says of the model.
    pub proof fn lemma_wf(&self)
        requires
            self.wf(),
        ensures
            self@.wf(),
    {
        self.unionfind.lemma_wf();
        self.rationals.lemma_wf();
        assert forall|i: int| 0 <= i < self@.tables.len() implies keys_distinct(
            (#[trigger] self@.tables[i]).rows,
        ) by {
            self.functions@[i].lemma_wf();
        }
        assert forall|i: int| 0 <= i < self@.tables.len() implies (#[trigger] self@.tables[i]).typed() by {
            self.functions@[i].lemma_wf();
        }
    }

    /// A state without classes, rationals, tables or globals.
    pub fn new() -> (s: Self)
        ensures
            s.wf(),
            s@.roots.len() == 0,
            s@.unions == 0,
            s@.pool.len() == 0,
            s@.tables.len() == 0,
            s@.globals == Map::<Symbol, Value>::empty(),
    {
        let s = State {
            unionfind: UnionFind::new(),
            rationals: RationalPool::new(),
            functions: Vec::new(),
            names: NameIndex::new(),
            global_at: NameIndex::new(),
            global_values: Vec::new(),
        };
        assert(s@.globals =~= Map::<Symbol, Value>::empty());
        s
    }

    /// The number of tables.
    pub fn num_functions(&self) -> (n: usize)
        ensures
            n == self@.tables.len(),
    {
        self.functions.len()
    }

    /// The number of class identifiers handed out.
    pub fn num_ids(&self) -> (n: usize)
        ensures
            n == self@.roots.len(),
    {
        self.unionfind.len()
    }

    /// The number of merges that joined two different classes.
    pub fn n_unions(&self) -> (n: usize)
        ensures
            n == self@.unions,
    {
        self.unionfind.n_unions()
    }

    /// The table at position `fi`.
    pub fn function(&self, fi: usize) -> (f: &Function)
        requires
            fi < self@.tables.len(),
        ensures
            table_model(*f) == self@.tables[fi as int],
            self.wf() ==> f.wf(),
    {
        &self.functions[fi]
    }

    /// The position of the table named `op`, if there is one.
    pub fn find_function(&self, op: Symbol) -> (r: Option<usize>)
        requires
            self.wf(),
        ensures
            match r {
                Some(fi) => has_function(self@.tables, op) && fi == function_index(
                    self@.tables,
                    op,
                ) && fi < self@.tables.len() && self@.tables[fi as int].name == op,
                None => !has_function(self@.tables, op),
            },
    {
        match self.names.get(op) {
            Some(fi) => {
                proof {
                    assert(self@.tables[fi as int].name == op);
                    lemma_function_index(self@.tables, fi as int);
                }
                Some(fi)
            },
            None => {
                proof {
                    assert forall|k: int| 0 <= k < self@.tables.len() implies (
                    #[trigger] self@.tables[k]).name != op by {
                        assert(self.names@.contains_key(self.functions@[k].spec_name()));
                    }
                }
                None
            },
        }
    }

    /// The output stored under `args` in table `fi`, if any.
    pub fn lookup(&self, fi: usize, args: &Vec<Value>) -> (r: Option<Value>)
        requires
            self.wf(),
            fi < self@.tables.len(),
        ensures
            r == table_get(self@.tables[fi as int].rows, args@),
    {
        self.functions[fi].lookup(args)
    }

    /// The types of the arguments of table `fi`.
    pub fn input(&self, fi: usize) -> (t: &Vec<Type>)
        requires
            fi < self@.tables.len(),
        ensures
            t@ == self@.tables[fi as int].input,
    {
        self.functions[fi].input()
    }

    /// The type of the output of table `fi`.
    pub fn output(&self, fi: usize) -> (t: Type)
        requires
            fi < self@.tables.len(),
        ensures
            t == self@.tables[fi as int].output,
    {
        self.functions[fi].output()
    }

    /// Stores `value` under `args` in table `fi` and counts the insertion.
    /// Returns the output that was stored before, if any. The row must fit
    /// the schema of the table.
    pub fn insert(&mut self, fi: usize, args: Vec<Value>, value: Value) -> (r: Option<Value>)
        requires
            old(self).wf(),
            fi < old(self)@.tables.len(),
            row_typed(
                old(self)@.tables[fi as int].input,
                old(self)@.tables[fi as int].output,
                (args@, value),
            ),
        ensures
            final(self).wf(),
            final(self)@ == old(self)@.with_row(fi as int, args@, value),
            r == table_get(old(self)@.tables[fi as int].rows, args@),
    {
        let r = self.functions[fi].insert(args, value);
        proof {
            assert(self@.tables =~= old(self)@.with_row(fi as int, args@, value).tables);
            assert(names_distinct(self@.tables)) by {
                assert forall|i: int, j: int| 0 <= i < j < self@.tables.len() implies (
                #[trigger] self@.tables[i]).name != (#[trigger] self@.tables[j]).name by {
                    assert(old(self)@.tables[i].name != old(self)@.tables[j].name);
                }
            }
        }
        r
    }

    /// Allocates a fresh class.
    pub fn make_set(&mut self) -> (id: Id)
        requires
            old(self).wf(),
        ensures
            final(self).wf(),
            final(self)@ == old(self)@.fresh_class(),
            id.0 == old(self)@.roots.len(),
    {
        let id = self.unionfind.make_set();
        assert(self@.tables =~= old(self)@.tables);
        id
    }

    /// The representative of a value.
    pub fn find_value(&self, v: Value) -> (r: Value)
        requires
            self.wf(),
        ensures
            r == canon_value(self@.roots, v),
    {
        self.unionfind.find_value(v)
    }

    /// The representative of the class of `id`.
    pub fn find(&self, id: Id) -> (r: Id)
        requires
            self.wf(),
            id.0 < self@.roots.len(),
        ensures
            r.0 == self@.roots[id.0 as int],
    {
        self.unionfind.find(id)
    }

    /// Merges the classes of two identifiers and returns the
    /// representative of the merged class.
    pub fn union(&mut self, a: Id, b: Id) -> (r: Id)
        requires
            old(self).wf(),
            a.0 < old(self)@.roots.len(),
            b.0 < old(self)@.roots.len(),
        ensures
            final(self).wf(),
            final(self)@ == old(self)@.merged(a.0 as int, b.0 as int),
            r.0 == merged_root(old(self)@.roots, a.0 as int, b.0 as int),
    {
        let r = self.unionfind.union(a, b);
        assert(self@.tables =~= old(self)@.tables);
        r
    }

    /// Merges the classes of two values. Only class identifiers that were
    /// handed out can be merged: for anything else nothing is returned and
    /// nothing changes.
    pub fn union_values(&mut self, a: Value, b: Value) -> (r: Option<Value>)
        requires
            old(self).wf(),
        ensures
            final(self).wf(),
            match r {
                Some(v) => {
                    &&& is_known_class(old(self)@.roots, a)
                    &&& is_known_class(old(self)@.roots, b)
                    &&& final(self)@ == old(self)@.merged(a->Id_0.0 as int, b->Id_0.0 as int)
                    &&& v == Value::Id(
                        Id(merged_root(old(self)@.roots, a->Id_0.0 as int, b->Id_0.0 as int) as usize),
                    )
                },
                None => {
                    &&& !(is_known_class(old(self)@.roots, a) && is_known_class(
                        old(self)@.roots,
                        b,
                    ))
                    &&& final(self)@ == old(self)@
                },
            },
    {
        let r = self.unionfind.union_values(a, b);
        assert(self@.tables =~= old(self)@.tables);
        r
    }

    /// The global binding of `var`, if any.
    pub fn global(&self, var: Symbol) -> (r: Option<Value>)
        requires
            self.wf(),
        ensures
            r == if self@.globals.contains_key(var) {
                Some(self@.globals[var])
            } else {
                None
            },
    {
        match self.global_at.get(var) {
            Some(at) => Some(self.global_values[at]),
            None => None,
        }
    }

    /// Binds `var` globally.
    pub fn define_global(&mut self, var: Symbol, value: Value)
        requires
            old(self).wf(),
        ensures
            final(self).wf(),
            final(self)@ == old(self)@.with_global(var, value),
    {
        let at = self.global_values.len();
        self.global_values.push(value);
        self.global_at.set(var, at);
        proof {
            assert(self@.tables =~= old(self)@.tables);
            assert(self@.globals =~= old(self)@.globals.insert(var, value));
        }
    }

    /// Whether every rational among the values is a handle of the pool.
    pub fn handles_known(&self, values: &Vec<Value>) -> (b: bool)
        ensures
            b == handles_known(self@.pool, values@),
    {
        let n = self.rationals.len();
        let mut i: usize = 0;
        while i < values.len()
            invariant
                i <= values@.len(),
                n == self@.pool.len(),
                forall|k: int|
                    0 <= k < i ==> ((#[trigger] values@[k]) matches Value::Rational(r) ==> r.0
                        < self@.pool.len()),
            decreases values@.len() - i,
        {
            match values[i] {
                Value::Rational(r) => {
                    if r.0 >= n {
                        return false;
                    }
                },
                _ => {},
            }
            i += 1;
        }
        true
    }

    /// Applies a primitive to values that it takes.
    pub fn apply_primitive(&mut self, prim: &Primitive, values: &Vec<Value>) -> (v: Value)
        requires
            old(self).wf(),
            prim.wf(),
            prim.spec_accept(values@),
            handles_known(old(self)@.pool, values@),
        ensures
            final(self).wf(),
            final(self)@ == (StateModel {
                pool: prim_result(prim.spec_op(), old(self)@.pool, values@).0,
                ..old(self)@
            }),
            v == prim_result(prim.spec_op(), old(self)@.pool, values@).1,
    {
        let v = prim.apply(values.as_slice(), &mut self.rationals);
        assert(self@.tables =~= old(self)@.tables);
        v
    }

    /// The rational of a handle, if the pool has it.
    pub fn rational_number(&self, id: crate::value::RatId) -> (r: Option<&crate::rational::Rational>)
        ensures
            match r {
                Some(q) => id.0 < self@.pool.len() && q@ == self@.pool[id.0 as int],
                None => id.0 >= self@.pool.len(),
            },
    {
        if id.0 < self.rationals.len() {
            Some(self.rationals.number(id))
        } else {
            None
        }
    }

    /// Interns the rational `n / d` of two integers of any size, given as
    /// little-endian two's-complement bytes; a zero denominator gives
    /// nothing.
    pub fn rational_wide(&mut self, n: &Vec<u8>, d: &Vec<u8>) -> (r: Option<crate::value::RatId>)
        requires
            old(self).wf(),
        ensures
            final(self).wf(),
            crate::rational::signed_le(d@) == 0 <==> r is None,
            final(self)@ == (StateModel {
                pool: if crate::rational::signed_le(d@) == 0 {
                    old(self)@.pool
                } else {
                    crate::rational::pool_with(
                        old(self)@.pool,
                        crate::rational::normalize(
                            crate::rational::signed_le(n@),
                            crate::rational::signed_le(d@),
                        ),
                    )
                },
                ..old(self)@
            }),
            r matches Some(id) ==> id.0 == crate::rational::pool_handle(
                old(self)@.pool,
                crate::rational::normalize(
                    crate::rational::signed_le(n@),
                    crate::rational::signed_le(d@),
                ),
            ) && id.0 < final(self)@.pool.len(),
    {
        let r = self.rationals.make_wide(n, d);
        assert(self@.tables =~= old(self)@.tables);
        r
    }

    /// Interns the rational `n / d`; a zero denominator gives nothing.
    pub fn rational(&mut self, n: i64, d: i64) -> (r: Option<crate::value::RatId>)
        requires
            old(self).wf(),
        ensures
            final(self).wf(),
            d == 0 <==> r is None,
            final(self)@.roots == old(self)@.roots,
            final(self)@.unions == old(self)@.unions,
            final(self)@.tables == old(self)@.tables,
            final(self)@.globals == old(self)@.globals,
            final(self)@.pool == (if d == 0 {
                old(self)@.pool
            } else {
                crate::rational::pool_with(
                    old(self)@.pool,
                    crate::rational::normalize(n as int, d as int),
                )
            }),
            r matches Some(id) ==> id.0 == crate::rational::pool_handle(
                old(self)@.pool,
                crate::rational::normalize(n as int, d as int),
            ) && id.0 < final(self)@.pool.len(),
    {
        let r = self.rationals.make(n, d);
        assert(self@.tables =~= old(self)@.tables);
        r
    }

    /// Adds an empty table for the declared function, whose name no table
    /// has yet.
    pub fn add_function(&mut self, decl: &FunctionDecl)
        requires
            old(self).wf(),
            !has_function(old(self)@.tables, decl.name),
        ensures
            final(self).wf(),
            final(self)@ == (StateModel {
                tables: old(self)@.tables.push(
                    TableModel {
                        name: decl.name,
                        input: decl.schema.input@,
                        output: decl.schema.output,
                        rows: Seq::empty(),
                        updates: 0,
                    },
                ),
                ..old(self)@
            }),
    {
        let f = Function::new(decl);
        let at = self.functions.len();
        self.functions.push(f);
        self.names.set(decl.name, at);
        proof {
            assert forall|i: int| 0 <= i < self.functions@.len() implies self.names@.contains_key(
                (#[trigger] self.functions@[i]).spec_name(),
            ) && self.names@[self.functions@[i].spec_name()] == i by {
                if i < at {
                    assert(self.functions@[i] == old(self).functions@[i]);
                    assert(old(self)@.tables[i].name == old(self).functions@[i].spec_name());
                }
            }
            let t = TableModel {
                name: decl.name,
                input: decl.schema.input@,
                output: decl.schema.output,
                rows: Seq::empty(),
                updates: 0,
            };
            assert(self@.tables =~= old(self)@.tables.push(t));
            assert forall|i: int, j: int| 0 <= i < j < self@.tables.len() implies (
            #[trigger] self@.tables[i]).name != (#[trigger] self@.tables[j]).name by {
                if j < old(self)@.tables.len() {
                    assert(old(self)@.tables[i].name != old(self)@.tables[j].name);
                } else {
                    assert(old(self)@.tables[i].name == self@.tables[i].name);
                }
            }
        }
    }
}

impl State {
    /// Rebuilds every table once, in order, each with the merge expression
    /// of its declaration. Returns what the tables report in all: the
    /// classes merged away plus the insertions counted. A table whose rows
    /// cannot be reconciled stays as it was; the first such error is
    /// returned after all tables were tried.
    pub fn rebuild_one(&mut self, decls: &Vec<FunctionDecl>, prims: &Primitives) -> (r: Result<
        usize,
        Error,
    >)
        requires
            prims.indexed(),
            old(self).wf(),
            env_of(decls@, prims@).fits(old(self)@.tables),
        ensures
            final(self).wf(),
            final(self)@ == pass_spec(
                env_of(decls@, prims@),
                old(self)@,
                old(self)@.tables.len() as int,
            ),
            match r {
                Ok(c) => pass_error(
                    env_of(decls@, prims@),
                    old(self)@,
                    old(self)@.tables.len() as int,
                ) is None && c == pass_count(
                    env_of(decls@, prims@),
                    old(self)@,
                    old(self)@.tables.len() as int,
                ),
                Err(e) => {
                    &&& pass_error(
                        env_of(decls@, prims@),
                        old(self)@,
                        old(self)@.tables.len() as int,
                    ) matches Some(model)
                    &&& same_error(e, model)
                },
            },
    {
        let ghost env = env_of(decls@, prims@);
        let mut total: usize = 0;
        let mut first: Option<Error> = None;
        let mut k: usize = 0;
        let n = self.functions.len();
        proof {
            self.lemma_wf();
            assert(prims_wf(prims@)) by {
                assert forall|i: int| 0 <= i < prims@.len() implies (#[trigger] prims@[i]).wf() by {
                    assert(env.prims[i].wf());
                }
            }
        }
        while k < n
            invariant
                prims.indexed(),
                k <= n,
                n == old(self)@.tables.len(),
                n == decls@.len(),
                env == env_of(decls@, prims@),
                prims_wf(prims@),
                self.wf(),
                old(self)@.wf(),
                self@ == pass_spec(env, old(self)@, k as int),
                total == pass_count(env, old(self)@, k as int),
                match first {
                    None => pass_error(env, old(self)@, k as int) is None,
                    Some(e) => {
                        &&& pass_error(env, old(self)@, k as int) matches Some(model)
                        &&& same_error(e, model)
                    },
                },
            decreases n - k,
        {
            let ghost before = self@;
            proof {
                lemma_pass(env, old(self)@, k as int);
                lemma_pass(env, old(self)@, k + 1);
                self.unionfind.lemma_wf();
            }
            let merge = match &decls[k].merge {
                Some(m) => Some(m),
                None => None,
            };
            let r = self.functions[k].rebuild_with(
                &mut self.unionfind,
                merge,
                prims,
                &mut self.rationals,
            );
            proof {
                self.unionfind.lemma_wf();
                let after = rebuild_table(env, before, k as int);
                assert(table_merger(env, before, k as int) == merger_of(
                    before.tables[k as int].name,
                    merge,
                    prims@,
                ));
                assert(self@.tables =~= after.tables);
                assert(self@ == after);
                assert(names_distinct(self@.tables));
            }
            match r {
                Ok(c) => {
                    assert(c == table_count(env, before, k as int));
                    total = total.saturating_add(c);
                },
                Err(e) => {
                    assert(table_count(env, before, k as int) == 0);
                    if first.is_none() {
                        first = Some(e);
                    }
                },
            }
            k += 1;
        }
        match first {
            None => Ok(total),
            Some(e) => Err(e),
        }
    }

    /// Rebuilds all tables again and again until a pass reports nothing,
    /// and returns what the passes reported in all.
    ///
    /// Afterwards every row of every table is in canonical form and no
    /// insertion is counted. Classes are only merged, never split, and no
    /// identifier is added. A rebuild of a state that is in canonical form
    /// with no insertion counted changes nothing and returns zero.
    ///
    /// Where two rows of a numeric function meet with different outputs
    /// and cannot be reconciled, the rebuild ends after the pass that met
    /// them and returns the error; see [`crate::function::reconcile_rows`].
    pub fn rebuild(&mut self, decls: &Vec<FunctionDecl>, prims: &Primitives) -> (r: Result<
        usize,
        Error,
    >)
        requires
            prims.indexed(),
            old(self).wf(),
            env_of(decls@, prims@).fits(old(self)@.tables),
        ensures
            final(self).wf(),
            env_of(decls@, prims@).fits(final(self)@.tables),
            final(self)@ == settle_spec(env_of(decls@, prims@), old(self)@, settle_fuel(old(self)@)),
            match r {
                Ok(c) => {
                    &&& settle_error(
                        env_of(decls@, prims@),
                        old(self)@,
                        settle_fuel(old(self)@),
                    ) is None
                    &&& c == settle_count(
                        env_of(decls@, prims@),
                        old(self)@,
                        settle_fuel(old(self)@),
                    )
                    &&& final(self)@.canonical()
                    &&& final(self)@.settled()
                },
                Err(e) => {
                    &&& settle_error(
                        env_of(decls@, prims@),
                        old(self)@,
                        settle_fuel(old(self)@),
                    ) matches Some(model)
                    &&& same_error(e, model)
                },
            },
            same_schemas(old(self)@.tables, final(self)@.tables),
            coarsens(old(self)@.roots, final(self)@.roots),
            final(self)@.classes() <= old(self)@.classes(),
            final(self)@.unions >= old(self)@.unions,
            final(self)@.globals == old(self)@.globals,
            old(self)@.canonical() && old(self)@.settled() ==> r == Ok::<usize, Error>(0),
            old(self)@.canonical() && old(self)@.settled() ==> final(self)@ == old(self)@,
    {
        let ghost env = env_of(decls@, prims@);
        let ghost start = self@;
        let ghost mut fuel: nat = settle_fuel(start);
        proof {
            self.lemma_wf();
            assert(coarsens(start.roots, start.roots));
            if start.canonical() && start.settled() {
                lemma_pass_idempotent(env, start, start.tables.len() as int);
            }
        }
        let mut total: usize = 0;
        let mut outcome: Result<usize, Error> = Ok(0);
        loop
            invariant_except_break
                fuel >= settle_measure(self@) + 1,
                settle_spec(env, start, settle_fuel(start)) == settle_spec(env, self@, fuel),
                settle_error(env, start, settle_fuel(start)) == settle_error(env, self@, fuel),
                settle_count(env, start, settle_fuel(start)) == capped_sum(
                    total as int,
                    settle_count(env, self@, fuel),
                ),
                start.canonical() && start.settled() ==> self@ == start && total == 0,
            invariant
                prims.indexed(),
                self.wf(),
                self@.wf(),
                start.wf(),
                start == old(self)@,
                env == env_of(decls@, prims@),
                env.fits(self@.tables),
                same_schemas(start.tables, self@.tables),
                coarsens(start.roots, self@.roots),
                self@.classes() <= start.classes(),
                self@.unions >= start.unions,
                self@.globals == start.globals,
            ensures
                self@ == settle_spec(env, start, settle_fuel(start)),
                match outcome {
                    Ok(c) => {
                        &&& settle_error(env, start, settle_fuel(start)) is None
                        &&& c == settle_count(env, start, settle_fuel(start))
                        &&& self@.canonical()
                        &&& self@.settled()
                    },
                    Err(e) => {
                        &&& settle_error(env, start, settle_fuel(start)) matches Some(model)
                        &&& same_error(e, model)
                    },
                },
                start.canonical() && start.settled() ==> outcome == Ok::<usize, Error>(0) && self@
                    == start,
            decreases fuel,
        {
            let ghost before = self@;
            let r = self.rebuild_one(decls, prims);
            proof {
                let n = before.tables.len() as int;
                lemma_pass(env, before, n);
                crate::rebuild::lemma_coarsens_trans(start.roots, before.roots, self@.roots);
                assert(same_schemas(start.tables, self@.tables)) by {
                    assert forall|i: int| 0 <= i < start.tables.len() implies (
                    #[trigger] start.tables[i]).name == self@.tables[i].name
                        && start.tables[i].input == self@.tables[i].input
                        && start.tables[i].output == self@.tables[i].output by {
                        assert(before.tables[i].name == self@.tables[i].name);
                    }
                }
                assert(env.fits(self@.tables)) by {
                    assert forall|i: int| 0 <= i < self@.tables.len() implies (
                    #[trigger] env.decls[i]).name == self@.tables[i].name && env.decls[i].input
                        == self@.tables[i].input && env.decls[i].output
                        == self@.tables[i].output by {
                        assert(before.tables[i].name == self@.tables[i].name);
                    }
                }
                if start.canonical() && start.settled() {
                    lemma_pass_idempotent(env, start, start.tables.len() as int);
                }
            }
            match r {
                Err(e) => {
                    outcome = Err(e);
                    break;
                },
                Ok(c) => {
                    if c == 0 {
                        proof {
                            assert(self@.canonical()) by {
                                assert forall|i: int| 0 <= i < self@.tables.len() implies (
                                #[trigger] self@.tables[i]).canonical(self@.roots) by {
                                    assert(self@.tables[i].canonical(before.roots));
                                }
                            }
                        }
                        outcome = Ok(total);
                        break;
                    }
                    proof {
                        lemma_pass_progress(env, before);
                        crate::rebuild::lemma_settle_count(env, self@, (fuel - 1) as nat);
                    }
                    total = total.saturating_add(c);
                    proof {
                        fuel = (fuel - 1) as nat;
                    }
                },
            }
        }
        outcome
    }
}

impl State {
    /// Whether row `r` of table `fi` is in canonical form.
    fn row_is_canonical(&self, fi: usize, r: usize) -> (b: bool)
        requires
            self.wf(),
            fi < self@.tables.len(),
            r < self@.tables[fi as int].rows.len(),
        ensures
            b == row_canonical(
                self@.roots,
                self@.tables[fi as int].input,
                self@.tables[fi as int].output,
                self@.tables[fi as int].rows[r as int],
            ),
    {
        let f = &self.functions[fi];
        let args = f.row_args(r);
        let input = f.input();
        let ghost t = self@.tables[fi as int];
        let ghost row = t.rows[r as int];
        let ghost canon = canon_args(self@.roots, t.input, row.0);
        let mut p: usize = 0;
        while p < args.len()
            invariant
                p <= args@.len(),
                self.wf(),
                fi < self@.tables.len(),
                t == self@.tables[fi as int],
                r < t.rows.len(),
                row == t.rows[r as int],
                args@ == row.0,
                input@ == t.input,
                canon == canon_args(self@.roots, t.input, row.0),
                forall|x: int| 0 <= x < p ==> canon[x] == row.0[x],
            decreases args@.len() - p,
        {
            if p < input.len() && input[p].is_sort() {
                if self.unionfind.find_value(args[p]) != args[p] {
                    assert(canon[p as int] != row.0[p as int]);
                    return false;
                }
            }
            p += 1;
        }
        assert(canon =~= row.0);
        if f.output().is_sort() {
            let v = f.row_value(r);
            self.unionfind.find_value(v) == v
        } else {
            true
        }
    }

    /// Whether every row of every table is in canonical form: every
    /// argument at a sort position is its own representative, and so is
    /// every output of a sort.
    pub fn is_canonical(&self) -> (b: bool)
        requires
            self.wf(),
        ensures
            b == self@.canonical(),
    {
        let mut fi: usize = 0;
        while fi < self.functions.len()
            invariant
                fi <= self@.tables.len(),
                self.wf(),
                forall|x: int| 0 <= x < fi ==> (#[trigger] self@.tables[x]).canonical(self@.roots),
            decreases self@.tables.len() - fi,
        {
            let n = self.functions[fi].len();
            let ghost t = self@.tables[fi as int];
            let mut r: usize = 0;
            while r < n
                invariant
                    r <= n,
                    fi < self@.tables.len(),
                    t == self@.tables[fi as int],
                    n == t.rows.len(),
                    self.wf(),
                    forall|y: int|
                        0 <= y < r ==> row_canonical(
                            self@.roots,
                            t.input,
                            t.output,
                            #[trigger] t.rows[y],
                        ),
                decreases n - r,
            {
                if !self.row_is_canonical(fi, r) {
                    assert(!t.canonical(self@.roots));
                    return false;
                }
                r += 1;
            }
            fi += 1;
        }
        true
    }

    /// The rows of table `fi`, each as one tuple: the arguments, then the
    /// output.
    pub fn tuples(&self, fi: usize) -> (out: Vec<Vec<Value>>)
        requires
            fi < self@.tables.len(),
        ensures
            out@.len() == self@.tables[fi as int].rows.len(),
            forall|r: int|
                0 <= r < out@.len() ==> (#[trigger] out@[r])@ == self@.tables[fi as int].rows[r].0.push(
                    self@.tables[fi as int].rows[r].1,
                ),
    {
        let f = &self.functions[fi];
        let ghost rows = self@.tables[fi as int].rows;
        let mut out: Vec<Vec<Value>> = Vec::new();
        let mut r: usize = 0;
        while r < f.len()
            invariant
                r <= rows.len(),
                rows == f.rows(),
                out@.len() == r,
                forall|y: int| 0 <= y < r ==> (#[trigger] out@[y])@ == rows[y].0.push(rows[y].1),
            decreases rows.len() - r,
        {
            let args = f.row_args(r);
            let mut tuple: Vec<Value> = Vec::new();
            let mut p: usize = 0;
            while p < args.len()
                invariant
                    p <= args@.len(),
                    tuple@ == args@.subrange(0, p as int),
                decreases args@.len() - p,
            {
                tuple.push(args[p]);
                assert(tuple@ =~= args@.subrange(0, p + 1));
                p += 1;
            }
            assert(args@.subrange(0, args@.len() as int) =~= args@);
            tuple.push(f.row_value(r));
            out.push(tuple);
            r += 1;
        }
        out
    }
}

} // verus!
