//! The graph: declarations, rules and state behind one interface.

use crate::action::{
    advances, check, check_spec, ctx_view, eval_actions, eval_actions_spec, union_exprs,
    union_exprs_spec,
};
use crate::ast::{
    lemma_below_mono, lemma_not_below, lemma_top_var, node_count, occurs, top_var, Action, Expr, Fact,
    FunctionDecl, Rewrite, Rule, Schema,
};
use crate::error::{same_error, same_outcome, Error, TypeError};
use crate::eval::{env_of, eval, eval_spec, grows};
use crate::index::{NameIndex, NameList};
use crate::extract::{extract, term_class};
use crate::gj::{is_solution, lists_of, run_query};
use crate::model::{
    decl_model, function_index, has_function, same_schemas, DeclModel, Env, StateModel, TableModel,
};
use crate::primitive::{are_default, default_primitives, Primitives};
use crate::query::{compile_spec, facts_clash, Query, QueryModel};
use crate::rational::{normalize, pool_handle, pool_with, signed_le};
use crate::rebuild::{coarsens, settle_count, settle_error, settle_fuel, settle_spec};
use crate::rules::{
    rule_models, rules_wf, run_error, run_failures, run_rules, run_spec, same_failures,
    step_failures,
    step_rules, step_spec, CompiledRule, RuleModel,
};
use crate::state::State;
use crate::subst::Subst;
use crate::symbol::{reserved_names, Symbol, SymbolTable};
use crate::typecheck::{
    check_decl, check_query, query_error_list, schema_errors, schema_ok,
    well_typed,
};
use crate::unionfind::{canon_value, is_known_class, merged_root};
use crate::value::{Id, RatId, Type, Value};
use vstd::prelude::*;

verus! {

/// Whether every name stands for a position below `n`.
pub open spec fn names_bound(named: Map<Symbol, usize>, n: nat) -> bool {
    forall|s: Symbol| #[trigger] named.contains_key(s) ==> named[s] < n
}

/// The model of a graph.
pub struct GraphModel {
    pub symbols: Seq<Seq<char>>,
    pub sorts: Seq<Symbol>,
    pub constructors: Seq<Seq<Symbol>>,
    pub env: Env,
    pub rules: Seq<RuleModel>,
    pub named: Map<Symbol, usize>,
    pub state: StateModel,
}

impl GraphModel {
    /// How many defaults may be open at once during an evaluation: as many
    /// as there are functions.
    pub open spec fn fuel(self) -> nat {
        self.env.decls.len()
    }

    /// The invariant of a graph.
    pub open spec fn wf(self) -> bool {
        &&& self.state.wf()
        &&& self.env.fits(self.state.tables)
        &&& rules_wf(self.rules)
        &&& names_bound(self.named, self.rules.len())
        &&& self.sorts.no_duplicates()
        &&& self.constructors.len() == self.sorts.len()
        &&& reserved_names().is_prefix_of(self.symbols)
        &&& self.symbols.no_duplicates()
    }

    /// The graph with another state.
    pub open spec fn with_state(self, st: StateModel) -> GraphModel {
        GraphModel { state: st, ..self }
    }
}

/// An equality-saturation graph.
pub struct EGraph {
    symbols: SymbolTable,
    sorts: NameList,
    constructors: Vec<Vec<Symbol>>,
    decls: Vec<FunctionDecl>,
    primitives: Primitives,
    rules: Vec<CompiledRule>,
    rule_at: NameIndex,
    state: State,
}

impl EGraph {
    /// The model of the graph.
    pub closed spec fn view(&self) -> GraphModel {
        GraphModel {
            symbols: self.symbols@,
            sorts: self.sorts@,
            constructors: Seq::new(self.constructors@.len(), |i: int| self.constructors@[i]@),
            env: env_of(self.decls@, self.primitives@),
            rules: rule_models(self.rules@),
            named: self.rule_at@,
            state: self.state@,
        }
    }

    /// The invariant of the graph.
    pub closed spec fn wf(&self) -> bool {
        &&& self.symbols.wf()
        &&& self.state.wf()
        &&& self@.wf()
        &&& self.sorts_indexed()
    }

    /// Whether the indexes of the sorts, of the rule names and of the
    /// primitives are in order.
    pub closed spec fn sorts_indexed(&self) -> bool {
        &&& self.primitives.indexed()
        &&& self.rule_at.wf()
        &&& self.sorts.wf()
    }

    /// What the invariant says of the model.
    pub proof fn lemma_wf(&self)
        requires
            self.wf(),
        ensures
            self@.wf(),
    {
    }

    /// A graph without sorts, functions, rules or classes, with the
    /// reserved symbols and the default primitives.
    pub fn new() -> (g: Self)
        ensures
            g.wf(),
            g@.symbols == reserved_names(),
            g@.sorts.len() == 0,
            g@.env.decls.len() == 0,
            are_default(g@.env.prims),
            g@.rules.len() == 0,
            g@.named == Map::<Symbol, usize>::empty(),
            g@.state.tables.len() == 0,
            g@.state.roots.len() == 0,
            g@.state.pool.len() == 0,
            g@.state.unions == 0,
            g@.state.globals == Map::<Symbol, Value>::empty(),
    {
        let state = State::new();
        let symbols = SymbolTable::new();
        let g = EGraph {
            symbols,
            sorts: NameList::new(),
            constructors: Vec::new(),
            decls: Vec::new(),
            primitives: default_primitives(),
            rules: Vec::new(),
            rule_at: NameIndex::new(),
            state,
        };
        proof {
            g.state.lemma_wf();
            assert(g@.symbols.no_duplicates());
        }
        g
    }

    /// The symbol of `name`; a name that is new gets the next symbol.
    pub fn symbol(&mut self, name: &str) -> (s: Symbol)
        requires
            old(self).wf(),
        ensures
            final(self).wf(),
            final(self)@ == (GraphModel { symbols: final(self)@.symbols, ..old(self)@ }),
            s.0 < final(self)@.symbols.len(),
            final(self)@.symbols[s.0 as int] == name@,
            old(self)@.symbols.contains(name@) ==> final(self)@.symbols == old(self)@.symbols,
            !old(self)@.symbols.contains(name@) ==> final(self)@.symbols == old(
                self,
            )@.symbols.push(name@),
    {
        let s = self.symbols.intern(name);
        proof {
            assert(self@.constructors =~= old(self)@.constructors);
            assert(reserved_names().is_prefix_of(self@.symbols));
        }
        s
    }

    /// The name of a symbol of this graph.
    pub fn symbol_name(&self, s: Symbol) -> (r: Option<&String>)
        ensures
            match r {
                Some(name) => s.0 < self@.symbols.len() && name@ == self@.symbols[s.0 as int],
                None => s.0 >= self@.symbols.len(),
            },
    {
        if s.0 < self.symbols.len() {
            Some(self.symbols.name(s))
        } else {
            None
        }
    }

    /// Interns the rational `n / d` of two integers of any size, given as
    /// little-endian two's-complement bytes; a zero denominator gives
    /// nothing.
    pub fn rational_wide(&mut self, n: &Vec<u8>, d: &Vec<u8>) -> (r: Option<RatId>)
        requires
            old(self).wf(),
        ensures
            final(self).wf(),
            signed_le(d@) == 0 <==> r is None,
            final(self)@ == old(self)@.with_state(
                StateModel {
                    pool: if signed_le(d@) == 0 {
                        old(self)@.state.pool
                    } else {
                        pool_with(
                            old(self)@.state.pool,
                            normalize(signed_le(n@), signed_le(d@)),
                        )
                    },
                    ..old(self)@.state
                },
            ),
            r matches Some(id) ==> id.0 == pool_handle(
                old(self)@.state.pool,
                normalize(signed_le(n@), signed_le(d@)),
            ),
    {
        let r = self.state.rational_wide(n, d);
        proof {
            self.state.lemma_wf();
            assert(self@.constructors =~= old(self)@.constructors);
        }
        r
    }

    /// Numerator and denominator of the rational of a handle, each as
    /// little-endian two's-complement bytes; nothing for a handle that the
    /// pool does not have.
    pub fn rational_parts(&self, id: RatId) -> (r: Option<(&Vec<u8>, &Vec<u8>)>)
        ensures
            match r {
                Some((n, d)) => {
                    &&& id.0 < self@.state.pool.len()
                    &&& signed_le(n@) == self@.state.pool[id.0 as int].0
                    &&& signed_le(d@) == self@.state.pool[id.0 as int].1
                },
                None => id.0 >= self@.state.pool.len(),
            },
    {
        match self.state.rational_number(id) {
            Some(q) => Some((q.numer_bytes(), q.denom_bytes())),
            None => None,
        }
    }

    /// Interns the rational `n / d`; a zero denominator gives nothing.
    pub fn rational(&mut self, n: i64, d: i64) -> (r: Option<RatId>)
        requires
            old(self).wf(),
        ensures
            final(self).wf(),
            d == 0 <==> r is None,
            final(self)@ == old(self)@.with_state(
                StateModel {
                    pool: if d == 0 {
                        old(self)@.state.pool
                    } else {
                        pool_with(old(self)@.state.pool, normalize(n as int, d as int))
                    },
                    ..old(self)@.state
                },
            ),
            r matches Some(id) ==> id.0 == pool_handle(
                old(self)@.state.pool,
                normalize(n as int, d as int),
            ),
    {
        let r = self.state.rational(n, d);
        proof {
            self.state.lemma_wf();
            assert(self@.constructors =~= old(self)@.constructors);
        }
        r
    }

    /// The number of class identifiers handed out.
    pub fn num_ids(&self) -> (n: usize)
        ensures
            n == self@.state.roots.len(),
    {
        self.state.num_ids()
    }

    /// The number of equivalence classes.
    pub fn num_classes(&self) -> (n: usize)
        requires
            self.wf(),
        ensures
            n == self@.state.classes(),
    {
        self.state.num_ids() - self.state.n_unions()
    }

    /// Merges the classes of two identifiers of this graph and returns the
    /// representative of the merged class.
    pub fn union(&mut self, id1: Id, id2: Id) -> (r: Id)
        requires
            old(self).wf(),
            id1.0 < old(self)@.state.roots.len(),
            id2.0 < old(self)@.state.roots.len(),
        ensures
            final(self).wf(),
            final(self)@ == old(self)@.with_state(
                old(self)@.state.merged(id1.0 as int, id2.0 as int),
            ),
            r.0 == merged_root(old(self)@.state.roots, id1.0 as int, id2.0 as int),
    {
        let r = self.state.union(id1, id2);
        proof {
            self.state.lemma_wf();
            assert(self@.constructors =~= old(self)@.constructors);
        }
        r
    }

    /// The representative of the class of an identifier of this graph.
    pub fn find(&self, id: Id) -> (r: Id)
        requires
            self.wf(),
            id.0 < self@.state.roots.len(),
        ensures
            r.0 == self@.state.roots[id.0 as int],
    {
        self.state.find(id)
    }

    /// The representative of a value: that of its class for a class
    /// identifier of this graph, the value itself for anything else.
    pub fn bad_find_value(&self, value: Value) -> (r: Value)
        requires
            self.wf(),
        ensures
            r == canon_value(self@.state.roots, value),
    {
        self.state.find_value(value)
    }

    /// Whether every row of every table is in canonical form.
    pub fn debug_assert_invariants(&self) -> (ok: bool)
        requires
            self.wf(),
        ensures
            ok == self@.state.canonical(),
    {
        self.state.is_canonical()
    }
}

/// The graph with one more sort, which has no constructors yet.
pub open spec fn with_sort(pre: GraphModel, name: Symbol) -> GraphModel {
    GraphModel {
        sorts: pre.sorts.push(name),
        constructors: pre.constructors.push(Seq::empty()),
        ..pre
    }
}

/// What declaring a sort does: a name that is new is added, with no
/// constructors yet; a name that is taken is an error and changes nothing.
pub open spec fn declare_sort_post(
    pre: GraphModel,
    name: Symbol,
    post: GraphModel,
    r: Result<(), Error>,
) -> bool {
    if pre.sorts.contains(name) {
        r == Err::<(), Error>(Error::SortAlreadyBound(name)) && post == pre
    } else {
        r is Ok && post == with_sort(pre, name)
    }
}

/// Whether `e` reports the type errors `errs`: one error is reported as
/// itself, several as a list.
pub open spec fn reports(e: Error, errs: Seq<TypeError>) -> bool {
    if errs.len() == 1 {
        e == Error::Type(errs[0])
    } else {
        e matches Error::TypeErrors(list) && list@ == errs
    }
}

/// The table of a function that was just declared.
pub open spec fn fresh_table(name: Symbol, input: Seq<Type>, output: Type) -> TableModel {
    TableModel { name, input, output, rows: Seq::empty(), updates: 0 }
}

/// What declaring a function does. It is accepted exactly where every
/// sort of its schema was declared and no function has its name; then the
/// declaration is added with an empty table. Else nothing changes, and
/// the error reports everything that is wrong; see [`schema_errors`].
pub open spec fn declare_function_post(
    pre: GraphModel,
    decl: FunctionDecl,
    post: GraphModel,
    r: Result<(), Error>,
) -> bool {
    if schema_ok(pre.sorts, pre.state.tables, decl.name, decl.schema.input@, decl.schema.output) {
        &&& r is Ok
        &&& post == (GraphModel {
            env: Env { decls: pre.env.decls.push(decl_model(decl)), ..pre.env },
            state: StateModel {
                tables: pre.state.tables.push(
                    fresh_table(decl.name, decl.schema.input@, decl.schema.output),
                ),
                ..pre.state
            },
            ..pre
        })
    } else {
        &&& post == pre
        &&& r matches Err(e)
        &&& reports(
            e,
            schema_errors(
                pre.sorts,
                pre.state.tables,
                decl.name,
                decl.schema.input@,
                decl.schema.output,
            ),
        )
    }
}

/// The graph with one more constructor of the sort: a function without
/// merge and default whose output is the sort, with an empty table, listed
/// among the constructors of the sort.
pub open spec fn with_constructor(
    pre: GraphModel,
    name: Symbol,
    types: Seq<Type>,
    sort: Symbol,
) -> GraphModel {
    GraphModel {
        env: Env {
            decls: pre.env.decls.push(
                DeclModel {
                    name,
                    input: types,
                    output: Type::Sort(sort),
                    merge: None,
                    default: None,
                },
            ),
            ..pre.env
        },
        state: StateModel {
            tables: pre.state.tables.push(fresh_table(name, types, Type::Sort(sort))),
            ..pre.state
        },
        constructors: pre.constructors.update(
            pre.sorts.index_of(sort),
            pre.constructors[pre.sorts.index_of(sort)].push(name),
        ),
        ..pre
    }
}

/// What declaring a constructor does: it is accepted exactly where a
/// function of its schema can be declared, and then the graph has one
/// more constructor; else nothing changes, and the error reports
/// everything that is wrong.
pub open spec fn declare_constructor_post(
    pre: GraphModel,
    name: Symbol,
    types: Seq<Type>,
    sort: Symbol,
    post: GraphModel,
    r: Result<(), Error>,
) -> bool {
    if schema_ok(pre.sorts, pre.state.tables, name, types, Type::Sort(sort)) {
        r is Ok && post == with_constructor(pre, name, types, sort)
    } else {
        &&& post == pre
        &&& r matches Err(e)
        &&& reports(e, schema_errors(pre.sorts, pre.state.tables, name, types, Type::Sort(sort)))
    }
}

/// The error that reports a list of type errors, of which there is at
/// least one.
pub fn report_errors(errs: Vec<TypeError>) -> (e: Error)
    requires
        errs@.len() > 0,
    ensures
        reports(e, errs@),
{
    if errs.len() == 1 {
        Error::Type(errs[0])
    } else {
        Error::TypeErrors(errs)
    }
}

impl EGraph {
    /// The position of the sort of this name, if it was declared.
    fn sort_position(&self, name: Symbol) -> (r: Option<usize>)
        requires
            self.wf(),
        ensures
            match r {
                Some(k) => k < self@.sorts.len() && self@.sorts[k as int] == name,
                None => !self@.sorts.contains(name),
            },
    {
        self.sorts.position(name)
    }

    /// Whether a sort of this name was declared.
    pub fn has_sort(&self, name: Symbol) -> (b: bool)
        requires
            self.wf(),
        ensures
            b == self@.sorts.contains(name),
    {
        self.sort_position(name).is_some()
    }

    /// Whether a function of this name was declared.
    pub fn has_function(&self, name: Symbol) -> (b: bool)
        requires
            self.wf(),
        ensures
            b == has_function(self@.state.tables, name),
    {
        self.state.find_function(name).is_some()
    }

    /// Declares a sort. See [`declare_sort_post`].
    pub fn declare_sort(&mut self, name: Symbol) -> (r: Result<(), Error>)
        requires
            old(self).wf(),
        ensures
            final(self).wf(),
            declare_sort_post(old(self)@, name, final(self)@, r),
    {
        if self.has_sort(name) {
            return Err(Error::SortAlreadyBound(name));
        }
        self.sorts.push(name);
        self.constructors.push(Vec::new());
        proof {
            assert(self@.constructors =~= old(self)@.constructors.push(Seq::empty()));
            assert(self@.sorts.no_duplicates()) by {
                assert forall|i: int, j: int|
                    0 <= i < self@.sorts.len() && 0 <= j < self@.sorts.len() && i
                        != j implies self@.sorts[i] != self@.sorts[j] by {
                    if i < old(self)@.sorts.len() && j < old(self)@.sorts.len() {
                    } else if i < old(self)@.sorts.len() {
                        assert(old(self)@.sorts[i] != name);
                    } else {
                        assert(old(self)@.sorts[j] != name);
                    }
                }
            }
        }
        Ok(())
    }

    /// Declares a function. See [`declare_function_post`].
    pub fn declare_function(&mut self, decl: FunctionDecl) -> (r: Result<(), Error>)
        requires
            old(self).wf(),
        ensures
            final(self).wf(),
            declare_function_post(old(self)@, decl, final(self)@, r),
    {
        let errs = check_decl(&self.sorts, &self.state, &decl);
        if errs.len() > 0 {
            let e = report_errors(errs);
            return Err(e);
        }
        self.state.add_function(&decl);
        self.decls.push(decl);
        proof {
            self.state.lemma_wf();
            assert(self@.constructors =~= old(self)@.constructors);
            let pre = old(self)@;
            assert(self@.env.decls =~= pre.env.decls.push(decl_model(decl)));
            assert(self@.env.fits(self@.state.tables)) by {
                assert forall|i: int| 0 <= i < self@.state.tables.len() implies (
                #[trigger] self@.env.decls[i]).name == self@.state.tables[i].name
                    && self@.env.decls[i].input == self@.state.tables[i].input
                    && self@.env.decls[i].output == self@.state.tables[i].output by {
                    if i < pre.state.tables.len() {
                        assert(pre.env.decls[i].name == pre.state.tables[i].name);
                    }
                }
                assert forall|i: int| 0 <= i < self@.env.prims.len() implies (
                #[trigger] self@.env.prims[i]).wf() by {
                    assert(pre.env.prims[i].wf());
                }
            }
        }
        Ok(())
    }

    /// Declares a constructor of a sort. See [`declare_constructor_post`].
    pub fn declare_constructor(&mut self, name: Symbol, types: Vec<Type>, sort: Symbol) -> (r:
        Result<(), Error>)
        requires
            old(self).wf(),
        ensures
            final(self).wf(),
            declare_constructor_post(old(self)@, name, types@, sort, final(self)@, r),
    {
        let ghost pre = self@;
        let ghost input = types@;
        let decl = FunctionDecl {
            name,
            schema: Schema { input: types, output: Type::Sort(sort) },
            merge: None,
            default: None,
        };
        match self.declare_function(decl) {
            Err(e) => Err(e),
            Ok(_) => {
                let ghost mid = self@;
                assert(pre.sorts.contains(sort));
                let found = self.sort_position(sort);
                assert(found is Some);
                let k = found.unwrap();
                proof {
                    let w = pre.sorts.index_of(sort);
                    if w != k {
                        assert(pre.sorts[w] != pre.sorts[k as int]);
                    }
                }
                self.constructors[k].push(name);
                proof {
                    assert(self@.constructors =~= pre.constructors.update(
                        k as int,
                        pre.constructors[k as int].push(name),
                    ));

                }
                Ok(())
            },
        }
    }
}

/// What compiling facts gives: the query of [`compile_spec`], where the
/// facts make no two constants equal and the query is well typed. Else
/// the query is inconsistent, or the error reports everything that is
/// wrong with its types; see [`query_error_list`].
pub open spec fn compile_post(pre: GraphModel, facts: Seq<Fact>, r: Result<Query, Error>) -> bool {
    match r {
        Ok(q) => !facts_clash(facts) && q@ == compile_spec(facts) && q@.wf() && well_typed(
            pre.state.tables,
            q@,
        ),
        Err(e) => if facts_clash(facts) {
            e == Error::InconsistentQuery
        } else {
            !well_typed(pre.state.tables, compile_spec(facts)) && reports(
                e,
                query_error_list(pre.state.tables, compile_spec(facts)),
            )
        },
    }
}

/// The graph in which the rule at position `at` has the name `name`.
pub open spec fn with_rule_name(g: GraphModel, name: Symbol, at: usize) -> GraphModel {
    GraphModel { named: g.named.insert(name, at), ..g }
}

/// What a graph is after an attempt to add a rule under a name, where
/// `mid` is the graph after the attempt to add the rule itself: a rule
/// that was added has the name.
pub open spec fn named_after(mid: GraphModel, name: Symbol, r: Result<usize, Error>) -> GraphModel {
    match r {
        Ok(i) => with_rule_name(mid, name, i),
        Err(_) => mid,
    }
}

/// What adding a rule under a name does: a name that a rule has already
/// is an error and changes nothing; else the rule is added as
/// [`add_rule_post`] says, and where it was added it has the name.
pub open spec fn add_named_rule_post(
    pre: GraphModel,
    name: Symbol,
    body: Seq<Fact>,
    head: Seq<Action>,
    post: GraphModel,
    r: Result<usize, Error>,
) -> bool {
    if pre.named.contains_key(name) {
        post == pre && r == Err::<usize, Error>(Error::RuleAlreadyBound(name))
    } else {
        exists|mid: GraphModel| #[trigger]
            add_rule_post(pre, body, head, mid, r) && post == named_after(mid, name, r)
    }
}

/// What adding a rewrite under a name does: a name that a rule has
/// already is an error and changes nothing; else the rewrite is added as
/// [`add_rewrite_post`] says, and where it was added its rule has the
/// name.
pub open spec fn add_named_rewrite_post(
    pre: GraphModel,
    name: Symbol,
    lhs: Expr,
    rhs: Expr,
    post: GraphModel,
    r: Result<usize, Error>,
) -> bool {
    if pre.named.contains_key(name) {
        post == pre && r == Err::<usize, Error>(Error::RuleAlreadyBound(name))
    } else {
        exists|mid: GraphModel| #[trigger]
            add_rewrite_post(pre, lhs, rhs, mid, r) && post == named_after(mid, name, r)
    }
}

/// What adding a rule does: where its body compiles, the rule is added
/// after the others and its position is returned; else nothing changes.
pub open spec fn add_rule_post(
    pre: GraphModel,
    body: Seq<Fact>,
    head: Seq<Action>,
    post: GraphModel,
    r: Result<usize, Error>,
) -> bool {
    match r {
        Ok(i) => {
            &&& !facts_clash(body)
            &&& well_typed(pre.state.tables, compile_spec(body))
            &&& i == pre.rules.len()
            &&& post == (GraphModel {
                rules: pre.rules.push(RuleModel { query: compile_spec(body), head }),
                ..pre
            })
        },
        Err(e) => {
            &&& post == pre
            &&& if facts_clash(body) {
                e == Error::InconsistentQuery
            } else {
                !well_typed(pre.state.tables, compile_spec(body)) && reports(
                    e,
                    query_error_list(pre.state.tables, compile_spec(body)),
                )
            }
        },
    }
}

/// Whether `r` can be the variable of a rewrite: it occurs in neither
/// side.
pub open spec fn fresh_for(r: Symbol, lhs: Expr, rhs: Expr) -> bool {
    !occurs(lhs, r) && !occurs(rhs, r)
}

/// Whether `body` is the body of the rule that a rewrite of `lhs` with
/// the variable `r` stands for: one equality between `r` and `lhs`.
pub open spec fn rewrite_body(body: Seq<Fact>, r: Symbol, lhs: Expr) -> bool {
    &&& body.len() == 1
    &&& body[0] matches Fact::Eq(es)
    &&& es@ == seq![Expr::Var(r), lhs]
}

/// The head of the rule that a rewrite to `rhs` with the variable `r`
/// stands for: the variable is merged with `rhs`.
pub open spec fn rewrite_head(r: Symbol, rhs: Expr) -> Seq<Action> {
    seq![Action::Union(Expr::Var(r), rhs)]
}

/// The larger of the largest variables of the two sides; `-1` where they
/// have none.
pub open spec fn top_of_sides(lhs: Expr, rhs: Expr) -> int {
    if top_var(lhs) >= top_var(rhs) {
        top_var(lhs)
    } else {
        top_var(rhs)
    }
}

/// Whether a variable is left for a rewrite of these sides.
pub open spec fn has_fresh(lhs: Expr, rhs: Expr) -> bool {
    fresh_for(Symbol::spec_rewrite_var(), lhs, rhs) || top_of_sides(lhs, rhs) < usize::MAX
}

/// The variable of a rewrite of these sides: the reserved rewrite variable
/// where it occurs in neither side, else the variable after the largest
/// that occurs in them.
pub open spec fn rewrite_variable(lhs: Expr, rhs: Expr) -> Symbol {
    if fresh_for(Symbol::spec_rewrite_var(), lhs, rhs) {
        Symbol::spec_rewrite_var()
    } else {
        Symbol((top_of_sides(lhs, rhs) + 1) as usize)
    }
}

/// The variable of a rewrite occurs in neither of its sides.
pub proof fn lemma_rewrite_variable(lhs: Expr, rhs: Expr)
    requires
        has_fresh(lhs, rhs),
    ensures
        fresh_for(rewrite_variable(lhs, rhs), lhs, rhs),
{
    if !fresh_for(Symbol::spec_rewrite_var(), lhs, rhs) {
        lemma_top_var(lhs);
        lemma_top_var(rhs);
        let n = top_of_sides(lhs, rhs) + 1;
        lemma_below_mono(lhs, top_var(lhs) + 1, n);
        lemma_below_mono(rhs, top_var(rhs) + 1, n);
        lemma_not_below(lhs, n, Symbol(n as usize));
        lemma_not_below(rhs, n, Symbol(n as usize));
    }
}

/// What adding a rewrite does: the rule that it stands for is added, with
/// the variable of [`rewrite_variable`], which occurs in neither side.
/// Nothing is added where no variable is left: the reserved one occurs,
/// and so does the variable of the largest intern id there is.
pub open spec fn add_rewrite_post(
    pre: GraphModel,
    lhs: Expr,
    rhs: Expr,
    post: GraphModel,
    r: Result<usize, Error>,
) -> bool {
    if has_fresh(lhs, rhs) {
        &&& fresh_for(rewrite_variable(lhs, rhs), lhs, rhs)
        &&& exists|body: Seq<Fact>| #[trigger]
            rewrite_body(body, rewrite_variable(lhs, rhs), lhs) && add_rule_post(
                pre,
                body,
                rewrite_head(rewrite_variable(lhs, rhs), rhs),
                post,
                r,
            )
    } else {
        r == Err::<usize, Error>(Error::NoFreshVariable) && post == pre
    }
}

/// What extracting from an expression gives: the expression is evaluated,
/// the graph is rebuilt, and a least term of the class of the value is
/// extracted from the rebuilt graph, which is canonical. The term
/// evaluates to its class in that graph, under every substitution, and
/// its evaluation changes nothing. An error of the rebuild ends the
/// extraction.
pub open spec fn extract_post(
    pre: GraphModel,
    e: Expr,
    post: GraphModel,
    r: Result<(usize, Expr), Error>,
) -> bool {
    let (st1, r1) = eval_spec(pre.env, pre.state, Map::empty(), e, pre.fuel());
    match r1 {
        Err(err) => post == pre.with_state(st1) && (r matches Err(got) && same_error(got, err)),
        Ok(v) => {
            let st2 = settle_spec(pre.env, st1, settle_fuel(st1));
            &&& post == pre.with_state(st2)
            &&& match settle_error(pre.env, st1, settle_fuel(st1)) {
                Some(err) => r matches Err(got) && same_error(got, err),
                None => {
                    &&& st2.wf()
                    &&& st2.canonical()
                    &&& st2.settled()
                    &&& if is_known_class(st2.roots, v) {
                        let c = st2.roots[v->Id_0.0 as int];
                        match r {
                            Ok((cost, term)) => {
                                &&& term_class(st2, term) == Some(c)
                                &&& cost == node_count(term)
                                &&& cost < usize::MAX
                                &&& forall|other: Expr|
                                    #[trigger] term_class(st2, other) == Some(c) ==> cost
                                        <= node_count(other)
                                &&& forall|ctx: Map<Symbol, Value>, fuel: nat|
                                    #[trigger] eval_spec(pre.env, st2, ctx, term, fuel) == (
                                        st2,
                                        Ok::<Value, Error>(Value::Id(Id(c as usize))),
                                    )
                            },
                            Err(got) => {
                                &&& got == Error::Unextractable(v->Id_0)
                                &&& forall|other: Expr|
                                    #[trigger] term_class(st2, other) == Some(c) ==> node_count(
                                        other,
                                    ) >= usize::MAX
                            },
                        }
                    } else {
                        r == Err::<(usize, Expr), Error>(Error::Type(TypeError::Mismatch))
                    }
                },
            }
        },
    }
}

/// What a global definition does: the expression is evaluated; where the
/// name has no global binding yet it gets the value, else the definition
/// is an error.
pub open spec fn define_post(
    pre: GraphModel,
    name: Symbol,
    e: Expr,
    post: GraphModel,
    r: Result<(), Error>,
) -> bool {
    let (st1, r1) = eval_spec(pre.env, pre.state, Map::empty(), e, pre.fuel());
    match r1 {
        Err(err) => post == pre.with_state(st1) && (r matches Err(got) && same_error(got, err)),
        Ok(v) => if st1.globals.contains_key(name) {
            post == pre.with_state(st1) && r == Err::<(), Error>(Error::AlreadyDefined(name))
        } else {
            post == pre.with_state(st1.with_global(name, v)) && r is Ok
        },
    }
}

/// What a query gives: its solutions, each once, in the order in which
/// the join finds them.
pub open spec fn query_post(pre: GraphModel, q: QueryModel, res: Seq<Seq<Value>>) -> bool {
    &&& res == crate::gj::solutions_list(pre.state.tables, q)
    &&& forall|i: int| 0 <= i < res.len() ==> is_solution(pre.state.tables, q, #[trigger] res[i])
    &&& forall|sigma: Seq<Value>|
        #[trigger] is_solution(pre.state.tables, q, sigma) ==> res.contains(sigma)
    &&& res.no_duplicates()
}

/// A rewrite that was added stands at the position returned.
pub proof fn lemma_rewrite_position(pre: GraphModel, lhs: Expr, rhs: Expr, post: GraphModel, i: usize)
    requires
        add_rewrite_post(pre, lhs, rhs, post, Ok(i)),
    ensures
        i < post.rules.len(),
        i == pre.rules.len(),
{
}

impl EGraph {
    proof fn lemma_after(&self, pre: GraphModel)
        requires
            pre.wf(),
            self.symbols.wf(),
            self.state.wf(),
            self.sorts_indexed(),
            self@ == pre.with_state(self.state@),
            pre.env.fits(self.state@.tables),
        ensures
            self.wf(),
    {
        self.state.lemma_wf();
    }

    /// Evaluates an expression under a substitution. See [`eval_spec`].
    pub fn eval_expr(&mut self, ctx: &Subst, expr: &Expr) -> (r: Result<Value, Error>)
        requires
            old(self).wf(),
        ensures
            final(self).wf(),
            final(self)@ == old(self)@.with_state(
                eval_spec(old(self)@.env, old(self)@.state, ctx@, *expr, old(self)@.fuel()).0,
            ),
            same_outcome(
                r,
                eval_spec(old(self)@.env, old(self)@.state, ctx@, *expr, old(self)@.fuel()).1,
            ),
            grows(old(self)@.state, final(self)@.state),
    {
        let fuel = self.decls.len();
        let r = eval(&self.decls, &self.primitives, &mut self.state, ctx, expr, fuel);
        proof {
            assert(self@.constructors =~= old(self)@.constructors);
            self.lemma_after(old(self)@);
        }
        r
    }

    /// Evaluates an expression without variables of its own.
    pub fn eval_closed_expr(&mut self, expr: &Expr) -> (r: Result<Value, Error>)
        requires
            old(self).wf(),
        ensures
            final(self).wf(),
            final(self)@ == old(self)@.with_state(
                eval_spec(
                    old(self)@.env,
                    old(self)@.state,
                    Map::empty(),
                    *expr,
                    old(self)@.fuel(),
                ).0,
            ),
            same_outcome(
                r,
                eval_spec(
                    old(self)@.env,
                    old(self)@.state,
                    Map::empty(),
                    *expr,
                    old(self)@.fuel(),
                ).1,
            ),
            grows(old(self)@.state, final(self)@.state),
    {
        let empty = Subst::new();
        self.eval_expr(&empty, expr)
    }

    /// Runs actions under a substitution, or against the globals where
    /// there is none. See [`eval_actions_spec`].
    pub fn eval_actions(&mut self, ctx: Option<Subst>, actions: &[Action]) -> (r: Result<
        (),
        Error,
    >)
        requires
            old(self).wf(),
        ensures
            final(self).wf(),
            final(self)@ == old(self)@.with_state(
                eval_actions_spec(
                    old(self)@.env,
                    old(self)@.state,
                    ctx_view(ctx),
                    actions@,
                    0,
                    old(self)@.fuel(),
                ).0,
            ),
            same_outcome(
                r,
                eval_actions_spec(
                    old(self)@.env,
                    old(self)@.state,
                    ctx_view(ctx),
                    actions@,
                    0,
                    old(self)@.fuel(),
                ).2,
            ),
            advances(old(self)@.state, final(self)@.state),
    {
        let fuel = self.decls.len();
        let r = eval_actions(&self.decls, &self.primitives, &mut self.state, ctx, actions, fuel);
        proof {
            assert(self@.constructors =~= old(self)@.constructors);
            self.lemma_after(old(self)@);
        }
        r
    }

    /// Checks a fact under a substitution. See [`check_spec`].
    pub fn check_with(&mut self, ctx: &Subst, fact: &Fact) -> (r: Result<(), Error>)
        requires
            old(self).wf(),
        ensures
            final(self).wf(),
            final(self)@ == old(self)@.with_state(
                check_spec(old(self)@.env, old(self)@.state, ctx@, *fact, old(self)@.fuel()).0,
            ),
            same_outcome(
                r,
                check_spec(old(self)@.env, old(self)@.state, ctx@, *fact, old(self)@.fuel()).1,
            ),
            grows(old(self)@.state, final(self)@.state),
    {
        let fuel = self.decls.len();
        let r = check(&self.decls, &self.primitives, &mut self.state, ctx, fact, fuel);
        proof {
            assert(self@.constructors =~= old(self)@.constructors);
            self.lemma_after(old(self)@);
        }
        r
    }

    /// Evaluates the expressions, of which there is at least one, and
    /// merges their classes. See [`union_exprs_spec`].
    pub fn union_exprs(&mut self, ctx: &Subst, exprs: &[Expr]) -> (r: Result<Value, Error>)
        requires
            old(self).wf(),
            exprs@.len() > 0,
        ensures
            final(self).wf(),
            final(self)@ == old(self)@.with_state(
                union_exprs_spec(
                    old(self)@.env,
                    old(self)@.state,
                    ctx@,
                    exprs@,
                    old(self)@.fuel(),
                ).0,
            ),
            same_outcome(
                r,
                union_exprs_spec(
                    old(self)@.env,
                    old(self)@.state,
                    ctx@,
                    exprs@,
                    old(self)@.fuel(),
                ).1,
            ),
            advances(old(self)@.state, final(self)@.state),
    {
        let fuel = self.decls.len();
        let r = union_exprs(&self.decls, &self.primitives, &mut self.state, ctx, exprs, fuel);
        proof {
            assert(self@.constructors =~= old(self)@.constructors);
            self.lemma_after(old(self)@);
        }
        r
    }

    proof fn lemma_schemas_fit(env: Env, a: Seq<TableModel>, b: Seq<TableModel>)
        requires
            env.fits(a),
            same_schemas(a, b),
        ensures
            env.fits(b),
    {
        assert forall|i: int| 0 <= i < b.len() implies (#[trigger] env.decls[i]).name == b[i].name
            && env.decls[i].input == b[i].input && env.decls[i].output == b[i].output by {
            assert(a[i].name == b[i].name);
        }
    }

    /// Rebuilds every table once. See [`State::rebuild_one`].
    pub fn rebuild_one(&mut self) -> (r: Result<usize, Error>)
        requires
            old(self).wf(),
        ensures
            final(self).wf(),
            final(self)@ == old(self)@.with_state(
                crate::rebuild::pass_spec(
                    old(self)@.env,
                    old(self)@.state,
                    old(self)@.state.tables.len() as int,
                ),
            ),
            match r {
                Ok(c) => crate::rebuild::pass_error(
                    old(self)@.env,
                    old(self)@.state,
                    old(self)@.state.tables.len() as int,
                ) is None && c == crate::rebuild::pass_count(
                    old(self)@.env,
                    old(self)@.state,
                    old(self)@.state.tables.len() as int,
                ),
                Err(e) => {
                    &&& crate::rebuild::pass_error(
                        old(self)@.env,
                        old(self)@.state,
                        old(self)@.state.tables.len() as int,
                    ) matches Some(model)
                    &&& same_error(e, model)
                },
            },
    {
        let r = self.state.rebuild_one(&self.decls, &self.primitives);
        proof {
            assert(self@.constructors =~= old(self)@.constructors);
            crate::rebuild::lemma_pass(
                old(self)@.env,
                old(self)@.state,
                old(self)@.state.tables.len() as int,
            );
            Self::lemma_schemas_fit(old(self)@.env, old(self)@.state.tables, self@.state.tables);
            self.lemma_after(old(self)@);
        }
        r
    }

    /// Restores canonical form after merges: all tables are rebuilt until
    /// a pass reports nothing. Returns what the passes reported in all.
    ///
    /// Afterwards every row of every table is in canonical form. Classes
    /// are only merged, and no identifier is added, so there are no more
    /// classes than before. A rebuild right after a rebuild changes
    /// nothing and returns zero.
    ///
    /// Two rows of a numeric function that meet with different outputs are
    /// reconciled by the merge expression of the function. Where that
    /// cannot be done, the rebuild ends with the error.
    pub fn rebuild(&mut self) -> (r: Result<usize, Error>)
        requires
            old(self).wf(),
        ensures
            final(self).wf(),
            final(self)@ == old(self)@.with_state(
                settle_spec(old(self)@.env, old(self)@.state, settle_fuel(old(self)@.state)),
            ),
            match r {
                Ok(c) => {
                    &&& settle_error(
                        old(self)@.env,
                        old(self)@.state,
                        settle_fuel(old(self)@.state),
                    ) is None
                    &&& c == settle_count(
                        old(self)@.env,
                        old(self)@.state,
                        settle_fuel(old(self)@.state),
                    )
                    &&& final(self)@.state.canonical()
                    &&& final(self)@.state.settled()
                },
                Err(e) => {
                    &&& settle_error(
                        old(self)@.env,
                        old(self)@.state,
                        settle_fuel(old(self)@.state),
                    ) matches Some(model)
                    &&& same_error(e, model)
                },
            },
            coarsens(old(self)@.state.roots, final(self)@.state.roots),
            final(self)@.state.classes() <= old(self)@.state.classes(),
            old(self)@.state.canonical() && old(self)@.state.settled() ==> r == Ok::<usize, Error>(
                0,
            ),
            old(self)@.state.canonical() && old(self)@.state.settled() ==> final(self)@ == old(self)@,
    {
        let r = self.state.rebuild(&self.decls, &self.primitives);
        proof {
            assert(self@.constructors =~= old(self)@.constructors);
            self.lemma_after(old(self)@);
        }
        r
    }

    /// One round of the rules: search, then apply. A head that fails
    /// stops no other; the heads that failed are returned, each with the
    /// position of its rule and its error. See [`step_spec`] and
    /// [`step_failures`].
    pub fn step_rules(&mut self) -> (failed: Vec<(usize, Error)>)
        requires
            old(self).wf(),
        ensures
            final(self).wf(),
            final(self)@ == old(self)@.with_state(
                step_spec(old(self)@.env, old(self)@.rules, old(self)@.state, old(self)@.fuel()),
            ),
            same_failures(
                failed@,
                step_failures(
                    old(self)@.env,
                    old(self)@.rules,
                    old(self)@.state,
                    old(self)@.fuel(),
                ),
            ),
            advances(old(self)@.state, final(self)@.state),
    {
        let fuel = self.decls.len();
        let failed = step_rules(
            &self.decls,
            &self.primitives,
            &self.rules,
            &mut self.state,
            fuel,
        );
        proof {
            assert(self@.constructors =~= old(self)@.constructors);
            self.lemma_after(old(self)@);
        }
        failed
    }

    /// Runs `limit` rounds of the rules, each followed by a rebuild, and
    /// returns the heads that failed, each with the position of its rule.
    /// See [`run_spec`] and [`run_failures`].
    ///
    /// After at least one round every row of every table is in canonical
    /// form. No class is ever split, and the classes grow by no more than
    /// the identifiers do: a run that allocates no class leaves no more
    /// classes than it found.
    pub fn run_rules(&mut self, limit: usize) -> (r: Result<Vec<(usize, Error)>, Error>)
        requires
            old(self).wf(),
        ensures
            final(self).wf(),
            final(self)@ == old(self)@.with_state(
                run_spec(
                    old(self)@.env,
                    old(self)@.rules,
                    old(self)@.state,
                    limit as nat,
                    old(self)@.fuel(),
                ),
            ),
            match r {
                Ok(failed) => {
                    &&& run_error(
                        old(self)@.env,
                        old(self)@.rules,
                        old(self)@.state,
                        limit as nat,
                        old(self)@.fuel(),
                    ) is None
                    &&& limit >= 1 ==> final(self)@.state.canonical()
                    &&& limit >= 1 ==> final(self)@.state.settled()
                    &&& same_failures(
                        failed@,
                        run_failures(
                            old(self)@.env,
                            old(self)@.rules,
                            old(self)@.state,
                            limit as nat,
                            old(self)@.fuel(),
                        ),
                    )
                },
                Err(e) => {
                    &&& run_error(
                        old(self)@.env,
                        old(self)@.rules,
                        old(self)@.state,
                        limit as nat,
                        old(self)@.fuel(),
                    ) matches Some(model)
                    &&& same_error(e, model)
                },
            },
            advances(old(self)@.state, final(self)@.state),
            final(self)@.state.classes() <= old(self)@.state.classes() + (
            final(self)@.state.roots.len() - old(self)@.state.roots.len()),
    {
        let fuel = self.decls.len();
        let r = run_rules(&self.decls, &self.primitives, &self.rules, &mut self.state, limit, fuel);
        proof {
            assert(self@.constructors =~= old(self)@.constructors);
            self.lemma_after(old(self)@);
        }
        r
    }

    /// Compiles facts into a query and checks it against the schemas. See
    /// [`compile_post`].
    pub fn compile_query(&self, facts: Vec<Fact>) -> (r: Result<Query, Error>)
        requires
            self.wf(),
        ensures
            compile_post(self@, facts@, r),
    {
        let q = match Query::from_facts(facts) {
            Err(e) => {
                return Err(e);
            },
            Ok(q) => q,
        };
        let errs = check_query(&self.state, &q);
        if errs.len() > 0 {
            let e = report_errors(errs);
            return Err(e);
        }
        Ok(q)
    }

    fn add_compiled(&mut self, body: Vec<Fact>, head: Vec<Action>) -> (r: Result<usize, Error>)
        requires
            old(self).wf(),
        ensures
            final(self).wf(),
            add_rule_post(old(self)@, body@, head@, final(self)@, r),
    {
        let query = match self.compile_query(body) {
            Err(e) => {
                return Err(e);
            },
            Ok(q) => q,
        };
        let i = self.rules.len();
        let ghost qm = query@;
        self.rules.push(CompiledRule { query, head });
        proof {
            assert(self@.constructors =~= old(self)@.constructors);
            assert(self@.rules =~= old(self)@.rules.push(RuleModel { query: qm, head: head@ }));
            assert(rules_wf(self@.rules)) by {
                assert forall|k: int| 0 <= k < self@.rules.len() implies (
                #[trigger] self@.rules[k]).query.wf() by {
                    if k < old(self)@.rules.len() {
                        assert(old(self)@.rules[k].query.wf());
                    }
                }
            }
        }
        Ok(i)
    }

    /// Adds a rule. See [`add_rule_post`].
    pub fn add_rule(&mut self, rule: Rule) -> (r: Result<usize, Error>)
        requires
            old(self).wf(),
        ensures
            final(self).wf(),
            add_rule_post(old(self)@, rule.body@, rule.head@, final(self)@, r),
    {
        self.add_compiled(rule.body, rule.head)
    }

    /// Whether a rule of this name was added.
    pub fn has_rule(&self, name: Symbol) -> (b: bool)
        requires
            self.wf(),
        ensures
            b == self@.named.contains_key(name),
    {
        self.rule_at.get(name).is_some()
    }

    /// The position of the rule of this name, if one was added.
    pub fn rule_position(&self, name: Symbol) -> (r: Option<usize>)
        requires
            self.wf(),
        ensures
            match r {
                Some(i) => self@.named.contains_key(name) && self@.named[name] == i && i
                    < self@.rules.len(),
                None => !self@.named.contains_key(name),
            },
    {
        self.rule_at.get(name)
    }

    fn name_rule(&mut self, name: Symbol, at: usize)
        requires
            old(self).wf(),
            at < old(self)@.rules.len(),
        ensures
            final(self).wf(),
            final(self)@ == with_rule_name(old(self)@, name, at),
    {
        self.rule_at.set(name, at);
        proof {
            assert(self@.constructors =~= old(self)@.constructors);
        }
    }

    /// Adds a rule under a name. See [`add_named_rule_post`].
    pub fn add_rule_with_name(&mut self, name: Symbol, rule: Rule) -> (r: Result<usize, Error>)
        requires
            old(self).wf(),
        ensures
            final(self).wf(),
            add_named_rule_post(old(self)@, name, rule.body@, rule.head@, final(self)@, r),
    {
        if self.has_rule(name) {
            return Err(Error::RuleAlreadyBound(name));
        }
        let ghost body = rule.body@;
        let ghost head = rule.head@;
        let r = self.add_rule(rule);
        let ghost mid = self@;
        assert(add_rule_post(old(self)@, body, head, mid, r));
        match r {
            Ok(i) => {
                self.name_rule(name, i);
                Ok(i)
            },
            Err(e) => Err(e),
        }
    }

    /// Adds the rule of a rewrite under a name. See
    /// [`add_named_rewrite_post`].
    pub fn add_rewrite_with_name(&mut self, name: Symbol, rewrite: Rewrite) -> (r: Result<
        usize,
        Error,
    >)
        requires
            old(self).wf(),
        ensures
            final(self).wf(),
            add_named_rewrite_post(old(self)@, name, rewrite.lhs, rewrite.rhs, final(self)@, r),
    {
        if self.has_rule(name) {
            return Err(Error::RuleAlreadyBound(name));
        }
        let ghost lhs = rewrite.lhs;
        let ghost rhs = rewrite.rhs;
        let r = self.add_rewrite(rewrite);
        let ghost mid = self@;
        assert(add_rewrite_post(old(self)@, lhs, rhs, mid, r));
        match r {
            Ok(i) => {
                proof {
                    lemma_rewrite_position(old(self)@, lhs, rhs, mid, i);
                }
                self.name_rule(name, i);
                Ok(i)
            },
            Err(e) => Err(e),
        }
    }

    /// Drops all rules.
    pub fn clear_rules(&mut self)
        requires
            old(self).wf(),
        ensures
            final(self).wf(),
            final(self)@ == (GraphModel {
                rules: Seq::empty(),
                named: Map::empty(),
                ..old(self)@
            }),
    {
        self.rules = Vec::new();
        self.rule_at = NameIndex::new();
        proof {
            assert(self@.constructors =~= old(self)@.constructors);
            assert(self@.rules =~= Seq::<RuleModel>::empty());
        }
    }

    /// Adds the rule that a rewrite stands for: its body makes a variable
    /// that occurs in neither side equal to the left-hand side, its head
    /// merges that variable with the right-hand side. See
    /// [`add_rewrite_post`].
    pub fn add_rewrite(&mut self, rewrite: Rewrite) -> (r: Result<usize, Error>)
        requires
            old(self).wf(),
        ensures
            final(self).wf(),
            add_rewrite_post(old(self)@, rewrite.lhs, rewrite.rhs, final(self)@, r),
    {
        let reserved = Symbol::rewrite_var();
        let var = if !rewrite.lhs.mentions(reserved) && !rewrite.rhs.mentions(reserved) {
            reserved
        } else {
            let a = rewrite.lhs.top_variable();
            let b = rewrite.rhs.top_variable();
            let top = match (a, b) {
                (Some(x), Some(y)) => if x >= y {
                    x
                } else {
                    y
                },
                (Some(x), None) => x,
                (None, Some(y)) => y,
                (None, None) => {
                    proof {
                        lemma_top_var(rewrite.lhs);
                        lemma_top_var(rewrite.rhs);
                        lemma_not_below(rewrite.lhs, 0, reserved);
                        lemma_not_below(rewrite.rhs, 0, reserved);
                    }
                    0
                },
            };
            if top == usize::MAX {
                return Err(Error::NoFreshVariable);
            }
            Symbol(top + 1)
        };
        proof {
            lemma_rewrite_variable(rewrite.lhs, rewrite.rhs);
        }
        let mut sides: Vec<Expr> = Vec::new();
        sides.push(Expr::Var(var));
        sides.push(rewrite.lhs);
        let mut body: Vec<Fact> = Vec::new();
        body.push(Fact::Eq(sides));
        let mut head: Vec<Action> = Vec::new();
        head.push(Action::Union(Expr::Var(var), rewrite.rhs));
        proof {
            assert(sides@ =~= seq![Expr::Var(var), rewrite.lhs]);
            assert(rewrite_body(body@, var, rewrite.lhs));
            assert(head@ =~= rewrite_head(var, rewrite.rhs));
        }
        self.add_compiled(body, head)
    }

    /// Runs a query against the tables. See [`query_post`].
    pub fn query(&self, query: &Query) -> (res: Vec<Vec<Value>>)
        requires
            self.wf(),
            query@.wf(),
        ensures
            query_post(self@, query@, lists_of(res@)),
    {
        run_query(&self.state, query)
    }

    /// The rows of the function as tuples, the output last; nothing where
    /// there is no such function.
    pub fn for_each_canonicalized(&self, name: Symbol) -> (r: Option<Vec<Vec<Value>>>)
        requires
            self.wf(),
        ensures
            match r {
                None => !has_function(self@.state.tables, name),
                Some(out) => {
                    &&& has_function(self@.state.tables, name)
                    &&& out@.len() == self@.state.tables[function_index(
                        self@.state.tables,
                        name,
                    )].rows.len()
                    &&& forall|k: int|
                        0 <= k < out@.len() ==> (#[trigger] out@[k])@
                            == crate::gj::row_tuple(
                            self@.state.tables[function_index(self@.state.tables, name)].rows[k],
                        )
                },
            },
    {
        match self.state.find_function(name) {
            None => None,
            Some(fi) => Some(self.state.tuples(fi)),
        }
    }

    /// Extracts a term of least cost from the class of an identifier. The
    /// graph must be in canonical form, as it is after a rebuild. See
    /// [`extract`].
    pub fn extract(&self, id: Id) -> (r: Result<(usize, Expr), Error>)
        requires
            self.wf(),
            self@.state.canonical(),
        ensures
            match r {
                Ok((cost, term)) => {
                    &&& id.0 < self@.state.roots.len()
                    &&& term_class(self@.state, term) == Some(self@.state.roots[id.0 as int])
                    &&& cost == node_count(term)
                    &&& cost < usize::MAX
                    &&& forall|other: Expr|
                        #[trigger] term_class(self@.state, other) == Some(
                            self@.state.roots[id.0 as int],
                        ) ==> cost <= node_count(other)
                },
                Err(e) => {
                    &&& e == Error::Unextractable(id)
                    &&& id.0 < self@.state.roots.len() ==> forall|other: Expr|
                        #[trigger] term_class(self@.state, other) == Some(
                            self@.state.roots[id.0 as int],
                        ) ==> node_count(other) >= usize::MAX
                },
            },
    {
        extract(&self.state, id)
    }

    /// Evaluates an expression, rebuilds, and extracts a term of least
    /// cost from the class of the value. See [`extract_post`].
    pub fn extract_expr(&mut self, e: &Expr) -> (r: Result<(usize, Expr), Error>)
        requires
            old(self).wf(),
        ensures
            final(self).wf(),
            extract_post(old(self)@, *e, final(self)@, r),
    {
        let v = match self.eval_closed_expr(e) {
            Err(err) => {
                return Err(err);
            },
            Ok(v) => v,
        };
        match self.rebuild() {
            Err(err) => {
                return Err(err);
            },
            Ok(_) => {},
        }
        proof {
            self.lemma_wf();
        }
        match v {
            Value::Id(id) => {
                if id.0 < self.state.num_ids() {
                    let r = self.extract(id);
                    proof {
                        match &r {
                            Ok((cost, term)) => {
                                let term = *term;
                                let st2 = self@.state;
                                let c = st2.roots[id.0 as int];
                                assert forall|ctx: Map<Symbol, Value>, fuel: nat|
                                    #[trigger] eval_spec(self@.env, st2, ctx, term, fuel) == (
                                        st2,
                                        Ok::<Value, Error>(Value::Id(Id(c as usize))),
                                    ) by {
                                    crate::extract::lemma_term_eval(self@.env, st2, ctx, term, fuel);
                                }
                            },
                            Err(_) => {},
                        }
                    }
                    r
                } else {
                    Err(Error::Type(TypeError::Mismatch))
                }
            },
            _ => Err(Error::Type(TypeError::Mismatch)),
        }
    }

    /// Evaluates an expression and binds it globally. See
    /// [`define_post`].
    pub fn define(&mut self, name: Symbol, e: &Expr) -> (r: Result<(), Error>)
        requires
            old(self).wf(),
        ensures
            final(self).wf(),
            define_post(old(self)@, name, *e, final(self)@, r),
    {
        let v = match self.eval_closed_expr(e) {
            Err(err) => {
                return Err(err);
            },
            Ok(v) => v,
        };
        if self.state.global(name).is_some() {
            return Err(Error::AlreadyDefined(name));
        }
        let ghost mid = self@;
        self.state.define_global(name, v);
        proof {
            assert(self@.constructors =~= mid.constructors);
            self.lemma_after(mid);
        }
        Ok(())
    }
}

impl Default for EGraph {
    /// A graph without sorts, functions, rules or classes, with the
    /// reserved symbols and the default primitives.
    fn default() -> (g: Self)
        ensures
            g.wf(),
            g@.symbols == reserved_names(),
            g@.sorts.len() == 0,
            g@.env.decls.len() == 0,
            are_default(g@.env.prims),
            g@.rules.len() == 0,
            g@.named == Map::<Symbol, usize>::empty(),
            g@.state.tables.len() == 0,
            g@.state.roots.len() == 0,
            g@.state.pool.len() == 0,
            g@.state.unions == 0,
            g@.state.globals == Map::<Symbol, Value>::empty(),
    {
        EGraph::new()
    }
}

} // verus!
