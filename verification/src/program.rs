//! The driver: one command at a time, and whole programs.

use crate::action::{check_spec, eval_actions_spec};
use crate::ast::{Action, Command, Expr, Variant};
use crate::egraph::{
    add_named_rewrite_post, add_named_rule_post, add_rule_post, compile_post, declare_function_post, define_post, extract_post, fresh_table,
    add_rewrite_post, query_post, report_errors, reports, with_constructor, with_sort,
    EGraph, GraphModel,
};
use crate::error::{fatal, is_fatal, same_error, Error, TypeError};
use crate::gj::lists_of;
use crate::model::{has_function, TableModel};
use crate::query::Query;
use crate::rules::{run_error, run_failures, run_spec, same_failures};
use crate::subst::Subst;
use crate::symbol::Symbol;
use crate::typecheck::{lemma_undefined_none, schema_ok, undefined_sorts};
use crate::value::{Type, Value};
use vstd::prelude::*;

verus! {

/// What a command that succeeded has done.
#[derive(Debug)]
pub enum Report {
    /// The datatype of this name was declared.
    Datatype(Symbol),
    /// The function of this name was declared.
    Function(Symbol),
    /// A rule was added at this position.
    Rule(usize),
    /// A rewrite was added as the rule at this position.
    Rewrite(usize),
    /// The rules ran for this many rounds; these heads failed, each with
    /// the position of its rule.
    Ran(usize, Vec<(usize, Error)>),
    /// A term of this cost was extracted.
    Extracted(usize, Expr),
    /// The fact holds.
    Checked,
    /// The action ran.
    Action,
    /// The name was bound globally.
    Defined(Symbol),
    /// All rules were dropped.
    ClearedRules,
    /// The query compiled to this and has these solutions.
    Query(Query, Vec<Vec<Value>>),
    /// The command was not to be run.
    Skipped,
}

/// Whether a function has this name, or one of the first `i` variants
/// has.
pub open spec fn name_taken(
    tables: Seq<TableModel>,
    variants: Seq<Variant>,
    i: int,
    name: Symbol,
) -> bool {
    has_function(tables, name) || exists|j: int| 0 <= j < i && (#[trigger] variants[j]).name == name
}

/// Everything that is wrong with variant `i` of a datatype: an undefined
/// sort for each of its types that names a sort other than the datatype
/// itself which was not declared, then its name if a function or an
/// earlier variant has it.
pub open spec fn variant_errors(pre: GraphModel, sort: Symbol, variants: Seq<Variant>, i: int) -> Seq<
    TypeError,
> {
    undefined_sorts(
        pre.sorts.push(sort),
        variants[i].types@,
        variants[i].types@.len() as int,
    ) + if name_taken(pre.state.tables, variants, i, variants[i].name) {
        seq![TypeError::FunctionAlreadyBound(variants[i].name)]
    } else {
        Seq::empty()
    }
}

/// Everything that is wrong with the first `n` variants of a datatype, in
/// their order.
pub open spec fn datatype_errors(
    pre: GraphModel,
    sort: Symbol,
    variants: Seq<Variant>,
    n: int,
) -> Seq<TypeError>
    decreases n,
{
    if n <= 0 {
        Seq::empty()
    } else {
        datatype_errors(pre, sort, variants, n - 1) + variant_errors(pre, sort, variants, n - 1)
    }
}

/// The graph after the first `n` variants were declared as constructors
/// of the sort.
pub open spec fn with_variants(g: GraphModel, sort: Symbol, variants: Seq<Variant>, n: int) -> GraphModel
    decreases n,
{
    if n <= 0 {
        g
    } else {
        with_constructor(
            with_variants(g, sort, variants, n - 1),
            variants[n - 1].name,
            variants[n - 1].types@,
            sort,
        )
    }
}

/// What declaring a datatype does. A sort name that is taken is an error.
/// Else all variants are checked before anything is declared: where any
/// is wrong, nothing changes and the error reports everything that is
/// wrong with all of them. Else the sort is declared, and each variant as
/// one of its constructors.
pub open spec fn datatype_post(
    pre: GraphModel,
    name: Symbol,
    variants: Seq<Variant>,
    post: GraphModel,
    r: Result<Report, Error>,
) -> bool {
    if pre.sorts.contains(name) {
        post == pre && r == Err::<Report, Error>(Error::SortAlreadyBound(name))
    } else if datatype_errors(pre, name, variants, variants.len() as int).len() > 0 {
        post == pre && (r matches Err(e) && reports(
            e,
            datatype_errors(pre, name, variants, variants.len() as int),
        ))
    } else {
        post == with_variants(with_sort(pre, name), name, variants, variants.len() as int) && r
            == Ok::<Report, Error>(Report::Datatype(name))
    }
}

/// What a command does to the graph, and what it reports.
///
/// A datatype declares its sort and its constructors, or nothing. A function, a
/// rule and a rewrite, with a name or without, are declared as the graph
/// declares them. `Run`
/// runs the rules for so many rounds and reports the heads that failed. `Extract` evaluates, rebuilds and
/// extracts. `Check` checks a fact under no substitution. `Action` runs
/// one action against the globals. `Define` binds a global. `Query`
/// compiles the facts and reports the solutions. The commands that read
/// or change rows are skipped where `should_run` is false.
pub open spec fn command_post(
    pre: GraphModel,
    cmd: Command,
    should_run: bool,
    post: GraphModel,
    r: Result<Report, Error>,
) -> bool {
    match cmd {
        Command::Datatype { name, variants } => datatype_post(pre, name, variants@, post, r),
        Command::Function(decl) => {
            exists|r0: Result<(), Error>| #[trigger]
                declare_function_post(pre, decl, post, r0) && match r0 {
                    Err(e) => r == Err::<Report, Error>(e),
                    Ok(_) => r == Ok::<Report, Error>(Report::Function(decl.name)),
                }
        },
        Command::Rule(rule) => {
            exists|r0: Result<usize, Error>| #[trigger]
                add_rule_post(pre, rule.body@, rule.head@, post, r0) && match r0 {
                    Err(e) => r == Err::<Report, Error>(e),
                    Ok(i) => r == Ok::<Report, Error>(Report::Rule(i)),
                }
        },
        Command::Rewrite(rw) => {
            exists|r0: Result<usize, Error>| #[trigger]
                add_rewrite_post(pre, rw.lhs, rw.rhs, post, r0) && match r0 {
                    Err(e) => r == Err::<Report, Error>(e),
                    Ok(i) => r == Ok::<Report, Error>(Report::Rewrite(i)),
                }
        },
        Command::NamedRule(name, rule) => {
            exists|r0: Result<usize, Error>| #[trigger]
                add_named_rule_post(pre, name, rule.body@, rule.head@, post, r0) && match r0 {
                    Err(e) => r == Err::<Report, Error>(e),
                    Ok(i) => r == Ok::<Report, Error>(Report::Rule(i)),
                }
        },
        Command::NamedRewrite(name, rw) => {
            exists|r0: Result<usize, Error>| #[trigger]
                add_named_rewrite_post(pre, name, rw.lhs, rw.rhs, post, r0) && match r0 {
                    Err(e) => r == Err::<Report, Error>(e),
                    Ok(i) => r == Ok::<Report, Error>(Report::Rewrite(i)),
                }
        },
        Command::Run(limit) => if should_run {
            &&& post == pre.with_state(
                run_spec(pre.env, pre.rules, pre.state, limit as nat, pre.fuel()),
            )
            &&& match run_error(pre.env, pre.rules, pre.state, limit as nat, pre.fuel()) {
                Some(err) => r matches Err(got) && same_error(got, err),
                None => {
                    &&& r matches Ok(Report::Ran(n, failed))
                    &&& n == limit
                    &&& same_failures(
                        failed@,
                        run_failures(pre.env, pre.rules, pre.state, limit as nat, pre.fuel()),
                    )
                },
            }
        } else {
            post == pre && r == Ok::<Report, Error>(Report::Skipped)
        },
        Command::Extract(e) => if should_run {
            exists|r0: Result<(usize, Expr), Error>| #[trigger]
                extract_post(pre, e, post, r0) && match r0 {
                    Err(err) => r == Err::<Report, Error>(err),
                    Ok((cost, term)) => r == Ok::<Report, Error>(Report::Extracted(cost, term)),
                }
        } else {
            post == pre && r == Ok::<Report, Error>(Report::Skipped)
        },
        Command::Check(fact) => if should_run {
            let (st, out) = check_spec(pre.env, pre.state, Map::empty(), fact, pre.fuel());
            &&& post == pre.with_state(st)
            &&& match out {
                Err(err) => r matches Err(got) && same_error(got, err),
                Ok(_) => r == Ok::<Report, Error>(Report::Checked),
            }
        } else {
            post == pre && r == Ok::<Report, Error>(Report::Skipped)
        },
        Command::Action(a) => if should_run {
            let (st, _, out) = eval_actions_spec(pre.env, pre.state, None, seq![a], 0, pre.fuel());
            &&& post == pre.with_state(st)
            &&& match out {
                Err(err) => r matches Err(got) && same_error(got, err),
                Ok(_) => r == Ok::<Report, Error>(Report::Action),
            }
        } else {
            post == pre && r == Ok::<Report, Error>(Report::Skipped)
        },
        Command::Define(name, e) => if should_run {
            exists|r0: Result<(), Error>| #[trigger]
                define_post(pre, name, e, post, r0) && match r0 {
                    Err(err) => r == Err::<Report, Error>(err),
                    Ok(_) => r == Ok::<Report, Error>(Report::Defined(name)),
                }
        } else {
            post == pre && r == Ok::<Report, Error>(Report::Skipped)
        },
        Command::ClearRules => {
            post == (GraphModel { rules: Seq::empty(), named: Map::empty(), ..pre }) && r == Ok::<
                Report,
                Error,
            >(Report::ClearedRules)
        },
        Command::Query(facts) => {
            &&& post == pre
            &&& match r {
                Ok(Report::Query(q, res)) => compile_post(pre, facts@, Ok(q)) && query_post(
                    pre,
                    q@,
                    lists_of(res@),
                ),
                Ok(_) => false,
                Err(e) => compile_post(pre, facts@, Err(e)),
            }
        },
    }
}

fn copy_types(v: &Vec<Type>) -> (r: Vec<Type>)
    ensures
        r@ == v@,
{
    let mut out: Vec<Type> = Vec::new();
    let mut i: usize = 0;
    while i < v.len()
        invariant
            i <= v@.len(),
            out@ == v@.subrange(0, i as int),
        decreases v@.len() - i,
    {
        out.push(v[i]);
        assert(out@ =~= v@.subrange(0, i + 1));
        i += 1;
    }
    assert(out@ =~= v@);
    out
}

/// Whether an outcome of a command ends the program.
pub open spec fn ends_program(ri: Result<Report, Error>) -> bool {
    ri matches Err(e) && fatal(e)
}

/// What running the commands `cmds[i..]` does, where `done` holds the
/// outcomes of the commands before them: each command runs on the graph
/// that the one before it left, whether that one succeeded or failed, and
/// adds its outcome. Only a command that fails with a fatal error ends
/// the program; its outcome is then the last.
pub open spec fn program_post(
    pre: GraphModel,
    cmds: Seq<Command>,
    i: int,
    done: Seq<Result<Report, Error>>,
    post: GraphModel,
    r: Seq<Result<Report, Error>>,
) -> bool
    decreases cmds.len() - i,
{
    if i < 0 || i >= cmds.len() {
        post == pre && r == done
    } else {
        exists|mid: GraphModel, ri: Result<Report, Error>| #[trigger]
            command_post(pre, cmds[i], true, mid, ri) && if ends_program(ri) {
                post == mid && r == done.push(ri)
            } else {
                program_post(mid, cmds, i + 1, done.push(ri), post, r)
            }
    }
}

/// Where the variants of a datatype have no errors, none of them has.
pub proof fn lemma_errors_split(
    pre: GraphModel,
    sort: Symbol,
    variants: Seq<Variant>,
    n: int,
    i: int,
)
    requires
        0 <= i < n,
        datatype_errors(pre, sort, variants, n).len() == 0,
    ensures
        variant_errors(pre, sort, variants, i).len() == 0,
    decreases n,
{
    if i < n - 1 {
        lemma_errors_split(pre, sort, variants, n - 1, i);
    }
}

impl EGraph {
    /// Everything that is wrong with the variants of a datatype that is
    /// about to be declared; see [`datatype_errors`].
    fn check_variants(&self, sort: Symbol, variants: &Vec<Variant>) -> (errs: Vec<TypeError>)
        requires
            self.wf(),
        ensures
            errs@ == datatype_errors(self@, sort, variants@, variants@.len() as int),
    {
        let mut errs: Vec<TypeError> = Vec::new();
        let ghost sorts = self@.sorts.push(sort);
        let mut i: usize = 0;
        while i < variants.len()
            invariant
                i <= variants@.len(),
                self.wf(),
                sorts == self@.sorts.push(sort),
                errs@ == datatype_errors(self@, sort, variants@, i as int),
            decreases variants@.len() - i,
        {
            let ghost before = errs@;
            let types = &variants[i].types;
            let mut k: usize = 0;
            while k < types.len()
                invariant
                    k <= types@.len(),
                    i < variants@.len(),
                    self.wf(),
                    types@ == variants@[i as int].types@,
                    sorts == self@.sorts.push(sort),
                    errs@ == before + undefined_sorts(sorts, types@, k as int),
                decreases types@.len() - k,
            {
                let ghost sofar = undefined_sorts(sorts, types@, k as int);
                match types[k] {
                    Type::Sort(s) => {
                        proof {
                            assert(sorts[sorts.len() - 1] == sort);
                            if self@.sorts.contains(s) {
                                let w = self@.sorts.index_of(s);
                                assert(sorts[w] == s);
                            }
                            if sorts.contains(s) && s != sort {
                                let w = sorts.index_of(s);
                                assert(self@.sorts[w] == s);
                            }
                        }
                        if s != sort && !self.has_sort(s) {
                            errs.push(TypeError::UndefinedSort(s));
                            assert(errs@ =~= before + sofar.push(TypeError::UndefinedSort(s)));
                        }
                    },
                    _ => {},
                }
                k += 1;
            }
            let ghost mid = errs@;
            let name = variants[i].name;
            let mut taken = self.has_function(name);
            let mut j: usize = 0;
            while j < i
                invariant
                    j <= i,
                    i < variants@.len(),
                    name == variants@[i as int].name,
                    taken == name_taken(self@.state.tables, variants@, j as int, name),
                decreases i - j,
            {
                if variants[j].name == name {
                    taken = true;
                }
                j += 1;
            }
            if taken {
                errs.push(TypeError::FunctionAlreadyBound(name));
                assert(errs@ =~= mid + seq![TypeError::FunctionAlreadyBound(name)]);
            } else {
                assert(errs@ =~= mid + Seq::<TypeError>::empty());
            }
            proof {
                let own = variant_errors(self@, sort, variants@, i as int);
                assert(errs@ =~= before + own);
            }
            i += 1;
        }
        errs
    }

    /// Declares the variants of a datatype, all of which were found to be
    /// right, as constructors of its sort.
    fn declare_variants(&mut self, sort: Symbol, variants: &Vec<Variant>, Ghost(pre): Ghost<GraphModel>)
        requires
            old(self).wf(),
            !pre.sorts.contains(sort),
            old(self)@ == with_sort(pre, sort),
            datatype_errors(pre, sort, variants@, variants@.len() as int).len() == 0,
        ensures
            final(self).wf(),
            final(self)@ == with_variants(
                with_sort(pre, sort),
                sort,
                variants@,
                variants@.len() as int,
            ),
    {
        let mut i: usize = 0;
        let ghost start = self@;
        while i < variants.len()
            invariant
                i <= variants@.len(),
                self.wf(),
                start == with_sort(pre, sort),
                datatype_errors(pre, sort, variants@, variants@.len() as int).len() == 0,
                self@ == with_variants(start, sort, variants@, i as int),
                self@.sorts == start.sorts,
                forall|n: Symbol|
                    has_function(self@.state.tables, n) <==> #[trigger] name_taken(
                        pre.state.tables,
                        variants@,
                        i as int,
                        n,
                    ),
            decreases variants@.len() - i,
        {
            let ghost before = self@;
            let types = copy_types(&variants[i].types);
            let name = variants[i].name;
            proof {
                lemma_errors_split(pre, sort, variants@, variants@.len() as int, i as int);
                assert(variant_errors(pre, sort, variants@, i as int).len() == 0);
                lemma_undefined_none(start.sorts, types@, types@.len() as int);
                assert(start.sorts[start.sorts.len() - 1] == sort);
                assert(!name_taken(pre.state.tables, variants@, i as int, name));
                assert(schema_ok(
                    before.sorts,
                    before.state.tables,
                    name,
                    types@,
                    Type::Sort(sort),
                ));
            }
            let _ = self.declare_constructor(name, types, sort);
            proof {
                assert(self@ == with_constructor(before, name, variants@[i as int].types@, sort));
                let t = fresh_table(name, variants@[i as int].types@, Type::Sort(sort));
                assert(self@.state.tables == before.state.tables.push(t));
                assert forall|n: Symbol|
                    has_function(self@.state.tables, n) <==> #[trigger] name_taken(
                        pre.state.tables,
                        variants@,
                        i + 1,
                        n,
                    ) by {
                    let now = self@.state.tables;
                    let old_tables = before.state.tables;
                    if has_function(now, n) {
                        let x = choose|x: int| 0 <= x < now.len() && (#[trigger] now[x]).name == n;
                        if x < old_tables.len() {
                            assert(old_tables[x].name == n);
                            assert(has_function(old_tables, n));
                            assert(name_taken(pre.state.tables, variants@, i as int, n));
                        } else {
                            assert(variants@[i as int].name == n);
                        }
                    }
                    if name_taken(pre.state.tables, variants@, i + 1, n) {
                        if name_taken(pre.state.tables, variants@, i as int, n) {
                            assert(has_function(old_tables, n));
                            let x = choose|x: int|
                                0 <= x < old_tables.len() && (#[trigger] old_tables[x]).name == n;
                            assert(now[x].name == n);
                        } else {
                            let j = choose|j: int| 0 <= j < i + 1 && (#[trigger] variants@[j]).name == n;
                            assert(j == i);
                            assert(now[old_tables.len() as int].name == n);
                        }
                    }
                }
            }
            i += 1;
        }
    }

    /// Runs one command. See [`command_post`].
    pub fn run_command(&mut self, command: Command, should_run: bool) -> (r: Result<Report, Error>)
        requires
            old(self).wf(),
        ensures
            final(self).wf(),
            command_post(old(self)@, command, should_run, final(self)@, r),
    {
        let ghost pre = self@;
        match command {
            Command::Datatype { name, variants } => {
                if self.has_sort(name) {
                    return Err(Error::SortAlreadyBound(name));
                }
                let errs = self.check_variants(name, &variants);
                if errs.len() > 0 {
                    return Err(report_errors(errs));
                }
                let _ = self.declare_sort(name);
                self.declare_variants(name, &variants, Ghost(pre));
                Ok(Report::Datatype(name))
            },
            Command::Function(decl) => {
                let name = decl.name;
                let r0 = self.declare_function(decl);
                match r0 {
                    Err(e) => {
                        proof {
                            assert(declare_function_post(pre, decl, self@, Err::<(), Error>(e)));
                        }
                        Err(e)
                    },
                    Ok(_) => {
                        proof {
                            assert(declare_function_post(pre, decl, self@, r0));
                        }
                        Ok(Report::Function(name))
                    },
                }
            },
            Command::Rule(rule) => {
                let ghost body = rule.body@;
                let ghost head = rule.head@;
                let r0 = self.add_rule(rule);
                match r0 {
                    Err(e) => {
                        proof {
                            assert(add_rule_post(pre, body, head, self@, Err::<usize, Error>(e)));
                        }
                        Err(e)
                    },
                    Ok(i) => {
                        proof {
                            assert(add_rule_post(pre, body, head, self@, r0));
                        }
                        Ok(Report::Rule(i))
                    },
                }
            },
            Command::Rewrite(rw) => {
                let ghost lhs = rw.lhs;
                let ghost rhs = rw.rhs;
                let r0 = self.add_rewrite(rw);
                match r0 {
                    Err(e) => {
                        proof {
                            assert(add_rewrite_post(pre, lhs, rhs, self@, Err::<usize, Error>(e)));
                        }
                        Err(e)
                    },
                    Ok(i) => {
                        proof {
                            assert(add_rewrite_post(pre, lhs, rhs, self@, r0));
                        }
                        Ok(Report::Rewrite(i))
                    },
                }
            },
            Command::NamedRule(name, rule) => {
                let ghost body = rule.body@;
                let ghost head = rule.head@;
                let r0 = self.add_rule_with_name(name, rule);
                match r0 {
                    Err(e) => {
                        proof {
                            assert(add_named_rule_post(
                                pre,
                                name,
                                body,
                                head,
                                self@,
                                Err::<usize, Error>(e),
                            ));
                        }
                        Err(e)
                    },
                    Ok(i) => {
                        proof {
                            assert(add_named_rule_post(pre, name, body, head, self@, r0));
                        }
                        Ok(Report::Rule(i))
                    },
                }
            },
            Command::NamedRewrite(name, rw) => {
                let ghost lhs = rw.lhs;
                let ghost rhs = rw.rhs;
                let r0 = self.add_rewrite_with_name(name, rw);
                match r0 {
                    Err(e) => {
                        proof {
                            assert(add_named_rewrite_post(
                                pre,
                                name,
                                lhs,
                                rhs,
                                self@,
                                Err::<usize, Error>(e),
                            ));
                        }
                        Err(e)
                    },
                    Ok(i) => {
                        proof {
                            assert(add_named_rewrite_post(pre, name, lhs, rhs, self@, r0));
                        }
                        Ok(Report::Rewrite(i))
                    },
                }
            },
            Command::Run(limit) => {
                if should_run {
                    match self.run_rules(limit) {
                        Err(err) => Err(err),
                        Ok(failed) => Ok(Report::Ran(limit, failed)),
                    }
                } else {
                    Ok(Report::Skipped)
                }
            },
            Command::Extract(e) => {
                if should_run {
                    let r0 = self.extract_expr(&e);
                    match r0 {
                        Err(err) => {
                            proof {
                                assert(extract_post(
                                    pre,
                                    e,
                                    self@,
                                    Err::<(usize, Expr), Error>(err),
                                ));
                            }
                            Err(err)
                        },
                        Ok((cost, term)) => {
                            proof {
                                assert(extract_post(pre, e, self@, r0));
                            }
                            Ok(Report::Extracted(cost, term))
                        },
                    }
                } else {
                    Ok(Report::Skipped)
                }
            },
            Command::Check(fact) => {
                if should_run {
                    let empty = Subst::new();
                    match self.check_with(&empty, &fact) {
                        Err(err) => Err(err),
                        Ok(_) => Ok(Report::Checked),
                    }
                } else {
                    Ok(Report::Skipped)
                }
            },
            Command::Action(a) => {
                if should_run {
                    let mut actions: Vec<Action> = Vec::new();
                    actions.push(a);
                    assert(actions@ =~= seq![a]);
                    match self.eval_actions(None, actions.as_slice()) {
                        Err(err) => Err(err),
                        Ok(_) => Ok(Report::Action),
                    }
                } else {
                    Ok(Report::Skipped)
                }
            },
            Command::Define(name, e) => {
                if should_run {
                    let r0 = self.define(name, &e);
                    match r0 {
                        Err(err) => {
                            proof {
                                assert(define_post(pre, name, e, self@, Err::<(), Error>(err)));
                            }
                            Err(err)
                        },
                        Ok(_) => {
                            proof {
                                assert(define_post(pre, name, e, self@, r0));
                            }
                            Ok(Report::Defined(name))
                        },
                    }
                } else {
                    Ok(Report::Skipped)
                }
            },
            Command::ClearRules => {
                self.clear_rules();
                Ok(Report::ClearedRules)
            },
            Command::Query(facts) => {
                match self.compile_query(facts) {
                    Err(e) => Err(e),
                    Ok(q) => {
                        let res = self.query(&q);
                        Ok(Report::Query(q, res))
                    },
                }
            },
        }
    }

    /// Runs the commands in order and returns the outcome of each. A
    /// command that fails leaves its error as its outcome, and the next
    /// command runs on the graph as the failed one left it. Only a fatal
    /// error ends the program early. See [`program_post`].
    pub fn run_program(&mut self, program: Vec<Command>) -> (r: Vec<Result<Report, Error>>)
        requires
            old(self).wf(),
        ensures
            final(self).wf(),
            program_post(old(self)@, program@, 0, Seq::empty(), final(self)@, r@),
    {
        let ghost cmds = program@;
        let mut rest = program;
        let mut outcomes: Vec<Result<Report, Error>> = Vec::new();
        let mut i: usize = 0;
        while i < rest.len()
            invariant
                i <= cmds.len(),
                cmds == program@,
                rest@.len() == cmds.len(),
                forall|k: int| i <= k < cmds.len() ==> rest@[k] == cmds[k],
                self.wf(),
                forall|post: GraphModel, r: Seq<Result<Report, Error>>|
                    program_post(self@, cmds, i as int, outcomes@, post, r)
                        ==> #[trigger] program_post(old(self)@, cmds, 0, Seq::empty(), post, r),
            decreases cmds.len() - i,
        {
            let mut command = Command::ClearRules;
            std::mem::swap(&mut rest[i], &mut command);
            assert(command == cmds[i as int]);
            let ghost before = self@;
            let ghost done = outcomes@;
            let ri = self.run_command(command, true);
            let stop = match &ri {
                Err(e) => is_fatal(e),
                Ok(_) => false,
            };
            proof {
                assert(command_post(before, cmds[i as int], true, self@, ri));
                assert(stop == ends_program(ri));
            }
            outcomes.push(ri);
            if stop {
                proof {
                    assert(program_post(before, cmds, i as int, done, self@, outcomes@));
                }
                return outcomes;
            }
            proof {
                assert forall|post: GraphModel, r: Seq<Result<Report, Error>>|
                    program_post(
                        self@,
                        cmds,
                        i + 1,
                        outcomes@,
                        post,
                        r,
                    ) implies #[trigger] program_post(
                    old(self)@,
                    cmds,
                    0,
                    Seq::empty(),
                    post,
                    r,
                ) by {
                    assert(program_post(before, cmds, i as int, done, post, r));
                }
            }
            i += 1;
        }
        outcomes
    }
}

} // verus!
