//! Laws of the engine that relate several operations.

use crate::ast::{same_expr, Command, Expr, Fact};
use crate::egraph::{
    add_named_rewrite_post, add_named_rule_post, add_rewrite_post, add_rule_post, named_after, declare_function_post, define_post, extract_post, has_fresh,
    rewrite_body, rewrite_head, rewrite_variable, GraphModel,
};
use crate::rebuild::{
    lemma_pass, lemma_pass_idempotent, lemma_pass_progress, pass_ends, pass_error, pass_spec,
    settle_count, settle_error, settle_fuel, settle_measure, settle_spec,
};
use crate::error::{same_error, Error};
use crate::extract::term_class;
use crate::function::{canon_args, keys_distinct, row_canonical};
use crate::gj::lists_of;
use crate::model::{Env, StateModel};
use crate::program::{command_post, ends_program, program_post, Report};
use crate::symbol::Symbol;
use crate::query::{compile_spec, facts_clash, flatten_facts};
use vstd::prelude::*;

verus! {

/// Congruence after a rebuild: in a canonical state, two different rows of
/// one table have keys that still differ in some position when they are
/// brought into canonical form, so no two rows stand for the same
/// application.
pub proof fn law_congruence(st: StateModel, f: int, a: int, b: int)
    requires
        st.wf(),
        st.canonical(),
        0 <= f < st.tables.len(),
        0 <= a < st.tables[f].rows.len(),
        0 <= b < st.tables[f].rows.len(),
        a != b,
    ensures
        canon_args(st.roots, st.tables[f].input, st.tables[f].rows[a].0) != canon_args(
            st.roots,
            st.tables[f].input,
            st.tables[f].rows[b].0,
        ),
{
    let t = st.tables[f];
    assert(t.canonical(st.roots));
    assert(row_canonical(st.roots, t.input, t.output, t.rows[a]));
    assert(row_canonical(st.roots, t.input, t.output, t.rows[b]));
    assert(keys_distinct(t.rows));
    if a < b {
        assert(t.rows[a].0 != t.rows[b].0);
    } else {
        assert(t.rows[b].0 != t.rows[a].0);
    }
}

/// A rebuild with enough passes ends in a well-formed state. Where it
/// meets no error, every row is canonical in that state and no insertion
/// is counted.
pub proof fn lemma_settle(env: Env, st: StateModel, fuel: nat)
    requires
        st.wf(),
        fuel >= settle_measure(st) + 1,
    ensures
        settle_spec(env, st, fuel).wf(),
        settle_error(env, st, fuel) is None ==> settle_spec(env, st, fuel).canonical(),
        settle_error(env, st, fuel) is None ==> settle_spec(env, st, fuel).settled(),
    decreases fuel,
{
    let n = st.tables.len() as int;
    lemma_pass(env, st, n);
    let p = pass_spec(env, st, n);
    if pass_ends(env, st) {
        if pass_error(env, st, n) is None {
            assert(p.canonical()) by {
                assert forall|i: int| 0 <= i < p.tables.len() implies (
                #[trigger] p.tables[i]).canonical(p.roots) by {
                    assert(p.tables[i].canonical(st.roots));
                }
            }
        }
    } else {
        lemma_pass_progress(env, st);
        lemma_settle(env, p, (fuel - 1) as nat);
    }
}

/// Idempotence of the rebuild: a rebuild right after a rebuild that met no
/// error reports nothing, changes nothing and meets no error.
pub proof fn law_rebuild_idempotent(env: Env, st: StateModel)
    requires
        st.wf(),
        settle_error(env, st, settle_fuel(st)) is None,
    ensures
        settle_count(
            env,
            settle_spec(env, st, settle_fuel(st)),
            settle_fuel(settle_spec(env, st, settle_fuel(st))),
        ) == 0,
        settle_error(
            env,
            settle_spec(env, st, settle_fuel(st)),
            settle_fuel(settle_spec(env, st, settle_fuel(st))),
        ) is None,
        settle_spec(
            env,
            settle_spec(env, st, settle_fuel(st)),
            settle_fuel(settle_spec(env, st, settle_fuel(st))),
        ) == settle_spec(env, st, settle_fuel(st)),
{
    lemma_settle(env, st, settle_fuel(st));
    let once = settle_spec(env, st, settle_fuel(st));
    lemma_pass_idempotent(env, once, once.tables.len() as int);
}

/// Whether two reports say the same: the same command did the same. Of an
/// extraction only the cost must agree: the terms may differ where several
/// have the least cost.
pub open spec fn same_report(a: Report, b: Report) -> bool {
    match (a, b) {
        (Report::Datatype(x), Report::Datatype(y)) => x == y,
        (Report::Function(x), Report::Function(y)) => x == y,
        (Report::Rule(x), Report::Rule(y)) => x == y,
        (Report::Rewrite(x), Report::Rewrite(y)) => x == y,
        (Report::Ran(x, f), Report::Ran(y, g)) => {
            &&& x == y
            &&& f@.len() == g@.len()
            &&& forall|i: int|
                0 <= i < f@.len() ==> (#[trigger] f@[i]).0 == g@[i].0 && same_failure(
                    f@[i].1,
                    g@[i].1,
                )
        },
        (Report::Extracted(x, _), Report::Extracted(y, _)) => x == y,
        (Report::Checked, Report::Checked) => true,
        (Report::Action, Report::Action) => true,
        (Report::Defined(x), Report::Defined(y)) => x == y,
        (Report::ClearedRules, Report::ClearedRules) => true,
        (Report::Query(p, x), Report::Query(q, y)) => p@ == q@ && lists_of(x@) == lists_of(y@),
        (Report::Skipped, Report::Skipped) => true,
        _ => false,
    }
}

/// Whether two errors are the same failure: of the same kind with the
/// same payload. Two expressions that were not found are copies of one
/// expression.
pub open spec fn same_failure(a: Error, b: Error) -> bool {
    match (a, b) {
        (Error::NotFound(x), Error::NotFound(y)) => exists|m: Expr|
            #![trigger same_expr(m, x.0)]
            same_expr(m, x.0) && same_expr(m, y.0),
        (Error::Type(x), Error::Type(y)) => x == y,
        (Error::TypeErrors(x), Error::TypeErrors(y)) => x@ == y@,
        (Error::CheckFailed(p, q), Error::CheckFailed(r, s)) => p == r && q == s,
        (Error::SortAlreadyBound(x), Error::SortAlreadyBound(y)) => x == y,
        (Error::PrimitiveAmbiguity(x), Error::PrimitiveAmbiguity(y)) => x == y,
        (Error::Unextractable(x), Error::Unextractable(y)) => x == y,
        (Error::UserPanic(x), Error::UserPanic(y)) => x@ == y@,
        (Error::InconsistentQuery, Error::InconsistentQuery) => true,
        (Error::AlreadyDefined(x), Error::AlreadyDefined(y)) => x == y,
        (Error::IllegalFact, Error::IllegalFact) => true,
        (Error::RuleAlreadyBound(x), Error::RuleAlreadyBound(y)) => x == y,
        (Error::NoFreshVariable, Error::NoFreshVariable) => true,
        _ => false,
    }
}

/// Whether two outcomes of a command agree.
pub open spec fn same_command_outcome(a: Result<Report, Error>, b: Result<Report, Error>) -> bool {
    match (a, b) {
        (Ok(x), Ok(y)) => same_report(x, y),
        (Err(x), Err(y)) => same_failure(x, y),
        _ => false,
    }
}

/// Whether two lists of outcomes agree, outcome by outcome.
pub open spec fn same_outcomes(a: Seq<Result<Report, Error>>, b: Seq<Result<Report, Error>>) -> bool {
    a.len() == b.len() && forall|i: int|
        0 <= i < a.len() ==> same_command_outcome(#[trigger] a[i], b[i])
}

proof fn lemma_copies_agree(a: Error, b: Error, model: Error)
    requires
        same_error(a, model),
        same_error(b, model),
    ensures
        same_failure(a, b),
{
}

proof fn lemma_rewrite_bodies(b1: Seq<Fact>, b2: Seq<Fact>, var: Symbol, lhs: Expr)
    requires
        rewrite_body(b1, var, lhs),
        rewrite_body(b2, var, lhs),
    ensures
        compile_spec(b1) == compile_spec(b2),
        facts_clash(b1) == facts_clash(b2),
{
    reveal_with_fuel(flatten_facts, 2);
    assert(flatten_facts(b1, 1) == flatten_facts(b2, 1));
}

/// Whether two attempts to add a rule agree: on the position, or on the
/// failure.
pub open spec fn same_position(a: Result<usize, Error>, b: Result<usize, Error>) -> bool {
    match (a, b) {
        (Ok(x), Ok(y)) => x == y,
        (Err(x), Err(y)) => same_failure(x, y),
        _ => false,
    }
}

proof fn lemma_rule_deterministic(
    pre: GraphModel,
    body: Seq<Fact>,
    head: Seq<crate::ast::Action>,
    m1: GraphModel,
    x1: Result<usize, Error>,
    m2: GraphModel,
    x2: Result<usize, Error>,
)
    requires
        add_rule_post(pre, body, head, m1, x1),
        add_rule_post(pre, body, head, m2, x2),
    ensures
        m1 == m2,
        same_position(x1, x2),
{
}

proof fn lemma_rewrite_deterministic(
    pre: GraphModel,
    lhs: Expr,
    rhs: Expr,
    m1: GraphModel,
    x1: Result<usize, Error>,
    m2: GraphModel,
    x2: Result<usize, Error>,
)
    requires
        add_rewrite_post(pre, lhs, rhs, m1, x1),
        add_rewrite_post(pre, lhs, rhs, m2, x2),
    ensures
        m1 == m2,
        same_position(x1, x2),
{
    if has_fresh(lhs, rhs) {
        let var = rewrite_variable(lhs, rhs);
        let b1 = choose|body: Seq<Fact>| #[trigger]
            rewrite_body(body, var, lhs) && add_rule_post(
                pre,
                body,
                rewrite_head(var, rhs),
                m1,
                x1,
            );
        let b2 = choose|body: Seq<Fact>| #[trigger]
            rewrite_body(body, var, lhs) && add_rule_post(
                pre,
                body,
                rewrite_head(var, rhs),
                m2,
                x2,
            );
        lemma_rewrite_bodies(b1, b2, var, lhs);
    }
}

/// One command leaves one graph: whatever a command can do to a graph, it
/// does the same each time, and reports the same.
pub proof fn law_command_deterministic(
    pre: GraphModel,
    cmd: Command,
    should_run: bool,
    post1: GraphModel,
    r1: Result<Report, Error>,
    post2: GraphModel,
    r2: Result<Report, Error>,
)
    requires
        command_post(pre, cmd, should_run, post1, r1),
        command_post(pre, cmd, should_run, post2, r2),
    ensures
        post1 == post2,
        same_command_outcome(r1, r2),
{
    match cmd {
        Command::Datatype { name, variants } => {},
        Command::Function(decl) => {
            let x1 = choose|r0: Result<(), Error>| #[trigger]
                declare_function_post(pre, decl, post1, r0) && match r0 {
                    Err(e) => r1 == Err::<Report, Error>(e),
                    Ok(_) => r1 == Ok::<Report, Error>(Report::Function(decl.name)),
                };
            let x2 = choose|r0: Result<(), Error>| #[trigger]
                declare_function_post(pre, decl, post2, r0) && match r0 {
                    Err(e) => r2 == Err::<Report, Error>(e),
                    Ok(_) => r2 == Ok::<Report, Error>(Report::Function(decl.name)),
                };
        },
        Command::Rule(rule) => {
            let x1 = choose|r0: Result<usize, Error>| #[trigger]
                add_rule_post(pre, rule.body@, rule.head@, post1, r0) && match r0 {
                    Err(e) => r1 == Err::<Report, Error>(e),
                    Ok(i) => r1 == Ok::<Report, Error>(Report::Rule(i)),
                };
            let x2 = choose|r0: Result<usize, Error>| #[trigger]
                add_rule_post(pre, rule.body@, rule.head@, post2, r0) && match r0 {
                    Err(e) => r2 == Err::<Report, Error>(e),
                    Ok(i) => r2 == Ok::<Report, Error>(Report::Rule(i)),
                };
        },
        Command::Rewrite(rw) => {
            let x1 = choose|r0: Result<usize, Error>| #[trigger]
                add_rewrite_post(pre, rw.lhs, rw.rhs, post1, r0) && match r0 {
                    Err(e) => r1 == Err::<Report, Error>(e),
                    Ok(i) => r1 == Ok::<Report, Error>(Report::Rewrite(i)),
                };
            let x2 = choose|r0: Result<usize, Error>| #[trigger]
                add_rewrite_post(pre, rw.lhs, rw.rhs, post2, r0) && match r0 {
                    Err(e) => r2 == Err::<Report, Error>(e),
                    Ok(i) => r2 == Ok::<Report, Error>(Report::Rewrite(i)),
                };
            if has_fresh(rw.lhs, rw.rhs) {
                let var = rewrite_variable(rw.lhs, rw.rhs);
                let b1 = choose|body: Seq<Fact>| #[trigger]
                    rewrite_body(body, var, rw.lhs) && add_rule_post(
                        pre,
                        body,
                        rewrite_head(var, rw.rhs),
                        post1,
                        x1,
                    );
                let b2 = choose|body: Seq<Fact>| #[trigger]
                    rewrite_body(body, var, rw.lhs) && add_rule_post(
                        pre,
                        body,
                        rewrite_head(var, rw.rhs),
                        post2,
                        x2,
                    );
                lemma_rewrite_bodies(b1, b2, var, rw.lhs);
            }
        },
        Command::NamedRule(name, rule) => {
            let x1 = choose|r0: Result<usize, Error>| #[trigger]
                add_named_rule_post(pre, name, rule.body@, rule.head@, post1, r0) && match r0 {
                    Err(e) => r1 == Err::<Report, Error>(e),
                    Ok(i) => r1 == Ok::<Report, Error>(Report::Rule(i)),
                };
            let x2 = choose|r0: Result<usize, Error>| #[trigger]
                add_named_rule_post(pre, name, rule.body@, rule.head@, post2, r0) && match r0 {
                    Err(e) => r2 == Err::<Report, Error>(e),
                    Ok(i) => r2 == Ok::<Report, Error>(Report::Rule(i)),
                };
            if !pre.named.contains_key(name) {
                let m1 = choose|mid: GraphModel| #[trigger]
                    add_rule_post(pre, rule.body@, rule.head@, mid, x1) && post1 == named_after(
                        mid,
                        name,
                        x1,
                    );
                let m2 = choose|mid: GraphModel| #[trigger]
                    add_rule_post(pre, rule.body@, rule.head@, mid, x2) && post2 == named_after(
                        mid,
                        name,
                        x2,
                    );
                lemma_rule_deterministic(pre, rule.body@, rule.head@, m1, x1, m2, x2);
            }
        },
        Command::NamedRewrite(name, rw) => {
            let x1 = choose|r0: Result<usize, Error>| #[trigger]
                add_named_rewrite_post(pre, name, rw.lhs, rw.rhs, post1, r0) && match r0 {
                    Err(e) => r1 == Err::<Report, Error>(e),
                    Ok(i) => r1 == Ok::<Report, Error>(Report::Rewrite(i)),
                };
            let x2 = choose|r0: Result<usize, Error>| #[trigger]
                add_named_rewrite_post(pre, name, rw.lhs, rw.rhs, post2, r0) && match r0 {
                    Err(e) => r2 == Err::<Report, Error>(e),
                    Ok(i) => r2 == Ok::<Report, Error>(Report::Rewrite(i)),
                };
            if !pre.named.contains_key(name) {
                let m1 = choose|mid: GraphModel| #[trigger]
                    add_rewrite_post(pre, rw.lhs, rw.rhs, mid, x1) && post1 == named_after(
                        mid,
                        name,
                        x1,
                    );
                let m2 = choose|mid: GraphModel| #[trigger]
                    add_rewrite_post(pre, rw.lhs, rw.rhs, mid, x2) && post2 == named_after(
                        mid,
                        name,
                        x2,
                    );
                lemma_rewrite_deterministic(pre, rw.lhs, rw.rhs, m1, x1, m2, x2);
            }
        },
        Command::Run(limit) => {
            if should_run {
                let err = crate::rules::run_error(
                    pre.env,
                    pre.rules,
                    pre.state,
                    limit as nat,
                    pre.fuel(),
                );
                if err is Some {
                    lemma_copies_agree(r1->Err_0, r2->Err_0, err->Some_0);
                } else {
                    let model = crate::rules::run_failures(
                        pre.env,
                        pre.rules,
                        pre.state,
                        limit as nat,
                        pre.fuel(),
                    );
                    let f = r1->Ok_0->Ran_1;
                    let g = r2->Ok_0->Ran_1;
                    assert forall|i: int| 0 <= i < f@.len() implies (#[trigger] f@[i]).0 == g@[i].0
                        && same_failure(f@[i].1, g@[i].1) by {
                        lemma_copies_agree(f@[i].1, g@[i].1, model[i].1);
                    }
                }
            }
        },
        Command::Extract(e) => {
            if should_run {
                let x1 = choose|r0: Result<(usize, Expr), Error>| #[trigger]
                    extract_post(pre, e, post1, r0) && match r0 {
                        Err(err) => r1 == Err::<Report, Error>(err),
                        Ok((cost, term)) => r1 == Ok::<Report, Error>(Report::Extracted(cost, term)),
                    };
                let x2 = choose|r0: Result<(usize, Expr), Error>| #[trigger]
                    extract_post(pre, e, post2, r0) && match r0 {
                        Err(err) => r2 == Err::<Report, Error>(err),
                        Ok((cost, term)) => r2 == Ok::<Report, Error>(Report::Extracted(cost, term)),
                    };
                let (st1, v) = crate::eval::eval_spec(
                    pre.env,
                    pre.state,
                    Map::empty(),
                    e,
                    pre.fuel(),
                );
                match v {
                    Err(err) => {
                        lemma_copies_agree(x1->Err_0, x2->Err_0, err);
                    },
                    Ok(val) => {
                        let st2 = settle_spec(pre.env, st1, settle_fuel(st1));
                        if settle_error(pre.env, st1, settle_fuel(st1)) is Some {
                            lemma_copies_agree(
                                x1->Err_0,
                                x2->Err_0,
                                settle_error(pre.env, st1, settle_fuel(st1))->Some_0,
                            );
                        } else if crate::unionfind::is_known_class(st2.roots, val) {
                            let c = st2.roots[val->Id_0.0 as int];
                            match (x1, x2) {
                                (Ok((c1, t1)), Ok((c2, t2))) => {
                                    assert(term_class(st2, t1) == Some(c));
                                    assert(term_class(st2, t2) == Some(c));
                                },
                                (Ok((c1, t1)), Err(_)) => {
                                    assert(term_class(st2, t1) == Some(c));
                                },
                                (Err(_), Ok((c2, t2))) => {
                                    assert(term_class(st2, t2) == Some(c));
                                },
                                _ => {},
                            }
                        }
                    },
                }
            }
        },
        Command::Check(fact) => {
            if should_run {
                let (st, out) = crate::action::check_spec(
                    pre.env,
                    pre.state,
                    Map::empty(),
                    fact,
                    pre.fuel(),
                );
                if out is Err {
                    lemma_copies_agree(r1->Err_0, r2->Err_0, out->Err_0);
                }
            }
        },
        Command::Action(a) => {
            if should_run {
                let (st, _, out) = crate::action::eval_actions_spec(
                    pre.env,
                    pre.state,
                    None,
                    seq![a],
                    0,
                    pre.fuel(),
                );
                if out is Err {
                    lemma_copies_agree(r1->Err_0, r2->Err_0, out->Err_0);
                }
            }
        },
        Command::Define(name, e) => {
            if should_run {
                let x1 = choose|r0: Result<(), Error>| #[trigger]
                    define_post(pre, name, e, post1, r0) && match r0 {
                        Err(err) => r1 == Err::<Report, Error>(err),
                        Ok(_) => r1 == Ok::<Report, Error>(Report::Defined(name)),
                    };
                let x2 = choose|r0: Result<(), Error>| #[trigger]
                    define_post(pre, name, e, post2, r0) && match r0 {
                        Err(err) => r2 == Err::<Report, Error>(err),
                        Ok(_) => r2 == Ok::<Report, Error>(Report::Defined(name)),
                    };
                let (st1, v) = crate::eval::eval_spec(
                    pre.env,
                    pre.state,
                    Map::empty(),
                    e,
                    pre.fuel(),
                );
                if v is Err {
                    lemma_copies_agree(x1->Err_0, x2->Err_0, v->Err_0);
                }
            }
        },
        Command::ClearRules => {},
        Command::Query(facts) => {},
    }
}

/// A program gives one outcome for each command that ran: one for every
/// command where no fatal error ends it, and fewer only where the last
/// outcome is fatal. No outcome but the last can be fatal.
pub proof fn law_program_outcomes(
    pre: GraphModel,
    cmds: Seq<Command>,
    i: int,
    done: Seq<Result<Report, Error>>,
    post: GraphModel,
    r: Seq<Result<Report, Error>>,
)
    requires
        0 <= i <= cmds.len(),
        done.len() == i,
        forall|k: int| 0 <= k < done.len() ==> !ends_program(#[trigger] done[k]),
        program_post(pre, cmds, i, done, post, r),
    ensures
        i <= r.len() <= cmds.len(),
        forall|k: int| 0 <= k < r.len() - 1 ==> !ends_program(#[trigger] r[k]),
        r.len() < cmds.len() ==> r.len() > 0 && ends_program(r[r.len() - 1]),
        forall|k: int| 0 <= k < done.len() ==> r[k] == done[k],
    decreases cmds.len() - i,
{
    if i < cmds.len() {
        let (mid, ri) = choose|mid: GraphModel, ri: Result<Report, Error>| #[trigger]
            command_post(pre, cmds[i], true, mid, ri) && if ends_program(ri) {
                post == mid && r == done.push(ri)
            } else {
                program_post(mid, cmds, i + 1, done.push(ri), post, r)
            };
        if !ends_program(ri) {
            law_program_outcomes(mid, cmds, i + 1, done.push(ri), post, r);
            assert forall|k: int| 0 <= k < done.len() implies r[k] == done[k] by {
                assert(done.push(ri)[k] == done[k]);
            }
        }
    }
}

/// Determinism: two runs of the same commands on the same graph leave the
/// same graph, so the same classes are equal after both, and they agree on
/// the outcome of every command: on every report, on whether the command
/// fails, and on how. A check that fails in one run fails in the other,
/// naming the same two values.
pub proof fn law_determinism(
    pre: GraphModel,
    cmds: Seq<Command>,
    i: int,
    done1: Seq<Result<Report, Error>>,
    done2: Seq<Result<Report, Error>>,
    post1: GraphModel,
    r1: Seq<Result<Report, Error>>,
    post2: GraphModel,
    r2: Seq<Result<Report, Error>>,
)
    requires
        program_post(pre, cmds, i, done1, post1, r1),
        program_post(pre, cmds, i, done2, post2, r2),
        same_outcomes(done1, done2),
    ensures
        post1 == post2,
        same_outcomes(r1, r2),
    decreases cmds.len() - i,
{
    if 0 <= i < cmds.len() {
        let (m1, x1) = choose|mid: GraphModel, ri: Result<Report, Error>| #[trigger]
            command_post(pre, cmds[i], true, mid, ri) && if ends_program(ri) {
                post1 == mid && r1 == done1.push(ri)
            } else {
                program_post(mid, cmds, i + 1, done1.push(ri), post1, r1)
            };
        let (m2, x2) = choose|mid: GraphModel, ri: Result<Report, Error>| #[trigger]
            command_post(pre, cmds[i], true, mid, ri) && if ends_program(ri) {
                post2 == mid && r2 == done2.push(ri)
            } else {
                program_post(mid, cmds, i + 1, done2.push(ri), post2, r2)
            };
        law_command_deterministic(pre, cmds[i], true, m1, x1, m2, x2);
        assert(ends_program(x1) == ends_program(x2));
        assert(same_outcomes(done1.push(x1), done2.push(x2))) by {
            assert forall|k: int| 0 <= k < done1.len() + 1 implies same_command_outcome(
                #[trigger] done1.push(x1)[k],
                done2.push(x2)[k],
            ) by {
                if k < done1.len() {
                    assert(same_command_outcome(done1[k], done2[k]));
                }
            }
        }
        if !ends_program(x1) {
            law_determinism(m1, cmds, i + 1, done1.push(x1), done2.push(x2), post1, r1, post2, r2);
        }
    }
}

} // verus!
