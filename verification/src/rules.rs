//! Rules: search for all matches first, then apply the heads, then
//! rebuild.

use crate::action::{advances, eval_actions, eval_actions_spec, lemma_advances_trans};
use crate::ast::{Action, FunctionDecl};
use crate::eval::env_of;
use crate::gj::{is_solution, lists_of, run_query, solutions_list};
use crate::model::{Env, StateModel, TableModel};
use crate::primitive::Primitives;
use crate::query::{AtomTerm, Query, QueryModel};
use crate::error::{same_error, Error};
use crate::rebuild::{coarsens, settle_error, settle_fuel, settle_spec};
use crate::state::State;
use crate::subst::Subst;
use crate::symbol::Symbol;
use crate::value::Value;
use vstd::prelude::*;

verus! {

/// A rule in compiled form: the query of its body, and its head.
pub struct CompiledRule {
    pub query: Query,
    pub head: Vec<Action>,
}

/// The model of a rule.
pub struct RuleModel {
    pub query: QueryModel,
    pub head: Seq<Action>,
}

/// The models of the rules.
pub open spec fn rule_models(rules: Seq<CompiledRule>) -> Seq<RuleModel> {
    Seq::new(rules.len(), |i: int| RuleModel { query: rules[i].query@, head: rules[i].head@ })
}

/// One match of a rule: the rule, and the value of each variable index.
pub type MatchModel = (int, Seq<Value>);

/// The value that an assignment gives to a term.
pub open spec fn term_value(term: AtomTerm, sigma: Seq<Value>) -> Value {
    match term {
        AtomTerm::Var(v) => sigma[v as int],
        AtomTerm::Value(x) => x,
    }
}

/// The substitution that a match gives: the first `n` named variables of
/// the query, each bound to the value of its term.
pub open spec fn subst_of(bindings: Seq<(Symbol, AtomTerm)>, sigma: Seq<Value>, n: int) -> Map<
    Symbol,
    Value,
>
    decreases n,
{
    if n <= 0 {
        Map::empty()
    } else {
        subst_of(bindings, sigma, n - 1).insert(
            bindings[n - 1].0,
            term_value(bindings[n - 1].1, sigma),
        )
    }
}

/// The solutions `sols` as matches of rule `i`.
pub open spec fn tagged(i: int, sols: Seq<Seq<Value>>) -> Seq<MatchModel> {
    Seq::new(sols.len(), |k: int| (i, sols[k]))
}

/// The matches of the first `n` rules, in the order of the rules, those of
/// one rule in the order in which the join finds them.
pub open spec fn search_spec(rules: Seq<RuleModel>, tables: Seq<TableModel>, n: int) -> Seq<
    MatchModel,
>
    decreases n,
{
    if n <= 0 {
        Seq::empty()
    } else {
        search_spec(rules, tables, n - 1) + tagged(
            n - 1,
            solutions_list(tables, rules[n - 1].query),
        )
    }
}

/// Whether `found` holds the matches of the rules and nothing else: its
/// matches are solutions of the queries of their rules, and every solution
/// of every rule's query is among them, once.
pub open spec fn search_result(
    rules: Seq<RuleModel>,
    tables: Seq<TableModel>,
    found: Seq<MatchModel>,
) -> bool {
    &&& forall|k: int|
        0 <= k < found.len() ==> 0 <= (#[trigger] found[k]).0 < rules.len() && is_solution(
            tables,
            rules[found[k].0].query,
            found[k].1,
        )
    &&& forall|i: int, sigma: Seq<Value>|
        0 <= i < rules.len() && #[trigger] is_solution(tables, rules[i].query, sigma)
            ==> found.contains((i, sigma))
    &&& found.no_duplicates()
}

/// The state after the heads of the matches `k..` were applied in order.
/// A head that fails is left where it failed, and the next match goes on.
pub open spec fn apply_spec(
    env: Env,
    rules: Seq<RuleModel>,
    st: StateModel,
    found: Seq<MatchModel>,
    k: int,
    fuel: nat,
) -> StateModel
    decreases found.len() - k,
{
    if k < 0 || k >= found.len() {
        st
    } else {
        let rule = rules[found[k].0];
        let ctx = subst_of(rule.query.bindings, found[k].1, rule.query.bindings.len() as int);
        let next = eval_actions_spec(env, st, Some(ctx), rule.head, 0, fuel).0;
        apply_spec(env, rules, next, found, k + 1, fuel)
    }
}

/// A head that failed: the position of its rule, and the error.
pub type Failure = (int, Error);

/// The heads that fail among those of the matches `k..`, in their order,
/// each with the position of its rule and its error.
pub open spec fn apply_failures(
    env: Env,
    rules: Seq<RuleModel>,
    st: StateModel,
    found: Seq<MatchModel>,
    k: int,
    fuel: nat,
) -> Seq<Failure>
    decreases found.len() - k,
{
    if k < 0 || k >= found.len() {
        Seq::empty()
    } else {
        let rule = rules[found[k].0];
        let ctx = subst_of(rule.query.bindings, found[k].1, rule.query.bindings.len() as int);
        let out = eval_actions_spec(env, st, Some(ctx), rule.head, 0, fuel);
        let rest = apply_failures(env, rules, out.0, found, k + 1, fuel);
        match out.2 {
            Err(e) => seq![(found[k].0, e)] + rest,
            Ok(_) => rest,
        }
    }
}

/// The heads that fail in one round of the rules. See [`step_spec`].
pub open spec fn step_failures(env: Env, rules: Seq<RuleModel>, st: StateModel, fuel: nat) -> Seq<
    Failure,
> {
    apply_failures(env, rules, st, search_spec(rules, st.tables, rules.len() as int), 0, fuel)
}

/// Whether the failures are those of the model: as many, each of the same
/// rule with the same error.
pub open spec fn same_failures(got: Seq<(usize, Error)>, model: Seq<Failure>) -> bool {
    &&& got.len() == model.len()
    &&& forall|i: int|
        0 <= i < got.len() ==> (#[trigger] got[i]).0 == model[i].0 && same_error(
            got[i].1,
            model[i].1,
        )
}

/// The state after one round of the rules: all rules are searched in
/// `st`, then the heads are applied to the matches in their order.
pub open spec fn step_spec(env: Env, rules: Seq<RuleModel>, st: StateModel, fuel: nat) -> StateModel {
    apply_spec(env, rules, st, search_spec(rules, st.tables, rules.len() as int), 0, fuel)
}

/// The state after `limit` rounds: each round is one step of the rules
/// followed by a rebuild. A rebuild that ends in an error ends the run.
pub open spec fn run_spec(
    env: Env,
    rules: Seq<RuleModel>,
    st: StateModel,
    limit: nat,
    fuel: nat,
) -> StateModel
    decreases limit,
{
    if limit == 0 {
        st
    } else {
        let mid = step_spec(env, rules, st, fuel);
        let end = settle_spec(env, mid, settle_fuel(mid));
        if settle_error(env, mid, settle_fuel(mid)) is Some {
            end
        } else {
            run_spec(env, rules, end, (limit - 1) as nat, fuel)
        }
    }
}

/// The error that ends a run of `limit` rounds, if any: the error of the
/// first rebuild that ends in one.
pub open spec fn run_error(
    env: Env,
    rules: Seq<RuleModel>,
    st: StateModel,
    limit: nat,
    fuel: nat,
) -> Option<Error>
    decreases limit,
{
    if limit == 0 {
        None
    } else {
        let mid = step_spec(env, rules, st, fuel);
        let end = settle_spec(env, mid, settle_fuel(mid));
        match settle_error(env, mid, settle_fuel(mid)) {
            Some(e) => Some(e),
            None => run_error(env, rules, end, (limit - 1) as nat, fuel),
        }
    }
}

/// The heads that fail in a run of `limit` rounds, round after round.
pub open spec fn run_failures(
    env: Env,
    rules: Seq<RuleModel>,
    st: StateModel,
    limit: nat,
    fuel: nat,
) -> Seq<Failure>
    decreases limit,
{
    if limit == 0 {
        Seq::empty()
    } else {
        let mid = step_spec(env, rules, st, fuel);
        let end = settle_spec(env, mid, settle_fuel(mid));
        let first = step_failures(env, rules, st, fuel);
        if settle_error(env, mid, settle_fuel(mid)) is Some {
            first
        } else {
            first + run_failures(env, rules, end, (limit - 1) as nat, fuel)
        }
    }
}

/// Failures that follow failures are the failures of both models.
pub proof fn lemma_failures_append(
    a: Seq<(usize, Error)>,
    b: Seq<(usize, Error)>,
    x: Seq<Failure>,
    y: Seq<Failure>,
)
    requires
        same_failures(a, x),
        same_failures(b, y),
    ensures
        same_failures(a + b, x + y),
{
    assert forall|i: int| 0 <= i < (a + b).len() implies (#[trigger] (a + b)[i]).0 == (x + y)[i].0
        && same_error((a + b)[i].1, (x + y)[i].1) by {
        if i < a.len() {
            assert((a + b)[i] == a[i]);
            assert((x + y)[i] == x[i]);
        } else {
            assert((a + b)[i] == b[i - a.len()]);
            assert((x + y)[i] == y[i - x.len()]);
        }
    }
}

/// The matches as models.
pub open spec fn matches_of(found: Seq<(usize, Vec<Value>)>) -> Seq<MatchModel> {
    Seq::new(found.len(), |k: int| (found[k].0 as int, found[k].1@))
}

/// Every query of the rules is well formed.
pub open spec fn rules_wf(rules: Seq<RuleModel>) -> bool {
    forall|i: int| 0 <= i < rules.len() ==> (#[trigger] rules[i]).query.wf()
}

/// Searches every rule's query and returns all matches, without changing
/// anything. See [`search_spec`] for their order and [`search_result`] for
/// what they are.
pub fn search(rules: &Vec<CompiledRule>, st: &State) -> (found: Vec<(usize, Vec<Value>)>)
    requires
        st.wf(),
        rules_wf(rule_models(rules@)),
    ensures
        matches_of(found@) == search_spec(rule_models(rules@), st@.tables, rules@.len() as int),
        search_result(rule_models(rules@), st@.tables, matches_of(found@)),
{
    let ghost rm = rule_models(rules@);
    let mut found: Vec<(usize, Vec<Value>)> = Vec::new();
    let mut i: usize = 0;
    assert(matches_of(found@) =~= Seq::<MatchModel>::empty());
    while i < rules.len()
        invariant
            i <= rules@.len(),
            st.wf(),
            rm == rule_models(rules@),
            rules_wf(rm),
            matches_of(found@) == search_spec(rm, st@.tables, i as int),
            forall|k: int|
                0 <= k < found@.len() ==> 0 <= (#[trigger] matches_of(found@)[k]).0 < i
                    && is_solution(
                    st@.tables,
                    rm[matches_of(found@)[k].0].query,
                    matches_of(found@)[k].1,
                ),
            forall|x: int, sigma: Seq<Value>|
                0 <= x < i && #[trigger] is_solution(st@.tables, rm[x].query, sigma)
                    ==> matches_of(found@).contains((x, sigma)),
            matches_of(found@).no_duplicates(),
        decreases rules@.len() - i,
    {
        assert(rm[i as int].query.wf());
        let mut sols = run_query(st, &rules[i].query);
        let ghost all = lists_of(sols@);
        let ghost base = matches_of(found@);
        let n = sols.len();
        let mut k: usize = 0;
        while k < n
            invariant
                k <= n,
                n == all.len(),
                sols@.len() == n,
                i < rules@.len(),
                forall|j: int| k <= j < n ==> (#[trigger] sols@[j])@ == all[j],
                matches_of(found@) == base + tagged(i as int, all.subrange(0, k as int)),
            decreases n - k,
        {
            let ghost fb = matches_of(found@);
            let mut sigma: Vec<Value> = Vec::new();
            std::mem::swap(&mut sols[k], &mut sigma);
            found.push((i, sigma));
            proof {
                assert(sigma@ == all[k as int]);
                assert(matches_of(found@) =~= fb.push((i as int, all[k as int])));
                assert(tagged(i as int, all.subrange(0, k + 1)) =~= tagged(
                    i as int,
                    all.subrange(0, k as int),
                ).push((i as int, all[k as int])));
                assert(matches_of(found@) =~= base + tagged(i as int, all.subrange(0, k + 1)));
            }
            k += 1;
        }
        proof {
            assert(all.subrange(0, n as int) =~= all);
            let res = matches_of(found@);
            let tags = tagged(i as int, all);
            assert(res == base + tags);
            assert forall|j: int| 0 <= j < res.len() implies 0 <= (#[trigger] res[j]).0 < i + 1
                && is_solution(st@.tables, rm[res[j].0].query, res[j].1) by {
                if j < base.len() {
                    assert(res[j] == base[j]);
                } else {
                    let y = j - base.len();
                    assert(res[j] == tags[y]);
                    assert(is_solution(st@.tables, rm[i as int].query, all[y]));
                }
            }
            assert forall|x: int, sigma: Seq<Value>|
                0 <= x < i + 1 && #[trigger] is_solution(
                    st@.tables,
                    rm[x].query,
                    sigma,
                ) implies res.contains((x, sigma)) by {
                if x < i {
                    assert(base.contains((x, sigma)));
                    let j = base.index_of((x, sigma));
                    assert(res[j] == base[j]);
                } else {
                    assert(all.contains(sigma));
                    let y = all.index_of(sigma);
                    assert(res[base.len() + y] == tags[y]);
                }
            }
            assert forall|a: int, b: int| 0 <= a < b < res.len() implies #[trigger] res[a]
                != #[trigger] res[b] by {
                if b < base.len() {
                    assert(res[a] == base[a] && res[b] == base[b]);
                } else if a < base.len() {
                    assert(res[a] == base[a]);
                    assert(base[a].0 < i);
                    assert(res[b] == tags[b - base.len()]);
                } else {
                    assert(res[a] == tags[a - base.len()]);
                    assert(res[b] == tags[b - base.len()]);
                    assert(all[a - base.len()] != all[b - base.len()]);
                }
            }
        }
        i += 1;
    }
    found
}

/// The substitution that a match gives to the named variables of a query.
pub fn make_subst(q: &Query, sigma: &Vec<Value>) -> (s: Subst)
    requires
        q@.wf(),
        sigma@.len() == q@.num_vars,
    ensures
        s@ == subst_of(q@.bindings, sigma@, q@.bindings.len() as int),
{
    let mut s = Subst::new();
    let mut b: usize = 0;
    while b < q.num_bindings()
        invariant
            b <= q@.bindings.len(),
            q@.wf(),
            sigma@.len() == q@.num_vars,
            s@ == subst_of(q@.bindings, sigma@, b as int),
        decreases q@.bindings.len() - b,
    {
        let (sym, term) = q.binding(b);
        let v = match term {
            AtomTerm::Var(j) => {
                assert(q@.bindings[b as int].1 matches AtomTerm::Var(x) ==> x < q@.num_vars);
                sigma[j]
            },
            AtomTerm::Value(x) => x,
        };
        s.insert(sym, v);
        b += 1;
    }
    s
}

/// Applies the heads of the matches in order. A head that fails is left
/// where it failed, and the next match goes on. Returns the heads that
/// failed. See [`apply_spec`] and [`apply_failures`].
pub fn apply(
    decls: &Vec<FunctionDecl>,
    prims: &Primitives,
    rules: &Vec<CompiledRule>,
    st: &mut State,
    found: &Vec<(usize, Vec<Value>)>,
    fuel: usize,
) -> (failed: Vec<(usize, Error)>)
    requires
        prims.indexed(),
        old(st).wf(),
        env_of(decls@, prims@).fits(old(st)@.tables),
        rules_wf(rule_models(rules@)),
        forall|k: int|
            0 <= k < found@.len() ==> (#[trigger] found@[k]).0 < rules@.len() && found@[k].1@.len()
                == rules@[found@[k].0 as int].query@.num_vars,
    ensures
        final(st).wf(),
        env_of(decls@, prims@).fits(final(st)@.tables),
        final(st)@ == apply_spec(
            env_of(decls@, prims@),
            rule_models(rules@),
            old(st)@,
            matches_of(found@),
            0,
            fuel as nat,
        ),
        same_failures(
            failed@,
            apply_failures(
                env_of(decls@, prims@),
                rule_models(rules@),
                old(st)@,
                matches_of(found@),
                0,
                fuel as nat,
            ),
        ),
        advances(old(st)@, final(st)@),
{
    let ghost env = env_of(decls@, prims@);
    let ghost rm = rule_models(rules@);
    let ghost goal = apply_spec(env, rm, old(st)@, matches_of(found@), 0, fuel as nat);
    let ghost all = apply_failures(env, rm, old(st)@, matches_of(found@), 0, fuel as nat);
    let ghost done: Seq<Failure> = Seq::empty();
    let mut failed: Vec<(usize, Error)> = Vec::new();
    assert(done + all =~= all);
    let mut k: usize = 0;
    proof {
        crate::action::lemma_grows_advances(old(st)@, old(st)@);
    }
    while k < found.len()
        invariant
            prims.indexed(),
            k <= found@.len(),
            st.wf(),
            env == env_of(decls@, prims@),
            rm == rule_models(rules@),
            env.fits(st@.tables),
            rules_wf(rm),
            forall|j: int|
                0 <= j < found@.len() ==> (#[trigger] found@[j]).0 < rules@.len()
                    && found@[j].1@.len() == rules@[found@[j].0 as int].query@.num_vars,
            goal == apply_spec(env, rm, st@, matches_of(found@), k as int, fuel as nat),
            all == done + apply_failures(env, rm, st@, matches_of(found@), k as int, fuel as nat),
            same_failures(failed@, done),
            advances(old(st)@, st@),
        decreases found@.len() - k,
    {
        let ghost before = st@;
        let ghost rest = apply_failures(env, rm, before, matches_of(found@), k as int, fuel as nat);
        let ri = found[k].0;
        assert(found@[k as int].0 < rules@.len());
        assert(rm[ri as int].query.wf());
        let rule = &rules[ri];
        let ctx = make_subst(&rule.query, &found[k].1);
        assert(matches_of(found@)[k as int] == (ri as int, found@[k as int].1@));
        let ghost out = eval_actions_spec(env, before, Some(ctx@), rule.head@, 0, fuel as nat);
        let r = eval_actions(decls, prims, st, Some(ctx), rule.head.as_slice(), fuel);
        let ghost next = apply_failures(env, rm, st@, matches_of(found@), k + 1, fuel as nat);
        match r {
            Err(e) => {
                proof {
                    let x: Failure = (ri as int, out.2->Err_0);
                    assert(rest == seq![x] + next);
                    assert(done.push(x) + next =~= done + rest);
                    done = done.push(x);
                }
                failed.push((ri, e));
            },
            Ok(_) => {
                assert(rest == next);
            },
        }
        proof {
            lemma_advances_trans(old(st)@, before, st@);
        }
        k += 1;
    }
    assert(done + Seq::<Failure>::empty() =~= done);
    failed
}

/// One round of the rules: all rules are searched first, then the heads
/// are applied to the matches. No head sees what another head of the same
/// round did to the tables before the search ended. Returns the heads that
/// failed, each with the position of its rule. See [`step_spec`] and
/// [`step_failures`].
pub fn step_rules(
    decls: &Vec<FunctionDecl>,
    prims: &Primitives,
    rules: &Vec<CompiledRule>,
    st: &mut State,
    fuel: usize,
) -> (failed: Vec<(usize, Error)>)
    requires
        prims.indexed(),
        old(st).wf(),
        env_of(decls@, prims@).fits(old(st)@.tables),
        rules_wf(rule_models(rules@)),
    ensures
        final(st).wf(),
        env_of(decls@, prims@).fits(final(st)@.tables),
        final(st)@ == step_spec(
            env_of(decls@, prims@),
            rule_models(rules@),
            old(st)@,
            fuel as nat,
        ),
        same_failures(
            failed@,
            step_failures(env_of(decls@, prims@), rule_models(rules@), old(st)@, fuel as nat),
        ),
        advances(old(st)@, final(st)@),
{
    let found = search(rules, st);
    proof {
        let ms = matches_of(found@);
        let rm = rule_models(rules@);
        assert forall|k: int| 0 <= k < found@.len() implies (#[trigger] found@[k]).0 < rules@.len()
            && found@[k].1@.len() == rules@[found@[k].0 as int].query@.num_vars by {
            assert(0 <= ms[k].0 < rm.len());
            assert(is_solution(st@.tables, rm[ms[k].0].query, ms[k].1));
        }
    }
    apply(decls, prims, rules, st, &found, fuel)
}

/// Runs `limit` rounds: each is one step of the rules followed by a
/// rebuild, and returns the heads that failed on the way. See
/// [`run_spec`] and [`run_failures`].
///
/// After at least one round every row of every table is in canonical form.
/// The rounds add classes and rows and merge classes; they never split a
/// class, so the classes grow by no more than the identifiers do. A
/// rebuild that cannot reconcile two rows ends the run with its error.
pub fn run_rules(
    decls: &Vec<FunctionDecl>,
    prims: &Primitives,
    rules: &Vec<CompiledRule>,
    st: &mut State,
    limit: usize,
    fuel: usize,
) -> (r: Result<Vec<(usize, Error)>, Error>)
    requires
        prims.indexed(),
        old(st).wf(),
        env_of(decls@, prims@).fits(old(st)@.tables),
        rules_wf(rule_models(rules@)),
    ensures
        final(st).wf(),
        env_of(decls@, prims@).fits(final(st)@.tables),
        final(st)@ == run_spec(
            env_of(decls@, prims@),
            rule_models(rules@),
            old(st)@,
            limit as nat,
            fuel as nat,
        ),
        match r {
            Ok(failed) => {
                &&& run_error(
                    env_of(decls@, prims@),
                    rule_models(rules@),
                    old(st)@,
                    limit as nat,
                    fuel as nat,
                ) is None
                &&& limit >= 1 ==> final(st)@.canonical() && final(st)@.settled()
                &&& same_failures(
                    failed@,
                    run_failures(
                        env_of(decls@, prims@),
                        rule_models(rules@),
                        old(st)@,
                        limit as nat,
                        fuel as nat,
                    ),
                )
            },
            Err(e) => {
                &&& run_error(
                    env_of(decls@, prims@),
                    rule_models(rules@),
                    old(st)@,
                    limit as nat,
                    fuel as nat,
                ) matches Some(model)
                &&& same_error(e, model)
            },
        },
        advances(old(st)@, final(st)@),
        final(st)@.classes() <= old(st)@.classes() + (final(st)@.roots.len() - old(
            st,
        )@.roots.len()),
{
    let ghost env = env_of(decls@, prims@);
    let ghost rm = rule_models(rules@);
    let mut done: usize = 0;
    let mut failed: Vec<(usize, Error)> = Vec::new();
    let ghost seen: Seq<Failure> = Seq::empty();
    let ghost all = run_failures(env, rm, old(st)@, limit as nat, fuel as nat);
    proof {
        crate::action::lemma_grows_advances(old(st)@, old(st)@);
        st.lemma_wf();
        assert(seen + all =~= all);
    }
    while done < limit
        invariant
            prims.indexed(),
            done <= limit,
            st.wf(),
            old(st)@.wf(),
            env == env_of(decls@, prims@),
            rm == rule_models(rules@),
            env.fits(st@.tables),
            rules_wf(rm),
            advances(old(st)@, st@),
            done >= 1 ==> st@.canonical() && st@.settled(),
            run_spec(env, rm, old(st)@, limit as nat, fuel as nat) == run_spec(
                env,
                rm,
                st@,
                (limit - done) as nat,
                fuel as nat,
            ),
            run_error(env, rm, old(st)@, limit as nat, fuel as nat) == run_error(
                env,
                rm,
                st@,
                (limit - done) as nat,
                fuel as nat,
            ),
            all == run_failures(env, rm, old(st)@, limit as nat, fuel as nat),
            run_error(env, rm, old(st)@, limit as nat, fuel as nat) is None ==> all == seen
                + run_failures(env, rm, st@, (limit - done) as nat, fuel as nat),
            same_failures(failed@, seen),
        decreases limit - done,
    {
        let ghost start = st@;
        let ghost rest = run_failures(env, rm, start, (limit - done) as nat, fuel as nat);
        let ghost before = failed@;
        let mut round = step_rules(decls, prims, rules, st, fuel);
        let ghost first = step_failures(env, rm, start, fuel as nat);
        proof {
            lemma_failures_append(before, round@, seen, first);
        }
        failed.append(&mut round);
        let ghost mid = st@;
        let r = st.rebuild(decls, prims);
        proof {
            let end = st@;
            assert(advances(mid, end)) by {
                assert(coarsens(mid.roots, end.roots));
            }
            lemma_advances_trans(start, mid, end);
            lemma_advances_trans(old(st)@, start, end);
        }
        match r {
            Err(e) => {
                proof {
                    st.lemma_wf();
                    crate::action::lemma_classes_bounded(old(st)@, st@);
                }
                return Err(e);
            },
            Ok(_) => {},
        }
        proof {
            let next = run_failures(env, rm, st@, (limit - done - 1) as nat, fuel as nat);
            assert(rest == first + next);
            assert((seen + first) + next =~= seen + rest);
            seen = seen + first;
        }
        done += 1;
    }
    proof {
        st.lemma_wf();
        crate::action::lemma_classes_bounded(old(st)@, st@);
        assert(seen + Seq::<Failure>::empty() =~= seen);
    }
    Ok(failed)
}

} // verus!
