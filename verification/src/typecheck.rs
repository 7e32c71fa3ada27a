//! Checks of declarations and queries against the declared schemas.

use crate::ast::FunctionDecl;
use crate::error::TypeError;
use crate::index::NameList;
use crate::model::{function_index, has_function, TableModel};
use crate::query::{AtomModel, AtomTerm, Query, QueryModel};
use crate::state::State;
use crate::symbol::Symbol;
use crate::value::{Type, Value};
use vstd::prelude::*;

verus! {

/// Whether a sort of this name was declared.
pub open spec fn has_sort(sorts: Seq<Symbol>, s: Symbol) -> bool {
    sorts.contains(s)
}

/// Whether the type can be used: every sort must have been declared.
pub open spec fn type_known(sorts: Seq<Symbol>, ty: Type) -> bool {
    ty matches Type::Sort(s) ==> has_sort(sorts, s)
}

/// Whether a function of this name and schema can be declared: every sort
/// in the schema was declared, and no function has the name.
pub open spec fn schema_ok(
    sorts: Seq<Symbol>,
    tables: Seq<TableModel>,
    name: Symbol,
    input: Seq<Type>,
    output: Type,
) -> bool {
    &&& forall|i: int| 0 <= i < input.len() ==> type_known(sorts, #[trigger] input[i])
    &&& type_known(sorts, output)
    &&& !has_function(tables, name)
}

/// Whether a declaration can be accepted.
pub open spec fn decl_ok(sorts: Seq<Symbol>, tables: Seq<TableModel>, decl: FunctionDecl) -> bool {
    schema_ok(sorts, tables, decl.name, decl.schema.input@, decl.schema.output)
}

/// The errors for the sorts that the first `n` types name without their
/// having been declared, in the order of the types.
pub open spec fn undefined_sorts(sorts: Seq<Symbol>, types: Seq<Type>, n: int) -> Seq<TypeError>
    decreases n,
{
    if n <= 0 {
        Seq::empty()
    } else {
        let before = undefined_sorts(sorts, types, n - 1);
        match types[n - 1] {
            Type::Sort(s) => if has_sort(sorts, s) {
                before
            } else {
                before.push(TypeError::UndefinedSort(s))
            },
            _ => before,
        }
    }
}

/// Everything that is wrong with a declaration of this name and schema: an
/// undefined sort for each type of the schema that names one, inputs
/// first, then the name if a function has it already.
pub open spec fn schema_errors(
    sorts: Seq<Symbol>,
    tables: Seq<TableModel>,
    name: Symbol,
    input: Seq<Type>,
    output: Type,
) -> Seq<TypeError> {
    undefined_sorts(sorts, input.push(output), input.len() as int + 1) + if has_function(
        tables,
        name,
    ) {
        seq![TypeError::FunctionAlreadyBound(name)]
    } else {
        Seq::empty()
    }
}

/// The errors of the first types do not depend on the types after them.
pub proof fn lemma_undefined_prefix(sorts: Seq<Symbol>, a: Seq<Type>, b: Seq<Type>, n: int)
    requires
        0 <= n <= a.len(),
        a.is_prefix_of(b),
    ensures
        undefined_sorts(sorts, a, n) == undefined_sorts(sorts, b, n),
    decreases n,
{
    if n > 0 {
        lemma_undefined_prefix(sorts, a, b, n - 1);
        assert(a[n - 1] == b[n - 1]);
    }
}

/// There are no errors exactly where every sort named was declared.
pub proof fn lemma_undefined_none(sorts: Seq<Symbol>, types: Seq<Type>, n: int)
    requires
        0 <= n <= types.len(),
    ensures
        undefined_sorts(sorts, types, n).len() == 0 <==> forall|i: int|
            0 <= i < n ==> type_known(sorts, #[trigger] types[i]),
    decreases n,
{
    if n > 0 {
        lemma_undefined_none(sorts, types, n - 1);
        if undefined_sorts(sorts, types, n).len() == 0 {
            assert forall|i: int| 0 <= i < n implies type_known(sorts, #[trigger] types[i]) by {
                if i < n - 1 {
                }
            }
        }
    }
}

/// A schema has no errors exactly where it can be declared.
pub proof fn lemma_schema_errors(
    sorts: Seq<Symbol>,
    tables: Seq<TableModel>,
    name: Symbol,
    input: Seq<Type>,
    output: Type,
)
    ensures
        schema_errors(sorts, tables, name, input, output).len() == 0 <==> schema_ok(
            sorts,
            tables,
            name,
            input,
            output,
        ),
{
    let all = input.push(output);
    lemma_undefined_none(sorts, all, all.len() as int);
    if schema_ok(sorts, tables, name, input, output) {
        assert forall|i: int| 0 <= i < all.len() implies type_known(sorts, #[trigger] all[i]) by {
            if i < input.len() {
                assert(all[i] == input[i]);
            }
        }
    }
    if schema_errors(sorts, tables, name, input, output).len() == 0 {
        assert forall|i: int| 0 <= i < input.len() implies type_known(sorts, #[trigger] input[i]) by {
            assert(all[i] == input[i]);
        }
        assert(all[input.len() as int] == output);
    }
}

/// Checks a declaration and returns everything that is wrong with it; see
/// [`schema_errors`]. The list is empty exactly where the declaration can
/// be accepted.
pub fn check_decl(sorts: &NameList, st: &State, decl: &FunctionDecl) -> (errs: Vec<TypeError>)
    requires
        sorts.wf(),
        st.wf(),
    ensures
        errs@ == schema_errors(
            sorts@,
            st@.tables,
            decl.name,
            decl.schema.input@,
            decl.schema.output,
        ),
        errs@.len() == 0 <==> decl_ok(sorts@, st@.tables, *decl),
{
    let mut errs: Vec<TypeError> = Vec::new();
    let mut i: usize = 0;
    let ghost input = decl.schema.input@;
    let ghost all = input.push(decl.schema.output);
    while i < decl.schema.input.len()
        invariant
            i <= input.len(),
            sorts.wf(),
            input == decl.schema.input@,
            all == input.push(decl.schema.output),
            errs@ == undefined_sorts(sorts@, all, i as int),
        decreases input.len() - i,
    {
        assert(all[i as int] == input[i as int]);
        match decl.schema.input[i] {
            Type::Sort(s) => {
                if !sorts.contains(s) {
                    errs.push(TypeError::UndefinedSort(s));
                }
            },
            _ => {},
        }
        i += 1;
    }
    assert(all[input.len() as int] == decl.schema.output);
    match decl.schema.output {
        Type::Sort(s) => {
            if !sorts.contains(s) {
                errs.push(TypeError::UndefinedSort(s));
            }
        },
        _ => {},
    }
    let ghost first = errs@;
    match st.find_function(decl.name) {
        Some(_) => {
            errs.push(TypeError::FunctionAlreadyBound(decl.name));
            assert(errs@ =~= first + seq![TypeError::FunctionAlreadyBound(decl.name)]);
        },
        None => {
            assert(errs@ =~= first + Seq::<TypeError>::empty());
        },
    }
    proof {
        lemma_schema_errors(sorts@, st@.tables, decl.name, input, decl.schema.output);
    }
    errs
}

/// The type of position `p` of an atom of a function with this schema:
/// the inputs, then the output.
pub open spec fn position_type(t: TableModel, p: int) -> Type {
    if p < t.input.len() {
        t.input[p]
    } else {
        t.output
    }
}

/// Whether the atom fits the schemas under the variable types `types`: its
/// function exists and takes as many arguments, every constant fits the
/// type of its position, and every variable has the type of its position.
pub open spec fn atom_typed(tables: Seq<TableModel>, atom: AtomModel, types: Seq<Type>) -> bool {
    &&& has_function(tables, atom.0)
    &&& atom.1.len() == tables[function_index(tables, atom.0)].input.len() + 1
    &&& forall|p: int|
        0 <= p < atom.1.len() ==> match #[trigger] atom.1[p] {
            AtomTerm::Value(v) => v.spec_fits(
                position_type(tables[function_index(tables, atom.0)], p),
            ),
            AtomTerm::Var(i) => i < types.len() && types[i as int] == position_type(
                tables[function_index(tables, atom.0)],
                p,
            ),
        }
}

/// Whether `types` gives every variable of the query a type under which
/// every atom fits the schemas.
pub open spec fn typing_ok(tables: Seq<TableModel>, q: QueryModel, types: Seq<Type>) -> bool {
    &&& types.len() == q.num_vars
    &&& forall|a: int| 0 <= a < q.atoms.len() ==> atom_typed(tables, #[trigger] q.atoms[a], types)
}

/// Whether the query is well typed: every variable occurs in some atom,
/// and the variables can be given types under which every atom fits the
/// schemas.
pub open spec fn well_typed(tables: Seq<TableModel>, q: QueryModel) -> bool {
    q.anchored() && exists|types: Seq<Type>| typing_ok(tables, q, types)
}

/// Whether the first `n` atoms fit the schemas under `types`.
spec fn typed_upto(tables: Seq<TableModel>, q: QueryModel, types: Seq<Type>, n: int) -> bool {
    &&& types.len() == q.num_vars
    &&& forall|a: int| 0 <= a < n ==> atom_typed(tables, #[trigger] q.atoms[a], types)
}

/// Whether the types found so far are those that every typing must give.
spec fn forced(
    tables: Seq<TableModel>,
    q: QueryModel,
    found: Seq<Option<Type>>,
    n: int,
) -> bool {
    forall|types: Seq<Type>, i: int|
        #![trigger typed_upto(tables, q, types, n), found[i]]
        typed_upto(tables, q, types, n) && 0 <= i < found.len() && found[i] is Some
            ==> types[i] == found[i]->Some_0
}

/// The types found so far, with the type `Unit` where none was found.
spec fn settle_types(found: Seq<Option<Type>>) -> Seq<Type> {
    Seq::new(
        found.len(),
        |i: int|
            match found[i] {
                Some(t) => t,
                None => Type::Unit,
            },
    )
}

/// What checking the first `p` terms of an atom of table `t` finds, after
/// `found` and `errs`: a constant that does not fit its position is a
/// mismatch; a variable gets the type of its first position, and is a
/// mismatch at every position of another type.
pub open spec fn check_terms(
    t: TableModel,
    terms: Seq<AtomTerm>,
    found: Seq<Option<Type>>,
    errs: Seq<TypeError>,
    p: int,
) -> (Seq<Option<Type>>, Seq<TypeError>)
    decreases p,
{
    if p <= 0 {
        (found, errs)
    } else {
        let (f, e) = check_terms(t, terms, found, errs, p - 1);
        let ty = position_type(t, p - 1);
        match terms[p - 1] {
            AtomTerm::Value(v) => if v.spec_fits(ty) {
                (f, e)
            } else {
                (f, e.push(TypeError::Mismatch))
            },
            AtomTerm::Var(i) => match f[i as int] {
                None => (f.update(i as int, Some(ty)), e),
                Some(known) => if known == ty {
                    (f, e)
                } else {
                    (f, e.push(TypeError::Mismatch))
                },
            },
        }
    }
}

/// What checking the first `n` atoms finds: the type of each variable
/// that has one so far, and the errors in the order of the atoms. An atom
/// of no function is unbound, an atom with another number of terms than
/// its function has positions has the wrong arity, and the terms of any
/// other atom are checked one by one.
pub open spec fn check_atoms(tables: Seq<TableModel>, q: QueryModel, n: int) -> (
    Seq<Option<Type>>,
    Seq<TypeError>,
)
    decreases n,
{
    if n <= 0 {
        (Seq::new(q.num_vars, |i: int| None::<Type>), Seq::empty())
    } else {
        let (found, errs) = check_atoms(tables, q, n - 1);
        let atom = q.atoms[n - 1];
        if !has_function(tables, atom.0) {
            (found, errs.push(TypeError::Unbound(atom.0)))
        } else {
            let t = tables[function_index(tables, atom.0)];
            if atom.1.len() != t.input.len() + 1 {
                (found, errs.push(TypeError::Arity(atom.0)))
            } else {
                check_terms(t, atom.1, found, errs, atom.1.len() as int)
            }
        }
    }
}

/// An error for each of the first `n` variables that has no type, in
/// their order.
pub open spec fn untyped_vars(found: Seq<Option<Type>>, n: int) -> Seq<TypeError>
    decreases n,
{
    if n <= 0 {
        Seq::empty()
    } else {
        let before = untyped_vars(found, n - 1);
        if found[n - 1] is None {
            before.push(TypeError::Untyped((n - 1) as usize))
        } else {
            before
        }
    }
}

/// Everything that is wrong with a query: the errors of its atoms, or,
/// where the atoms have none, the variables that no atom gives a type.
pub open spec fn query_error_list(tables: Seq<TableModel>, q: QueryModel) -> Seq<TypeError> {
    let (found, errs) = check_atoms(tables, q, q.atoms.len() as int);
    if errs.len() > 0 {
        errs
    } else {
        untyped_vars(found, q.num_vars as int)
    }
}

proof fn lemma_untyped_none(found: Seq<Option<Type>>, n: int)
    requires
        0 <= n <= found.len(),
    ensures
        untyped_vars(found, n).len() == 0 <==> forall|i: int|
            0 <= i < n ==> (#[trigger] found[i]) is Some,
    decreases n,
{
    if n > 0 {
        lemma_untyped_none(found, n - 1);
        if untyped_vars(found, n).len() == 0 {
            assert forall|i: int| 0 <= i < n implies (#[trigger] found[i]) is Some by {
                if i < n - 1 {
                }
            }
        }
    }
}

/// Checks a query against the schemas and returns everything that is
/// wrong with it; see [`query_error_list`]. The list is empty exactly
/// where the query is well typed.
pub fn check_query(st: &State, q: &Query) -> (errs: Vec<TypeError>)
    requires
        st.wf(),
        q@.wf(),
    ensures
        errs@ == query_error_list(st@.tables, q@),
        errs@.len() == 0 <==> well_typed(st@.tables, q@),
{
    let mut errs: Vec<TypeError> = Vec::new();
    let n = q.num_vars();
    let mut found: Vec<Option<Type>> = Vec::new();
    let mut k: usize = 0;
    while k < n
        invariant
            k <= n,
            found@.len() == k,
            forall|i: int| 0 <= i < k ==> (#[trigger] found@[i]) is None,
        decreases n - k,
    {
        found.push(None);
        k += 1;
    }
    let ghost tables = st@.tables;
    let ghost qm = q@;
    assert(found@ =~= Seq::new(qm.num_vars, |i: int| None::<Type>));
    let mut a: usize = 0;
    while a < q.num_atoms()
        invariant
            a <= qm.atoms.len(),
            st.wf(),
            tables == st@.tables,
            qm == q@,
            qm.wf(),
            n == qm.num_vars,
            found@.len() == n,
            (found@, errs@) == check_atoms(tables, qm, a as int),
            forced(tables, qm, found@, a as int),
            errs@.len() == 0 ==> typed_upto(tables, qm, settle_types(found@), a as int),
            errs@.len() > 0 ==> forall|types: Seq<Type>| !typing_ok(tables, qm, types),
            errs@.len() == 0 ==> forall|x: int, p: int|
                0 <= x < a && 0 <= p < qm.atoms[x].1.len() ==> (
                #[trigger] qm.atoms[x].1[p] matches AtomTerm::Var(i) ==> found@[i as int] is Some),
            forall|i: int| 0 <= i < n && (#[trigger] found@[i]) is Some ==> qm.mentioned(i),
        decreases qm.atoms.len() - a,
    {
        let atom = q.atom(a);
        let ghost am = qm.atoms[a as int];
        let ghost before = found@;
        let ghost errs0 = errs@;
        match st.find_function(atom.head) {
            None => {
                errs.push(TypeError::Unbound(atom.head));
                proof {
                    assert forall|types: Seq<Type>| !typing_ok(tables, qm, types) by {
                        if typing_ok(tables, qm, types) {
                            assert(atom_typed(tables, qm.atoms[a as int], types));
                        }
                    }
                    assert(forced(tables, qm, found@, a + 1)) by {
                        assert forall|types: Seq<Type>, i: int|
                            #![trigger typed_upto(tables, qm, types, a + 1), found@[i]]
                            typed_upto(tables, qm, types, a + 1) && 0 <= i < found@.len()
                                && found@[i] is Some implies types[i] == found@[i]->Some_0 by {
                            assert(atom_typed(tables, qm.atoms[a as int], types));
                        }
                    }
                }
            },
            Some(fi) => {
                let f = st.function(fi);
                let ghost t = tables[fi as int];
                let input = f.input();
                let output = f.output();
                if atom.terms.len() == 0 || atom.terms.len() - 1 != input.len() {
                    errs.push(TypeError::Arity(atom.head));
                    proof {
                        assert forall|types: Seq<Type>| !typing_ok(tables, qm, types) by {
                            if typing_ok(tables, qm, types) {
                                assert(atom_typed(tables, qm.atoms[a as int], types));
                            }
                        }
                        assert(forced(tables, qm, found@, a + 1)) by {
                            assert forall|types: Seq<Type>, i: int|
                                #![trigger typed_upto(tables, qm, types, a + 1), found@[i]]
                                typed_upto(tables, qm, types, a + 1) && 0 <= i < found@.len()
                                    && found@[i] is Some implies types[i] == found@[i]->Some_0 by {
                                assert(atom_typed(tables, qm.atoms[a as int], types));
                            }
                        }
                    }
                } else {
                    proof {
                        assert forall|types: Seq<Type>, i: int|
                            #![trigger typed_upto(tables, qm, types, a + 1), found@[i]]
                            typed_upto(tables, qm, types, a + 1) && 0 <= i < found@.len()
                                && found@[i] is Some implies types[i] == found@[i]->Some_0 by {
                            assert(typed_upto(tables, qm, types, a as int));
                        }
                    }
                    let mut p: usize = 0;
                    while p < atom.terms.len()
                        invariant
                            p <= am.1.len(),
                            before.len() == n,
                            a < qm.atoms.len(),
                            am == qm.atoms[a as int],
                            am == (atom.head, atom.terms@),
                            qm.wf(),
                            n == qm.num_vars,
                            found@.len() == n,
                            has_function(tables, am.0),
                            fi == function_index(tables, am.0),
                            t == tables[fi as int],
                            input@ == t.input,
                            output == t.output,
                            am.1.len() == t.input.len() + 1,
                            (found@, errs@) == check_terms(t, am.1, before, errs0, p as int),
                            forall|i: int|
                                0 <= i < n && before[i] is Some ==> #[trigger] found@[i]
                                    == before[i],
                            forall|i: int|
                                0 <= i < n && (#[trigger] found@[i]) is Some ==> qm.mentioned(i),
                            forall|types: Seq<Type>, i: int|
                                #![trigger typed_upto(tables, qm, types, a + 1), found@[i]]
                                typed_upto(tables, qm, types, a + 1) && 0 <= i < found@.len()
                                    && found@[i] is Some ==> types[i] == found@[i]->Some_0,
                            errs@.len() >= errs0.len(),
                            errs@.len() == errs0.len() ==> forall|x: int|
                                0 <= x < p ==> match #[trigger] am.1[x] {
                                    AtomTerm::Value(v) => v.spec_fits(position_type(t, x)),
                                    AtomTerm::Var(i) => found@[i as int] == Some(
                                        position_type(t, x),
                                    ),
                                },
                            errs@.len() > errs0.len() ==> forall|types: Seq<Type>|
                                !typing_ok(tables, qm, types),
                        decreases am.1.len() - p,
                    {
                        let ty = if p < input.len() {
                            input[p]
                        } else {
                            output
                        };
                        assert(ty == position_type(t, p as int));
                        match atom.terms[p] {
                            AtomTerm::Value(v) => {
                                if !v.fits(ty) {
                                    errs.push(TypeError::Mismatch);
                                    proof {
                                        assert forall|types: Seq<Type>| !typing_ok(
                                            tables,
                                            qm,
                                            types,
                                        ) by {
                                            if typing_ok(tables, qm, types) {
                                                assert(atom_typed(tables, qm.atoms[a as int], types));
                                                let term = am.1[p as int];
                                            }
                                        }
                                    }
                                }
                            },
                            AtomTerm::Var(i) => {
                                assert(qm.atoms[a as int].1[p as int] matches AtomTerm::Var(j) ==> j
                                    < qm.num_vars);
                                match found[i] {
                                    None => {
                                        let ghost f0 = found@;
                                        found.set(i, Some(ty));
                                        proof {
                                            assert(qm.mentions(a as int, i as int));
                                            assert(qm.mentioned(i as int));
                                            assert forall|types: Seq<Type>, j: int|
                                                #![trigger typed_upto(tables, qm, types, a + 1), found@[j]]
                                                typed_upto(tables, qm, types, a + 1) && 0 <= j
                                                    < found@.len() && found@[j] is Some implies types[j]
                                                == found@[j]->Some_0 by {
                                                if j == i {
                                                    assert(atom_typed(
                                                        tables,
                                                        qm.atoms[a as int],
                                                        types,
                                                    ));
                                                    let term = am.1[p as int];
                                                } else {
                                                    assert(f0[j] is Some);
                                                }
                                            }
                                            assert(errs@.len() == errs0.len() ==> forall|x: int|
                                                0 <= x < p + 1 ==> match #[trigger] am.1[x] {
                                                    AtomTerm::Value(v) => v.spec_fits(
                                                        position_type(t, x),
                                                    ),
                                                    AtomTerm::Var(j) => found@[j as int] == Some(
                                                        position_type(t, x),
                                                    ),
                                                }) by {
                                                if errs@.len() == errs0.len() {
                                                    assert forall|x: int|
                                                        0 <= x < p + 1 implies match #[trigger] am.1[x] {
                                                        AtomTerm::Value(v) => v.spec_fits(
                                                            position_type(t, x),
                                                        ),
                                                        AtomTerm::Var(j) => found@[j as int]
                                                            == Some(position_type(t, x)),
                                                    } by {
                                                        if x < p {
                                                            match am.1[x] {
                                                                AtomTerm::Var(j) => {
                                                                    assert(f0[j as int] is Some);
                                                                },
                                                                _ => {},
                                                            }
                                                        }
                                                    }
                                                }
                                            }
                                        }
                                    },
                                    Some(known) => {
                                        if known != ty {
                                            errs.push(TypeError::Mismatch);
                                            proof {
                                                assert forall|types: Seq<Type>| !typing_ok(
                                                    tables,
                                                    qm,
                                                    types,
                                                ) by {
                                                    if typing_ok(tables, qm, types) {
                                                        assert(typed_upto(tables, qm, types, a + 1));
                                                        assert(atom_typed(
                                                            tables,
                                                            qm.atoms[a as int],
                                                            types,
                                                        ));
                                                        let term = am.1[p as int];
                                                        assert(types[i as int] == found@[i as int]->Some_0);
                                                    }
                                                }
                                            }
                                        }
                                    },
                                }
                            },
                        }
                        p += 1;
                    }
                    proof {
                        if errs@.len() == 0 {
                            let ts = settle_types(found@);
                            let ts0 = settle_types(before);
                            assert forall|x: int| 0 <= x < a + 1 implies atom_typed(
                                tables,
                                #[trigger] qm.atoms[x],
                                ts,
                            ) by {
                                if x < a {
                                    assert(atom_typed(tables, qm.atoms[x], ts0));
                                    let at = qm.atoms[x];
                                    assert forall|y: int| 0 <= y < at.1.len() implies match #[trigger] at.1[y] {
                                        AtomTerm::Value(v) => v.spec_fits(
                                            position_type(tables[function_index(tables, at.0)], y),
                                        ),
                                        AtomTerm::Var(i) => i < ts.len() && ts[i as int]
                                            == position_type(
                                            tables[function_index(tables, at.0)],
                                            y,
                                        ),
                                    } by {
                                        match at.1[y] {
                                            AtomTerm::Var(i) => {
                                                assert(qm.atoms[x].1[y] matches AtomTerm::Var(j)
                                                    ==> before[j as int] is Some);
                                                assert(found@[i as int] == before[i as int]);
                                            },
                                            _ => {},
                                        }
                                    }
                                } else {
                                    assert forall|y: int| 0 <= y < am.1.len() implies match #[trigger] am.1[y] {
                                        AtomTerm::Value(v) => v.spec_fits(position_type(t, y)),
                                        AtomTerm::Var(i) => i < ts.len() && ts[i as int]
                                            == position_type(t, y),
                                    } by {
                                        match am.1[y] {
                                            AtomTerm::Var(i) => {
                                                assert(qm.atoms[a as int].1[y] matches AtomTerm::Var(
                                                    j,
                                                ) ==> j < qm.num_vars);
                                            },
                                            _ => {},
                                        }
                                    }
                                }
                            }
                            assert forall|x: int, y: int|
                                0 <= x < a + 1 && 0 <= y < qm.atoms[x].1.len() implies (
                            #[trigger] qm.atoms[x].1[y] matches AtomTerm::Var(i)
                                ==> found@[i as int] is Some) by {
                                if x < a {
                                    match qm.atoms[x].1[y] {
                                        AtomTerm::Var(i) => {
                                            assert(before[i as int] is Some);
                                            assert(found@[i as int] == before[i as int]);
                                        },
                                        _ => {},
                                    }
                                } else {
                                    let term = am.1[y];
                                }
                            }
                        }
                    }
                }
            },
        }
        a += 1;
    }
    if errs.len() == 0 {
        let mut v: usize = 0;
        while v < n
            invariant
                v <= n,
                found@.len() == n,
                errs@ == untyped_vars(found@, v as int),
            decreases n - v,
        {
            if found[v].is_none() {
                errs.push(TypeError::Untyped(v));
            }
            v += 1;
        }
        proof {
            lemma_untyped_none(found@, n as int);
            if errs@.len() == 0 {
                assert(typing_ok(tables, qm, settle_types(found@)));
                assert forall|i: int| 0 <= i < qm.num_vars implies #[trigger] qm.mentioned(i) by {
                    assert(found@[i] is Some);
                }
            } else {
                if qm.anchored() {
                    assert forall|i: int| 0 <= i < n implies (#[trigger] found@[i]) is Some by {
                        assert(qm.mentioned(i));
                        let x = choose|x: int| 0 <= x < qm.atoms.len() && #[trigger] qm.mentions(x, i);
                        let y = choose|y: int|
                            0 <= y < qm.atoms[x].1.len() && #[trigger] qm.atoms[x].1[y]
                                == AtomTerm::Var(i as usize);
                    }
                }
            }
        }
    }
    errs
}

} // verus!
