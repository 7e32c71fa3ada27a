//! Conjunctive queries and their compilation from facts.

use crate::ast::{Expr, Fact};
use crate::error::Error;
use crate::symbol::Symbol;
use crate::unionfind::{roots_union, roots_wf, UnionFind};
use crate::value::{Id, Value};
use vstd::prelude::*;

verus! {

/// An argument of an atom: a variable, by its index, or a constant.
#[derive(Clone, Copy, Debug, PartialEq, Eq, Structural, Hash)]
pub enum AtomTerm {
    Var(usize),
    Value(Value),
}

/// One atom of a query: a function and one term for each argument, then
/// one for the output.
#[derive(Clone, Debug, PartialEq, Eq)]
pub struct Atom {
    pub head: Symbol,
    pub terms: Vec<AtomTerm>,
}

/// The model of an atom.
pub type AtomModel = (Symbol, Seq<AtomTerm>);

/// The model of a query: the term of each named variable, the atoms, and
/// the number of variable indices in use.
pub struct QueryModel {
    pub bindings: Seq<(Symbol, AtomTerm)>,
    pub atoms: Seq<AtomModel>,
    pub num_vars: nat,
}

/// A compiled conjunctive query.
#[derive(Clone, Debug)]
pub struct Query {
    bindings: Vec<(Symbol, AtomTerm)>,
    atoms: Vec<Atom>,
    num_vars: usize,
}

/// What the compiler makes equal: named variables, constants, one group
/// for each fact, and one auxiliary variable for each call.
#[derive(Clone, Copy, Debug, PartialEq, Eq, Structural)]
pub enum Node {
    Var(Symbol),
    Value(Value),
    Group(usize),
    Aux(usize),
}

/// A call in flattened form: the function, the nodes of its arguments, and
/// the node of its result last.
pub type PreAtom = (Symbol, Seq<usize>);

/// What flattening has gathered: the nodes, each once; the calls; the
/// pairs of nodes that the facts make equal.
pub struct Flat {
    pub nodes: Seq<Node>,
    pub atoms: Seq<PreAtom>,
    pub pairs: Seq<(usize, usize)>,
}

/// The position of `n` among the nodes once it is one of them.
pub open spec fn node_slot(nodes: Seq<Node>, n: Node) -> int {
    if nodes.contains(n) {
        nodes.index_of(n)
    } else {
        nodes.len() as int
    }
}

/// The nodes with `n` among them.
pub open spec fn nodes_with(nodes: Seq<Node>, n: Node) -> Seq<Node> {
    if nodes.contains(n) {
        nodes
    } else {
        nodes.push(n)
    }
}

/// No node occurs twice.
pub open spec fn nodes_distinct(nodes: Seq<Node>) -> bool {
    forall|i: int, j: int| 0 <= i < j < nodes.len() ==> #[trigger] nodes[i] != #[trigger] nodes[j]
}

impl Flat {
    /// Nothing gathered.
    pub open spec fn empty() -> Flat {
        Flat { nodes: Seq::empty(), atoms: Seq::empty(), pairs: Seq::empty() }
    }

    /// With `n` among the nodes.
    pub open spec fn with_node(self, n: Node) -> Flat {
        Flat { nodes: nodes_with(self.nodes, n), ..self }
    }
}

/// Flattens an expression: a literal and a variable are their own nodes;
/// a call flattens its arguments from left to right, then adds a fresh
/// auxiliary node for its result and the call itself. Returns the node of
/// the expression.
pub open spec fn flatten_expr(fl: Flat, e: Expr) -> (Flat, usize)
    decreases e,
{
    match e {
        Expr::Lit(l) => (
            fl.with_node(Node::Value(l.spec_to_value())),
            node_slot(fl.nodes, Node::Value(l.spec_to_value())) as usize,
        ),
        Expr::Var(v) => (fl.with_node(Node::Var(v)), node_slot(fl.nodes, Node::Var(v)) as usize),
        Expr::Call(op, args) => {
            let (fl1, children) = flatten_args(fl, args@, 0, Seq::empty());
            let aux = Node::Aux(fl1.atoms.len() as usize);
            let slot = node_slot(fl1.nodes, aux) as usize;
            (
                Flat {
                    nodes: nodes_with(fl1.nodes, aux),
                    atoms: fl1.atoms.push((op, children.push(slot))),
                    pairs: fl1.pairs,
                },
                slot,
            )
        },
    }
}

/// Flattens `args[i..]` from left to right; `acc` holds the nodes of the
/// arguments before them.
pub open spec fn flatten_args(fl: Flat, args: Seq<Expr>, i: int, acc: Seq<usize>) -> (
    Flat,
    Seq<usize>,
)
    decreases args, args.len() - i,
{
    if i < 0 || i >= args.len() {
        (fl, acc)
    } else {
        let (fl1, slot) = flatten_expr(fl, args[i]);
        flatten_args(fl1, args, i + 1, acc.push(slot))
    }
}

/// Flattens the expressions `exprs[i..]` of one fact and pairs each with
/// the group node of the fact.
pub open spec fn flatten_group(fl: Flat, group: usize, exprs: Seq<Expr>, i: int) -> Flat
    decreases exprs.len() - i,
{
    if i < 0 || i >= exprs.len() {
        fl
    } else {
        let (fl1, slot) = flatten_expr(fl, exprs[i]);
        flatten_group(Flat { pairs: fl1.pairs.push((group, slot)), ..fl1 }, group, exprs, i + 1)
    }
}

/// The expressions that a fact makes equal.
pub open spec fn fact_exprs(f: Fact) -> Seq<Expr> {
    match f {
        Fact::Eq(exprs) => exprs@,
        Fact::Fact(e) => seq![e],
    }
}

/// Flattens the first `n` facts: each gets a fresh group node, with which
/// all its expressions are paired.
pub open spec fn flatten_facts(facts: Seq<Fact>, n: int) -> Flat
    decreases n,
{
    if n <= 0 {
        Flat::empty()
    } else {
        let fl = flatten_facts(facts, n - 1);
        let g = Node::Group((n - 1) as usize);
        let slot = node_slot(fl.nodes, g) as usize;
        flatten_group(fl.with_node(g), slot, fact_exprs(facts[n - 1]), 0)
    }
}

/// Classes in which every node is alone.
pub open spec fn singletons(n: nat) -> Seq<int> {
    Seq::new(n, |i: int| i)
}

/// The classes after the first `n` pairs were merged.
pub open spec fn merge_pairs(roots: Seq<int>, pairs: Seq<(usize, usize)>, n: int) -> Seq<int>
    decreases n,
{
    if n <= 0 {
        roots
    } else {
        roots_union(merge_pairs(roots, pairs, n - 1), pairs[n - 1].0 as int, pairs[n - 1].1 as int)
    }
}

/// Whether the class of representative `c` holds a constant.
pub open spec fn class_has_value(nodes: Seq<Node>, roots: Seq<int>, c: int) -> bool {
    exists|i: int| 0 <= i < nodes.len() && roots[i] == c && (#[trigger] nodes[i]) is Value
}

/// The constant of the class of representative `c`.
pub open spec fn class_value(nodes: Seq<Node>, roots: Seq<int>, c: int) -> Value {
    let i = choose|i: int| 0 <= i < nodes.len() && roots[i] == c && (#[trigger] nodes[i]) is Value;
    nodes[i]->Value_0
}

/// Whether two different constants were made equal.
pub open spec fn clash(nodes: Seq<Node>, roots: Seq<int>) -> bool {
    exists|i: int, j: int|
        0 <= i < j < nodes.len() && (#[trigger] nodes[i]) is Value && (#[trigger] nodes[j]) is Value
            && roots[i] == roots[j]
}

/// The number of classes without a constant whose representative is below
/// `c`.
pub open spec fn var_classes_below(nodes: Seq<Node>, roots: Seq<int>, c: int) -> nat
    decreases c,
{
    if c <= 0 {
        0
    } else {
        var_classes_below(nodes, roots, c - 1) + if roots[c - 1] == c - 1 && !class_has_value(
            nodes,
            roots,
            c - 1,
        ) {
            1nat
        } else {
            0nat
        }
    }
}

/// The term that stands for node `i`: the constant of its class, or else
/// a variable index; classes without a constant are numbered in the order
/// of their representatives.
pub open spec fn node_term(nodes: Seq<Node>, roots: Seq<int>, i: int) -> AtomTerm {
    let c = roots[i];
    if class_has_value(nodes, roots, c) {
        AtomTerm::Value(class_value(nodes, roots, c))
    } else {
        AtomTerm::Var(var_classes_below(nodes, roots, c) as usize)
    }
}

/// The atom that a flattened call becomes.
pub open spec fn atom_of(nodes: Seq<Node>, roots: Seq<int>, pre: PreAtom) -> AtomModel {
    (pre.0, Seq::new(pre.1.len(), |k: int| node_term(nodes, roots, pre.1[k] as int)))
}

/// The bindings of the named variables among the first `n` nodes, in the
/// order of the nodes.
pub open spec fn bindings_of(nodes: Seq<Node>, roots: Seq<int>, n: int) -> Seq<(Symbol, AtomTerm)>
    decreases n,
{
    if n <= 0 {
        Seq::empty()
    } else {
        let rest = bindings_of(nodes, roots, n - 1);
        match nodes[n - 1] {
            Node::Var(v) => rest.push((v, node_term(nodes, roots, n - 1))),
            _ => rest,
        }
    }
}

/// The classes that the facts put their nodes in.
pub open spec fn fact_classes(facts: Seq<Fact>) -> Seq<int> {
    let fl = flatten_facts(facts, facts.len() as int);
    merge_pairs(singletons(fl.nodes.len()), fl.pairs, fl.pairs.len() as int)
}

/// Whether the facts make two different constants equal.
pub open spec fn facts_clash(facts: Seq<Fact>) -> bool {
    clash(flatten_facts(facts, facts.len() as int).nodes, fact_classes(facts))
}

/// The query that the facts compile to.
pub open spec fn compile_spec(facts: Seq<Fact>) -> QueryModel {
    let fl = flatten_facts(facts, facts.len() as int);
    let roots = fact_classes(facts);
    QueryModel {
        bindings: bindings_of(fl.nodes, roots, fl.nodes.len() as int),
        atoms: Seq::new(fl.atoms.len(), |k: int| atom_of(fl.nodes, roots, fl.atoms[k])),
        num_vars: var_classes_below(fl.nodes, roots, fl.nodes.len() as int),
    }
}

impl QueryModel {
    /// Every variable index in an atom or a binding is below `num_vars`.
    pub open spec fn wf(self) -> bool {
        &&& forall|a: int, k: int|
            0 <= a < self.atoms.len() && 0 <= k < self.atoms[a].1.len() ==> (
            #[trigger] self.atoms[a].1[k] matches AtomTerm::Var(v) ==> v < self.num_vars)
        &&& forall|b: int|
            0 <= b < self.bindings.len() ==> ((#[trigger] self.bindings[b]).1 matches AtomTerm::Var(
                v,
            ) ==> v < self.num_vars)
    }

    /// Whether atom `a` mentions variable `v`.
    pub open spec fn mentions(self, a: int, v: int) -> bool {
        exists|k: int|
            0 <= k < self.atoms[a].1.len() && #[trigger] self.atoms[a].1[k] == AtomTerm::Var(
                v as usize,
            )
    }

    /// Whether some atom mentions variable `v`.
    pub open spec fn mentioned(self, v: int) -> bool {
        exists|a: int| 0 <= a < self.atoms.len() && #[trigger] self.mentions(a, v)
    }

    /// Whether every variable index occurs in some atom.
    pub open spec fn anchored(self) -> bool {
        forall|v: int| 0 <= v < self.num_vars ==> #[trigger] self.mentioned(v)
    }
}

impl Query {
    /// The model of the query.
    pub closed spec fn view(&self) -> QueryModel {
        QueryModel {
            bindings: self.bindings@,
            atoms: Seq::new(self.atoms@.len(), |k: int| (self.atoms@[k].head, self.atoms@[k].terms@)),
            num_vars: self.num_vars as nat,
        }
    }

    /// The number of variable indices in use.
    pub fn num_vars(&self) -> (n: usize)
        ensures
            n == self@.num_vars,
    {
        self.num_vars
    }

    /// The number of atoms.
    pub fn num_atoms(&self) -> (n: usize)
        ensures
            n == self@.atoms.len(),
    {
        self.atoms.len()
    }

    /// Atom `a`.
    pub fn atom(&self, a: usize) -> (r: &Atom)
        requires
            a < self@.atoms.len(),
        ensures
            (r.head, r.terms@) == self@.atoms[a as int],
    {
        &self.atoms[a]
    }

    /// The number of bindings.
    pub fn num_bindings(&self) -> (n: usize)
        ensures
            n == self@.bindings.len(),
    {
        self.bindings.len()
    }

    /// Binding `b`: a named variable and its term.
    pub fn binding(&self, b: usize) -> (r: (Symbol, AtomTerm))
        requires
            b < self@.bindings.len(),
        ensures
            r == self@.bindings[b as int],
    {
        self.bindings[b]
    }
}

struct Builder {
    nodes: Vec<Node>,
    atoms: Vec<(Symbol, Vec<usize>)>,
    pairs: Vec<(usize, usize)>,
}

impl Builder {
    spec fn view(&self) -> Flat {
        Flat {
            nodes: self.nodes@,
            atoms: Seq::new(self.atoms@.len(), |k: int| (self.atoms@[k].0, self.atoms@[k].1@)),
            pairs: self.pairs@,
        }
    }

    spec fn wf(&self) -> bool {
        flat_wf(self@)
    }

    fn intern(&mut self, n: Node) -> (slot: usize)
        requires
            old(self).wf(),
        ensures
            final(self).wf(),
            final(self)@ == old(self)@.with_node(n),
            slot == node_slot(old(self)@.nodes, n),
            slot < final(self)@.nodes.len(),
            final(self)@.nodes[slot as int] == n,
            old(self)@.nodes.is_prefix_of(final(self)@.nodes),
    {
        let mut i: usize = 0;
        while i < self.nodes.len()
            invariant
                i <= self.nodes@.len(),
                self.wf(),
                *self == *old(self),
                forall|k: int| 0 <= k < i ==> self.nodes@[k] != n,
            decreases self.nodes@.len() - i,
        {
            if self.nodes[i] == n {
                proof {
                    let s = self.nodes@;
                    assert(s.contains(n));
                    let j = s.index_of(n);
                    if j < i {
                        assert(s[j] != s[i as int]);
                    } else if j > i {
                        assert(s[i as int] != s[j]);
                    }
                }
                return i;
            }
            i += 1;
        }
        let slot = self.nodes.len();
        self.nodes.push(n);
        proof {
            let before = old(self)@;
            assert(!before.nodes.contains(n));
            assert(self@.atoms =~= before.atoms);
            assert forall|x: int, y: int| 0 <= x < y < self@.nodes.len() implies #[trigger] self@.nodes[x]
                != #[trigger] self@.nodes[y] by {
                if y < before.nodes.len() {
                    assert(before.nodes[x] != before.nodes[y]);
                } else {
                    assert(before.nodes[x] != n);
                }
            }
            assert forall|a: int, k: int|
                0 <= a < self@.atoms.len() && 0 <= k < self@.atoms[a].1.len() implies (
            #[trigger] self@.atoms[a].1[k]) < self@.nodes.len() by {
                assert(before.atoms[a].1[k] < before.nodes.len());
            }
            assert forall|p: int| 0 <= p < self@.pairs.len() implies (#[trigger] self@.pairs[p]).0
                < self@.nodes.len() && self@.pairs[p].1 < self@.nodes.len() by {
                assert(before.pairs[p].0 < before.nodes.len());
            }
        }
        slot
    }

    fn expr(&mut self, e: &Expr) -> (slot: usize)
        requires
            old(self).wf(),
        ensures
            final(self).wf(),
            (final(self)@, slot) == flatten_expr(old(self)@, *e),
            slot < final(self)@.nodes.len(),
            old(self)@.nodes.is_prefix_of(final(self)@.nodes),
        decreases e,
    {
        match e {
            Expr::Lit(l) => self.intern(Node::Value(l.to_value())),
            Expr::Var(v) => self.intern(Node::Var(*v)),
            Expr::Call(op, args) => {
                let mut children: Vec<usize> = Vec::new();
                let mut i: usize = 0;
                let ghost goal = flatten_args(old(self)@, args@, 0, Seq::empty());
                while i < args.len()
                    invariant
                        i <= args@.len(),
                        self.wf(),
                        *e matches Expr::Call(_, a) && a == *args,
                        goal == flatten_args(self@, args@, i as int, children@),
                        old(self)@.nodes.is_prefix_of(self@.nodes),
                        forall|k: int| 0 <= k < children@.len() ==> children@[k] < self@.nodes.len(),
                    decreases args@.len() - i,
                {
                    let slot = self.expr(&args[i]);
                    children.push(slot);
                    i += 1;
                }
                let ghost fl1 = self@;
                let slot = self.intern(Node::Aux(self.atoms.len()));
                children.push(slot);
                let ghost kids = children@;
                self.atoms.push((*op, children));
                proof {
                    assert(self@.atoms =~= fl1.atoms.push((*op, kids)));
                }
                slot
            },
        }
    }

    fn group(&mut self, group: usize, exprs: &Vec<Expr>)
        requires
            old(self).wf(),
            group < old(self)@.nodes.len(),
        ensures
            final(self).wf(),
            final(self)@ == flatten_group(old(self)@, group, exprs@, 0),
            old(self)@.nodes.is_prefix_of(final(self)@.nodes),
    {
        let ghost goal = flatten_group(old(self)@, group, exprs@, 0);
        let mut i: usize = 0;
        while i < exprs.len()
            invariant
                i <= exprs@.len(),
                self.wf(),
                group < self@.nodes.len(),
                goal == flatten_group(self@, group, exprs@, i as int),
                old(self)@.nodes.is_prefix_of(self@.nodes),
            decreases exprs@.len() - i,
        {
            let slot = self.expr(&exprs[i]);
            let ghost fl1 = self@;
            self.pairs.push((group, slot));
            proof {
                assert(self@.atoms =~= fl1.atoms);
                assert(self@ == Flat { pairs: fl1.pairs.push((group, slot)), ..fl1 });
            }
            i += 1;
        }
    }
}

/// Every node occurs once, and calls and pairs speak of nodes that exist.
pub open spec fn flat_wf(fl: Flat) -> bool {
    &&& nodes_distinct(fl.nodes)
    &&& forall|a: int, k: int|
        0 <= a < fl.atoms.len() && 0 <= k < fl.atoms[a].1.len() ==> (#[trigger] fl.atoms[a].1[k])
            < fl.nodes.len()
    &&& forall|p: int|
        0 <= p < fl.pairs.len() ==> (#[trigger] fl.pairs[p]).0 < fl.nodes.len() && fl.pairs[p].1
            < fl.nodes.len()
}

fn flatten(facts: &Vec<Fact>) -> (b: Builder)
    ensures
        b.wf(),
        b@ == flatten_facts(facts@, facts@.len() as int),
{
    let mut b = Builder { nodes: Vec::new(), atoms: Vec::new(), pairs: Vec::new() };
    assert(b@.atoms =~= Seq::<PreAtom>::empty());
    let mut i: usize = 0;
    while i < facts.len()
        invariant
            i <= facts@.len(),
            b.wf(),
            b@ == flatten_facts(facts@, i as int),
        decreases facts@.len() - i,
    {
        let g = b.intern(Node::Group(i));
        match &facts[i] {
            Fact::Eq(exprs) => {
                b.group(g, exprs);
            },
            Fact::Fact(e) => {
                let ghost fl0 = b@;
                let slot = b.expr(e);
                let ghost fl1 = b@;
                b.pairs.push((g, slot));
                proof {
                    assert(b@.atoms =~= fl1.atoms);
                    let exprs = seq![*e];
                    assert(exprs[0] == *e);
                    let fl2 = Flat { pairs: fl1.pairs.push((g, slot)), ..fl1 };
                    assert(b@ == fl2);
                    assert(flatten_group(fl2, g, exprs, 1) == fl2);
                    assert(flatten_group(fl0, g, exprs, 0) == fl2);
                }
            },
        }
        i += 1;
    }
    b
}

proof fn lemma_var_classes_step(nodes: Seq<Node>, roots: Seq<int>, c: int, n: int)
    requires
        0 <= c <= n,
    ensures
        var_classes_below(nodes, roots, c) <= var_classes_below(nodes, roots, n),
        var_classes_below(nodes, roots, n) <= n,
        c < n && roots[c] == c && !class_has_value(nodes, roots, c) ==> var_classes_below(
            nodes,
            roots,
            c,
        ) < var_classes_below(nodes, roots, n),
    decreases n,
{
    if c < n {
        lemma_var_classes_step(nodes, roots, c, n - 1);
    }
    if n > 0 {
        lemma_var_classes_step(nodes, roots, 0, n - 1);
    }
}

/// The constant of each class, by representative; nothing where two
/// different constants share a class.
fn class_values(nodes: &Vec<Node>, uf: &UnionFind) -> (r: Option<Vec<Option<Value>>>)
    requires
        uf.wf(),
        uf@.len() == nodes@.len(),
        nodes_distinct(nodes@),
    ensures
        match r {
            None => clash(nodes@, uf@),
            Some(vals) => {
                &&& !clash(nodes@, uf@)
                &&& vals@.len() == nodes@.len()
                &&& forall|c: int|
                    0 <= c < vals@.len() ==> ((#[trigger] vals@[c]) is Some <==> class_has_value(
                        nodes@,
                        uf@,
                        c,
                    ))
                &&& forall|c: int|
                    0 <= c < vals@.len() ==> ((#[trigger] vals@[c]) matches Some(v) ==> v
                        == class_value(nodes@, uf@, c))
            },
        },
{
    let n = nodes.len();
    let mut vals: Vec<Option<Value>> = Vec::new();
    let mut k: usize = 0;
    while k < n
        invariant
            k <= n,
            vals@.len() == k,
            forall|c: int| 0 <= c < k ==> (#[trigger] vals@[c]) is None,
        decreases n - k,
    {
        vals.push(None);
        k += 1;
    }
    proof {
        uf.lemma_wf();
    }
    let mut i: usize = 0;
    while i < n
        invariant
            i <= n,
            n == nodes@.len(),
            uf.wf(),
            roots_wf(uf@),
            uf@.len() == n,
            vals@.len() == n,
            forall|c: int|
                0 <= c < n ==> ((#[trigger] vals@[c]) matches Some(v) ==> exists|j: int|
                    0 <= j < i && uf@[j] == c && #[trigger] nodes@[j] == Node::Value(v)),
            forall|j: int|
                0 <= j < i && (#[trigger] nodes@[j]) is Value ==> vals@[uf@[j]] == Some(
                    nodes@[j]->Value_0,
                ),
        decreases n - i,
    {
        match nodes[i] {
            Node::Value(v) => {
                let c = uf.find(Id(i)).0;
                assert(0 <= uf@[i as int] <= i);
                match vals[c] {
                    Some(w) => {
                        proof {
                            let j = choose|j: int|
                                0 <= j < i && uf@[j] == c && #[trigger] nodes@[j] == Node::Value(w);
                            assert(nodes@[j] is Value && nodes@[i as int] is Value);
                        }
                        return None;
                    },
                    None => {
                        vals.set(c, Some(v));
                    },
                }
            },
            _ => {},
        }
        i += 1;
    }
    proof {
        let roots = uf@;
        let ns = nodes@;
        assert(!clash(ns, roots)) by {
            if clash(ns, roots) {
                let (a, b) = choose|a: int, b: int|
                    0 <= a < b < ns.len() && (#[trigger] ns[a]) is Value && (#[trigger] ns[b]) is Value
                        && roots[a] == roots[b];
                assert(vals@[roots[a]] == Some(ns[a]->Value_0));
                assert(vals@[roots[b]] == Some(ns[b]->Value_0));
                assert(ns[a] != ns[b]);
            }
        }
        assert forall|c: int| 0 <= c < vals@.len() implies ((#[trigger] vals@[c]) is Some
            <==> class_has_value(ns, roots, c)) by {
            if vals@[c] is Some {
                let v = vals@[c]->Some_0;
                let j = choose|j: int| 0 <= j < n && roots[j] == c && #[trigger] ns[j] == Node::Value(v);
                assert(ns[j] is Value);
            }
            if class_has_value(ns, roots, c) {
                let j = choose|j: int| 0 <= j < ns.len() && roots[j] == c && (#[trigger] ns[j]) is Value;
                assert(vals@[roots[j]] == Some(ns[j]->Value_0));
            }
        }
        assert forall|c: int| 0 <= c < vals@.len() implies ((#[trigger] vals@[c]) matches Some(v)
            ==> v == class_value(ns, roots, c)) by {
            if vals@[c] is Some {
                assert(class_has_value(ns, roots, c));
                let j = choose|j: int| 0 <= j < ns.len() && roots[j] == c && (#[trigger] ns[j]) is Value;
                assert(vals@[roots[j]] == Some(ns[j]->Value_0));
            }
        }
    }
    Some(vals)
}

/// The term of each class, by representative, and the number of variable
/// indices handed out.
fn class_terms(nodes: &Vec<Node>, uf: &UnionFind, vals: &Vec<Option<Value>>) -> (r: (
    Vec<AtomTerm>,
    usize,
))
    requires
        uf.wf(),
        uf@.len() == nodes@.len(),
        vals@.len() == nodes@.len(),
        forall|c: int|
            0 <= c < vals@.len() ==> ((#[trigger] vals@[c]) is Some <==> class_has_value(
                nodes@,
                uf@,
                c,
            )),
        forall|c: int|
            0 <= c < vals@.len() ==> ((#[trigger] vals@[c]) matches Some(v) ==> v == class_value(
                nodes@,
                uf@,
                c,
            )),
    ensures
        r.0@.len() == nodes@.len(),
        r.1 == var_classes_below(nodes@, uf@, nodes@.len() as int),
        forall|i: int| 0 <= i < nodes@.len() ==> r.0@[uf@[i]] == #[trigger] node_term(nodes@, uf@, i),
{
    let n = nodes.len();
    let mut terms: Vec<AtomTerm> = Vec::new();
    let mut next: usize = 0;
    let mut c: usize = 0;
    proof {
        uf.lemma_wf();
    }
    while c < n
        invariant
            c <= n,
            n == nodes@.len(),
            uf.wf(),
            roots_wf(uf@),
            uf@.len() == n,
            vals@.len() == n,
            terms@.len() == c,
            next == var_classes_below(nodes@, uf@, c as int),
            next <= c,
            forall|d: int|
                0 <= d < vals@.len() ==> ((#[trigger] vals@[d]) is Some <==> class_has_value(
                    nodes@,
                    uf@,
                    d,
                )),
            forall|d: int|
                0 <= d < vals@.len() ==> ((#[trigger] vals@[d]) matches Some(v) ==> v
                    == class_value(nodes@, uf@, d)),
            forall|d: int|
                0 <= d < c && uf@[d] == d ==> #[trigger] terms@[d] == node_term(nodes@, uf@, d),
        decreases n - c,
    {
        let root = uf.find(Id(c)).0;
        let t = match vals[c] {
            Some(v) => AtomTerm::Value(v),
            None => AtomTerm::Var(next),
        };
        if root == c && vals[c].is_none() {
            next += 1;
        }
        terms.push(t);
        c += 1;
    }
    proof {
        assert forall|i: int| 0 <= i < nodes@.len() implies terms@[uf@[i]] == #[trigger] node_term(
            nodes@,
            uf@,
            i,
        ) by {
            let d = uf@[i];
            assert(0 <= d <= i && uf@[d] == d);
            assert(terms@[d] == node_term(nodes@, uf@, d));
        }
    }
    (terms, next)
}

impl Query {
    /// Compiles facts into a query.
    ///
    /// The expressions are flattened into calls over nodes, the nodes that
    /// the facts make equal are put into classes, and each class becomes
    /// one term: its constant, or else a fresh variable index. Two
    /// different constants in one class make the query inconsistent, and
    /// nothing else does. See [`compile_spec`].
    pub fn from_facts(facts: Vec<Fact>) -> (r: Result<Query, Error>)
        ensures
            match r {
                Ok(q) => !facts_clash(facts@) && q@ == compile_spec(facts@) && q@.wf(),
                Err(e) => facts_clash(facts@) && e == Error::InconsistentQuery,
            },
    {
        let b = flatten(&facts);
        let ghost fl = b@;
        let n = b.nodes.len();
        let mut uf = UnionFind::new();
        let mut k: usize = 0;
        while k < n
            invariant
                k <= n,
                uf.wf(),
                uf@ == singletons(k as nat),
            decreases n - k,
        {
            let _ = uf.make_set();
            assert(uf@ =~= singletons((k + 1) as nat));
            k += 1;
        }
        let mut p: usize = 0;
        while p < b.pairs.len()
            invariant
                p <= b.pairs@.len(),
                b.wf(),
                b@ == fl,
                n == fl.nodes.len(),
                uf.wf(),
                uf@.len() == n,
                uf@ == merge_pairs(singletons(n as nat), fl.pairs, p as int),
            decreases b.pairs@.len() - p,
        {
            let (x, y) = b.pairs[p];
            assert(fl.pairs[p as int].0 < fl.nodes.len() && fl.pairs[p as int].1 < fl.nodes.len());
            let _ = uf.union(Id(x), Id(y));
            p += 1;
        }
        let ghost roots = uf@;
        assert(roots == fact_classes(facts@));
        let vals = match class_values(&b.nodes, &uf) {
            None => {
                return Err(Error::InconsistentQuery);
            },
            Some(vals) => vals,
        };
        let (terms, num_vars) = class_terms(&b.nodes, &uf, &vals);
        proof {
            uf.lemma_wf();
        }
        let mut atoms: Vec<Atom> = Vec::new();
        let mut a: usize = 0;
        while a < b.atoms.len()
            invariant
                a <= b.atoms@.len(),
                b.wf(),
                b@ == fl,
                n == fl.nodes.len(),
                uf.wf(),
                uf@ == roots,
                roots_wf(roots),
                roots.len() == n,
                terms@.len() == n,
                forall|i: int| 0 <= i < n ==> terms@[roots[i]] == #[trigger] node_term(fl.nodes, roots, i),
                atoms@.len() == a,
                forall|j: int|
                    0 <= j < a ==> ((#[trigger] atoms@[j]).head, atoms@[j].terms@) == atom_of(
                        fl.nodes,
                        roots,
                        fl.atoms[j],
                    ),
            decreases b.atoms@.len() - a,
        {
            let mut ts: Vec<AtomTerm> = Vec::new();
            let mut m: usize = 0;
            let ghost pre = fl.atoms[a as int];
            assert(pre == (b.atoms@[a as int].0, b.atoms@[a as int].1@));
            while m < b.atoms[a].1.len()
                invariant
                    a < b.atoms@.len(),
                    m <= b.atoms@[a as int].1@.len(),
                    b.wf(),
                    b@ == fl,
                    pre == fl.atoms[a as int],
                    pre.1 == b.atoms@[a as int].1@,
                    n == fl.nodes.len(),
                    uf.wf(),
                    uf@ == roots,
                    roots_wf(roots),
                    roots.len() == n,
                    terms@.len() == n,
                    forall|i: int|
                        0 <= i < n ==> terms@[roots[i]] == #[trigger] node_term(fl.nodes, roots, i),
                    ts@.len() == m,
                    forall|j: int| 0 <= j < m ==> ts@[j] == node_term(fl.nodes, roots, pre.1[j] as int),
                decreases b.atoms@[a as int].1@.len() - m,
            {
                let slot = b.atoms[a].1[m];
                assert(fl.atoms[a as int].1[m as int] < fl.nodes.len());
                let root = uf.find(Id(slot)).0;
                assert(terms@[roots[slot as int]] == node_term(fl.nodes, roots, slot as int));
                ts.push(terms[root]);
                m += 1;
            }
            assert(ts@ =~= atom_of(fl.nodes, roots, pre).1);
            atoms.push(Atom { head: b.atoms[a].0, terms: ts });
            a += 1;
        }
        let mut bindings: Vec<(Symbol, AtomTerm)> = Vec::new();
        let mut i: usize = 0;
        while i < n
            invariant
                i <= n,
                b@ == fl,
                n == fl.nodes.len(),
                n == b.nodes@.len(),
                uf.wf(),
                uf@ == roots,
                roots_wf(roots),
                roots.len() == n,
                terms@.len() == n,
                forall|j: int| 0 <= j < n ==> terms@[roots[j]] == #[trigger] node_term(fl.nodes, roots, j),
                bindings@ == bindings_of(fl.nodes, roots, i as int),
            decreases n - i,
        {
            match b.nodes[i] {
                Node::Var(v) => {
                    let root = uf.find(Id(i)).0;
                    assert(terms@[roots[i as int]] == node_term(fl.nodes, roots, i as int));
                    bindings.push((v, terms[root]));
                },
                _ => {},
            }
            i += 1;
        }
        let q = Query { bindings, atoms, num_vars };
        proof {
            let model = compile_spec(facts@);
            assert(q@.atoms =~= model.atoms);
            assert(q@ == model);
            assert(q@.wf()) by {
                assert forall|x: int, y: int|
                    0 <= x < q@.atoms.len() && 0 <= y < q@.atoms[x].1.len() implies (
                #[trigger] q@.atoms[x].1[y] matches AtomTerm::Var(v) ==> v < q@.num_vars) by {
                    let slot = fl.atoms[x].1[y] as int;
                    assert(fl.atoms[x].1[y] < fl.nodes.len());
                    lemma_term_bound(fl.nodes, roots, slot);
                }
                assert forall|x: int| 0 <= x < q@.bindings.len() implies ((
                #[trigger] q@.bindings[x]).1 matches AtomTerm::Var(v) ==> v < q@.num_vars) by {
                    lemma_bindings_bound(fl.nodes, roots, n as int, x);
                }
            }
        }
        Ok(q)
    }
}

proof fn lemma_term_bound(nodes: Seq<Node>, roots: Seq<int>, i: int)
    requires
        roots_wf(roots),
        roots.len() == nodes.len(),
        0 <= i < nodes.len(),
    ensures
        node_term(nodes, roots, i) matches AtomTerm::Var(v) ==> v < var_classes_below(
            nodes,
            roots,
            nodes.len() as int,
        ),
{
    let c = roots[i];
    assert(0 <= c <= i && roots[c] == c);
    lemma_var_classes_step(nodes, roots, c, nodes.len() as int);
}

proof fn lemma_bindings_bound(nodes: Seq<Node>, roots: Seq<int>, n: int, x: int)
    requires
        roots_wf(roots),
        roots.len() == nodes.len(),
        0 <= n <= nodes.len(),
        0 <= x < bindings_of(nodes, roots, n).len(),
    ensures
        bindings_of(nodes, roots, n)[x].1 matches AtomTerm::Var(v) ==> v < var_classes_below(
            nodes,
            roots,
            nodes.len() as int,
        ),
    decreases n,
{
    if n > 0 {
        let rest = bindings_of(nodes, roots, n - 1);
        if x < rest.len() {
            lemma_bindings_bound(nodes, roots, n - 1, x);
        } else {
            lemma_term_bound(nodes, roots, n - 1);
        }
    }
}

} // verus!
