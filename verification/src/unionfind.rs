//! A disjoint-set structure over class identifiers.
//!
//! The representative of a class is its smallest member, so a parent never
//! has a larger index than its child and following parents terminates.

use crate::value::{Id, Value};
use vstd::prelude::*;

verus! {

/// Every parent is at most its child.
pub open spec fn parents_wf(p: Seq<usize>) -> bool {
    forall|i: int| 0 <= i < p.len() ==> #[trigger] p[i] <= i
}

/// The root that following parents from `i` ends in.
pub open spec fn root_of(p: Seq<usize>, i: int) -> int
    decreases i,
{
    if 0 <= i < p.len() && p[i] < i {
        root_of(p, p[i] as int)
    } else {
        i
    }
}

/// The number of indices below `n` that are their own image.
pub open spec fn count_fixed(r: Seq<int>, n: int) -> nat
    decreases n,
{
    if n <= 0 {
        0
    } else {
        count_fixed(r, n - 1) + if n - 1 < r.len() && r[n - 1] == n - 1 {
            1nat
        } else {
            0nat
        }
    }
}

/// A map from each identifier to its representative: the representative
/// is the smallest member of the class and represents itself.
pub open spec fn roots_wf(r: Seq<int>) -> bool {
    forall|i: int|
        0 <= i < r.len() ==> 0 <= #[trigger] r[i] <= i && r[r[i]] == r[i]
}

/// The number of equivalence classes.
pub open spec fn num_classes(r: Seq<int>) -> nat {
    count_fixed(r, r.len() as int)
}

/// The representatives after one more identifier was allocated.
pub open spec fn roots_make_set(r: Seq<int>) -> Seq<int> {
    r.push(r.len() as int)
}

/// The representative of the class that merging the classes of `a` and
/// `b` gives.
pub open spec fn merged_root(r: Seq<int>, a: int, b: int) -> int {
    if r[a] <= r[b] {
        r[a]
    } else {
        r[b]
    }
}

/// The representatives after the classes of `a` and `b` were merged:
/// their members go to the smaller of the two representatives, all others
/// keep theirs.
pub open spec fn roots_union(r: Seq<int>, a: int, b: int) -> Seq<int> {
    Seq::new(
        r.len(),
        |i: int|
            if r[i] == r[a] || r[i] == r[b] {
                merged_root(r, a, b)
            } else {
                r[i]
            },
    )
}

/// The representative of a value: that of its class for a known class
/// identifier, the value itself for anything else.
pub open spec fn canon_value(r: Seq<int>, v: Value) -> Value {
    match v {
        Value::Id(id) => if id.0 < r.len() {
            Value::Id(Id(r[id.0 as int] as usize))
        } else {
            v
        },
        _ => v,
    }
}

/// Whether `v` is a class identifier that the structure has handed out.
pub open spec fn is_known_class(r: Seq<int>, v: Value) -> bool {
    v matches Value::Id(id) && id.0 < r.len()
}

/// Following parents ends in a root that is no larger than where it
/// started, and a root is its own root.
pub proof fn lemma_root_props(p: Seq<usize>, i: int)
    requires
        parents_wf(p),
        0 <= i < p.len(),
    ensures
        0 <= root_of(p, i) <= i,
        p[root_of(p, i)] == root_of(p, i),
        root_of(p, root_of(p, i)) == root_of(p, i),
    decreases i,
{
    if p[i] < i {
        lemma_root_props(p, p[i] as int);
    }
}

proof fn lemma_update_keeps_roots(p: Seq<usize>, x: int, i: int)
    requires
        parents_wf(p),
        0 <= x < p.len(),
        0 <= i < p.len(),
    ensures
        parents_wf(p.update(x, root_of(p, x) as usize)),
        root_of(p.update(x, root_of(p, x) as usize), i) == root_of(p, i),
    decreases i,
{
    lemma_root_props(p, x);
    let r = root_of(p, x);
    let q = p.update(x, r as usize);
    assert(parents_wf(q)) by {
        assert forall|k: int| 0 <= k < q.len() implies #[trigger] q[k] <= k by {
            if k != x {
                assert(q[k] == p[k]);
            }
        }
    }
    if i == x {
        if r < x {
            assert(q[r] == p[r]);
            assert(root_of(q, r) == r);
            if p[x] < x {
            }
        }
    } else {
        assert(q[i] == p[i]);
        if p[i] < i {
            lemma_update_keeps_roots(p, x, p[i] as int);
        }
    }
}

proof fn lemma_link(p: Seq<usize>, big: int, small: int, i: int)
    requires
        parents_wf(p),
        0 <= small < big < p.len(),
        p[big] == big,
        p[small] == small,
        0 <= i < p.len(),
    ensures
        parents_wf(p.update(big, small as usize)),
        root_of(p.update(big, small as usize), i) == if root_of(p, i) == big {
            small
        } else {
            root_of(p, i)
        },
    decreases i,
{
    let q = p.update(big, small as usize);
    assert(parents_wf(q)) by {
        assert forall|k: int| 0 <= k < q.len() implies #[trigger] q[k] <= k by {
            if k != big {
                assert(q[k] == p[k]);
            }
        }
    }
    if i == big {
        assert(q[small] == p[small]);
        assert(root_of(q, small) == small);
    } else {
        assert(q[i] == p[i]);
        if p[i] < i {
            lemma_link(p, big, small, p[i] as int);
        }
    }
}

/// The representatives that a parent array stands for.
pub open spec fn roots_of(p: Seq<usize>) -> Seq<int> {
    Seq::new(p.len(), |i: int| root_of(p, i))
}

proof fn lemma_roots_wf(p: Seq<usize>)
    requires
        parents_wf(p),
    ensures
        roots_wf(roots_of(p)),
{
    let r = roots_of(p);
    assert forall|i: int| 0 <= i < r.len() implies 0 <= #[trigger] r[i] <= i && r[r[i]] == r[i] by {
        lemma_root_props(p, i);
    }
}

/// The number of indices below `n` that are their own parent.
spec fn count_self(p: Seq<usize>, n: int) -> nat
    decreases n,
{
    if n <= 0 {
        0
    } else {
        count_self(p, n - 1) + if n - 1 < p.len() && p[n - 1] == n - 1 {
            1nat
        } else {
            0nat
        }
    }
}

proof fn lemma_count_self_is_fixed(p: Seq<usize>, n: int)
    requires
        parents_wf(p),
        n <= p.len(),
    ensures
        count_self(p, n) == count_fixed(roots_of(p), n),
    decreases n,
{
    if n > 0 {
        lemma_count_self_is_fixed(p, n - 1);
        lemma_root_props(p, n - 1);
    }
}

proof fn lemma_count_self_update(p: Seq<usize>, x: int, v: usize, n: int)
    requires
        0 <= x < p.len(),
        v != x,
        n <= p.len(),
    ensures
        count_self(p.update(x, v), n) + (if x < n && p[x] == x {
            1nat
        } else {
            0nat
        }) == count_self(p, n),
    decreases n,
{
    if n > 0 {
        lemma_count_self_update(p, x, v, n - 1);
        if n - 1 != x {
            assert(p.update(x, v)[n - 1] == p[n - 1]);
        }
    }
}

proof fn lemma_count_self_push(p: Seq<usize>, v: usize, n: int)
    requires
        n <= p.len(),
    ensures
        count_self(p.push(v), n) == count_self(p, n),
    decreases n,
{
    if n > 0 {
        lemma_count_self_push(p, v, n - 1);
        assert(p.push(v)[n - 1] == p[n - 1]);
    }
}

proof fn lemma_count_fixed_bound(r: Seq<int>, n: int)
    ensures
        count_fixed(r, n) <= if n <= 0 {
            0
        } else {
            n
        },
    decreases n,
{
    if n > 0 {
        lemma_count_fixed_bound(r, n - 1);
    }
}

/// There are no more classes than identifiers.
pub proof fn lemma_classes_le_len(r: Seq<int>)
    ensures
        num_classes(r) <= r.len(),
{
    lemma_count_fixed_bound(r, r.len() as int);
}

/// Merging never adds a class: it removes one where the two classes
/// differed and none where they were the same.
pub proof fn lemma_union_classes(r: Seq<int>, a: int, b: int)
    requires
        roots_wf(r),
        0 <= a < r.len(),
        0 <= b < r.len(),
    ensures
        roots_wf(roots_union(r, a, b)),
        r[a] == r[b] ==> roots_union(r, a, b) == r,
        num_classes(roots_union(r, a, b)) + (if r[a] == r[b] {
            0nat
        } else {
            1nat
        }) == num_classes(r),
{
    let u = roots_union(r, a, b);
    let m = merged_root(r, a, b);
    let big = if r[a] <= r[b] {
        r[b]
    } else {
        r[a]
    };
    assert(r[r[a]] == r[a]);
    assert(r[r[b]] == r[b]);
    assert forall|i: int| 0 <= i < u.len() implies 0 <= #[trigger] u[i] <= i && u[u[i]] == u[i] by {
        assert(r[r[i]] == r[i]);
    }
    if r[a] == r[b] {
        assert(u =~= r);
    } else {
        lemma_count_fixed_union(r, a, b, r.len() as int);
    }
}

proof fn lemma_count_fixed_union(r: Seq<int>, a: int, b: int, n: int)
    requires
        roots_wf(r),
        0 <= a < r.len(),
        0 <= b < r.len(),
        r[a] != r[b],
        0 <= n <= r.len(),
    ensures
        count_fixed(roots_union(r, a, b), n) + (if (if r[a] <= r[b] {
            r[b]
        } else {
            r[a]
        }) < n {
            1nat
        } else {
            0nat
        }) == count_fixed(r, n),
    decreases n,
{
    if n > 0 {
        lemma_count_fixed_union(r, a, b, n - 1);
        assert(r[r[a]] == r[a]);
        assert(r[r[b]] == r[b]);
        assert(r[r[n - 1]] == r[n - 1]);
    }
}

/// The disjoint-set structure. Identifiers are dense and never freed.
pub struct UnionFind {
    parents: Vec<usize>,
    n_unions: usize,
}

impl UnionFind {
    /// The representative of each identifier.
    pub closed spec fn view(&self) -> Seq<int> {
        roots_of(self.parents@)
    }

    /// The number of merges that joined two different classes.
    pub closed spec fn spec_n_unions(&self) -> nat {
        self.n_unions as nat
    }

    /// The structure's invariant: parents point downwards, and every
    /// counted merge removed one class.
    pub closed spec fn wf(&self) -> bool {
        &&& parents_wf(self.parents@)
        &&& self.n_unions + count_self(self.parents@, self.parents@.len() as int)
            == self.parents@.len()
    }

    /// Whether `id` was handed out by this structure.
    pub open spec fn contains(&self, id: Id) -> bool {
        id.0 < self@.len()
    }

    /// What the invariant says of the view: it is a representative map, and
    /// the identifiers are the classes plus the counted merges.
    pub proof fn lemma_wf(&self)
        requires
            self.wf(),
        ensures
            roots_wf(self@),
            self.spec_n_unions() + num_classes(self@) == self@.len(),
    {
        lemma_roots_wf(self.parents@);
        lemma_count_self_is_fixed(self.parents@, self.parents@.len() as int);
    }

    /// An empty structure.
    pub fn new() -> (uf: Self)
        ensures
            uf.wf(),
            uf@ == Seq::<int>::empty(),
            uf.spec_n_unions() == 0,
    {
        let uf = UnionFind { parents: Vec::new(), n_unions: 0 };
        assert(uf@ =~= Seq::<int>::empty());
        uf
    }

    /// The number of identifiers handed out.
    pub fn len(&self) -> (n: usize)
        ensures
            n == self@.len(),
    {
        self.parents.len()
    }

    /// The number of merges that joined two different classes.
    pub fn n_unions(&self) -> (n: usize)
        ensures
            n == self.spec_n_unions(),
    {
        self.n_unions
    }

    /// Allocates a fresh class with one member.
    pub fn make_set(&mut self) -> (id: Id)
        requires
            old(self).wf(),
        ensures
            final(self).wf(),
            id.0 == old(self)@.len(),
            final(self)@ == roots_make_set(old(self)@),
            final(self).spec_n_unions() == old(self).spec_n_unions(),
    {
        let id = Id(self.parents.len());
        let ghost p = self.parents@;
        self.parents.push(id.0);
        proof {
            let q = self.parents@;
            assert(q == p.push(id.0));
            assert forall|i: int| 0 <= i < q.len() implies root_of(q, i) == if i < p.len() {
                root_of(p, i)
            } else {
                i
            } by {
                lemma_push_keeps_roots(p, id.0, i);
            }
            assert(self@ =~= roots_make_set(old(self)@));
            lemma_count_self_push(p, id.0, p.len() as int);
        }
        id
    }

    /// The representative of the class of `id`.
    pub fn find(&self, id: Id) -> (r: Id)
        requires
            self.wf(),
            self.contains(id),
        ensures
            r.0 == self@[id.0 as int],
            self.contains(r),
    {
        let mut cur: usize = id.0;
        proof {
            lemma_root_props(self.parents@, id.0 as int);
        }
        while self.parents[cur] != cur
            invariant
                parents_wf(self.parents@),
                cur < self.parents@.len(),
                root_of(self.parents@, cur as int) == root_of(self.parents@, id.0 as int),
            decreases cur,
        {
            cur = self.parents[cur];
        }
        Id(cur)
    }

    /// The representative of the class of `id`; shortens the paths that it
    /// walks. No class changes.
    pub fn find_mut(&mut self, id: Id) -> (r: Id)
        requires
            old(self).wf(),
            old(self).contains(id),
        ensures
            final(self).wf(),
            final(self)@ == old(self)@,
            final(self).spec_n_unions() == old(self).spec_n_unions(),
            r.0 == old(self)@[id.0 as int],
            final(self).contains(r),
    {
        let root = self.find(id);
        let mut cur: usize = id.0;
        proof {
            lemma_root_props(self.parents@, id.0 as int);
        }
        while self.parents[cur] != cur
            invariant
                self.wf(),
                self@ == old(self)@,
                self.n_unions == old(self).n_unions,
                cur < self.parents@.len(),
                root.0 == root_of(self.parents@, cur as int),
            decreases cur,
        {
            let next = self.parents[cur];
            let ghost p = self.parents@;
            proof {
                lemma_root_props(p, cur as int);
                assert(root.0 == root_of(p, cur as int) as usize);
                assert forall|i: int| 0 <= i < p.len() implies root_of(
                    p.update(cur as int, root.0),
                    i,
                ) == root_of(p, i) by {
                    lemma_update_keeps_roots(p, cur as int, i);
                }
                lemma_update_keeps_roots(p, cur as int, cur as int);
                lemma_count_self_update(p, cur as int, root.0, p.len() as int);
                assert(root_of(p, next as int) == root_of(p, cur as int));
            }
            self.parents.set(cur, root.0);
            assert(self@ =~= old(self)@);
            assert(root_of(self.parents@, next as int) == root_of(p, next as int));
            cur = next;
        }
        root
    }

    /// Merges the classes of `a` and `b` and returns the representative of
    /// the merged class, which is the smaller of the two representatives.
    /// The merge is counted where the classes differed.
    pub fn union(&mut self, a: Id, b: Id) -> (r: Id)
        requires
            old(self).wf(),
            old(self).contains(a),
            old(self).contains(b),
        ensures
            final(self).wf(),
            final(self)@ == roots_union(old(self)@, a.0 as int, b.0 as int),
            r.0 == merged_root(old(self)@, a.0 as int, b.0 as int),
            final(self).contains(r),
            final(self).spec_n_unions() == old(self).spec_n_unions() + if old(self)@[a.0 as int]
                == old(self)@[b.0 as int] {
                0nat
            } else {
                1nat
            },
    {
        let ra = self.find_mut(a);
        let rb = self.find_mut(b);
        if ra.0 == rb.0 {
            proof {
                self.lemma_wf();
                lemma_union_classes(self@, a.0 as int, b.0 as int);
            }
            return ra;
        }
        let (small, big) = if ra.0 < rb.0 {
            (ra.0, rb.0)
        } else {
            (rb.0, ra.0)
        };
        let ghost p = self.parents@;
        let n = self.parents.len();
        proof {
            lemma_root_props(p, a.0 as int);
            lemma_root_props(p, b.0 as int);
            assert forall|i: int| 0 <= i < p.len() implies root_of(
                p.update(big as int, small),
                i,
            ) == if root_of(p, i) == big {
                small as int
            } else {
                root_of(p, i)
            } by {
                lemma_link(p, big as int, small as int, i);
            }
            lemma_link(p, big as int, small as int, 0);
            lemma_count_self_update(p, big as int, small, p.len() as int);
            lemma_count_self_is_fixed(p, p.len() as int);
            lemma_count_fixed_bound(roots_of(p), p.len() as int);
            assert(self.n_unions < n);
        }
        self.parents.set(big, small);
        self.n_unions = self.n_unions + 1;
        assert(self@ =~= roots_union(old(self)@, a.0 as int, b.0 as int));
        Id(small)
    }

    /// The representative of a value: see [`canon_value`].
    pub fn find_value(&self, v: Value) -> (r: Value)
        requires
            self.wf(),
        ensures
            r == canon_value(self@, v),
    {
        match v {
            Value::Id(id) => {
                if id.0 < self.parents.len() {
                    Value::Id(self.find(id))
                } else {
                    v
                }
            },
            _ => v,
        }
    }

    /// The representative of a value; shortens the paths that it walks.
    pub fn find_mut_value(&mut self, v: Value) -> (r: Value)
        requires
            old(self).wf(),
        ensures
            final(self).wf(),
            final(self)@ == old(self)@,
            final(self).spec_n_unions() == old(self).spec_n_unions(),
            r == canon_value(old(self)@, v),
    {
        match v {
            Value::Id(id) => {
                if id.0 < self.parents.len() {
                    Value::Id(self.find_mut(id))
                } else {
                    v
                }
            },
            _ => v,
        }
    }

    /// Merges the classes of two values. Only class identifiers that the
    /// structure has handed out can be merged: for anything else nothing is
    /// returned and nothing changes.
    pub fn union_values(&mut self, a: Value, b: Value) -> (r: Option<Value>)
        requires
            old(self).wf(),
        ensures
            final(self).wf(),
            match r {
                Some(v) => {
                    &&& is_known_class(old(self)@, a)
                    &&& is_known_class(old(self)@, b)
                    &&& final(self)@ == roots_union(
                        old(self)@,
                        a->Id_0.0 as int,
                        b->Id_0.0 as int,
                    )
                    &&& v == Value::Id(
                        Id(merged_root(old(self)@, a->Id_0.0 as int, b->Id_0.0 as int) as usize),
                    )
                    &&& final(self).spec_n_unions() == old(self).spec_n_unions() + if old(
                        self,
                    )@[a->Id_0.0 as int] == old(self)@[b->Id_0.0 as int] {
                        0nat
                    } else {
                        1nat
                    }
                },
                None => {
                    &&& !(is_known_class(old(self)@, a) && is_known_class(old(self)@, b))
                    &&& final(self)@ == old(self)@
                    &&& final(self).spec_n_unions() == old(self).spec_n_unions()
                },
            },
    {
        match (a, b) {
            (Value::Id(x), Value::Id(y)) => {
                if x.0 < self.parents.len() && y.0 < self.parents.len() {
                    let r = self.union(x, y);
                    Some(Value::Id(r))
                } else {
                    None
                }
            },
            _ => None,
        }
    }
}

proof fn lemma_push_keeps_roots(p: Seq<usize>, v: usize, i: int)
    requires
        0 <= i <= p.len(),
        v == p.len(),
    ensures
        root_of(p.push(v), i) == if i < p.len() {
            root_of(p, i)
        } else {
            i
        },
    decreases i,
{
    let q = p.push(v);
    if i < p.len() {
        assert(q[i] == p[i]);
        if p[i] < i {
            lemma_push_keeps_roots(p, v, p[i] as int);
        }
    }
}

} // verus!
