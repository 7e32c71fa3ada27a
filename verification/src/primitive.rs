//! The fixed set of numeric primitives, and their index by name.

use crate::rational::{
    rat_difference, rat_le, rat_product, rat_sum, pool_handle, pool_with, RationalPool,
};
use crate::eval::{count_matches, lemma_count_none, prim_matches};
use crate::index::{
    index_contents, index_get, index_insert, index_new, index_remove, name_key, HashIndex,
};
use crate::symbol::Symbol;
use crate::value::{Kind, NumType, RatId, Value};
use vstd::prelude::*;

verus! {

/// What a primitive computes.
#[derive(Clone, Copy, Debug, PartialEq, Eq, Structural)]
pub enum PrimOp {
    Add,
    Sub,
    Mul,
    Max,
    Min,
}

/// One implementation of a primitive operator: the types it takes, the
/// type it gives, and what it computes.
#[derive(Clone, Debug)]
pub struct Primitive {
    name: Symbol,
    input: Vec<NumType>,
    output: NumType,
    op: PrimOp,
}

/// The result of an operation on two machine integers; sums, differences
/// and products wrap around.
pub open spec fn int_result(op: PrimOp, a: i64, b: i64) -> i64 {
    match op {
        PrimOp::Add => a.wrapping_add(b),
        PrimOp::Sub => a.wrapping_sub(b),
        PrimOp::Mul => a.wrapping_mul(b),
        PrimOp::Max => if a >= b {
            a
        } else {
            b
        },
        PrimOp::Min => if a <= b {
            a
        } else {
            b
        },
    }
}

/// The pool and the handle after an operation on the two rationals with
/// the handles `x` and `y`.
pub open spec fn rational_result(op: PrimOp, pool: Seq<(int, int)>, x: int, y: int) -> (
    Seq<(int, int)>,
    int,
) {
    match op {
        PrimOp::Add => (
            pool_with(pool, rat_sum(pool[x], pool[y])),
            pool_handle(pool, rat_sum(pool[x], pool[y])),
        ),
        PrimOp::Sub => (
            pool_with(pool, rat_difference(pool[x], pool[y])),
            pool_handle(pool, rat_difference(pool[x], pool[y])),
        ),
        PrimOp::Mul => (
            pool_with(pool, rat_product(pool[x], pool[y])),
            pool_handle(pool, rat_product(pool[x], pool[y])),
        ),
        PrimOp::Max => (
            pool,
            if rat_le(pool[x], pool[y]) {
                y
            } else {
                x
            },
        ),
        PrimOp::Min => (
            pool,
            if rat_le(pool[x], pool[y]) {
                x
            } else {
                y
            },
        ),
    }
}

/// The pool and the value that an operation on two values gives. Two
/// integers give an integer, two rationals of the pool a rational; for
/// anything else the operation is not defined.
pub open spec fn prim_result(op: PrimOp, pool: Seq<(int, int)>, vals: Seq<Value>) -> (
    Seq<(int, int)>,
    Value,
) {
    match (vals[0], vals[1]) {
        (Value::Int(a), Value::Int(b)) => (pool, Value::Int(int_result(op, a, b))),
        (Value::Rational(x), Value::Rational(y)) => {
            let (p, h) = rational_result(op, pool, x.0 as int, y.0 as int);
            (p, Value::Rational(RatId(h as usize)))
        },
        _ => (pool, Value::Unit),
    }
}

/// Whether every rational among the values is a handle of the pool.
pub open spec fn handles_known(pool: Seq<(int, int)>, vals: Seq<Value>) -> bool {
    forall|i: int|
        0 <= i < vals.len() ==> ((#[trigger] vals[i]) matches Value::Rational(r) ==> r.0
            < pool.len())
}

impl Primitive {
    /// The operator that the primitive is an implementation of.
    pub closed spec fn spec_name(&self) -> Symbol {
        self.name
    }

    /// The types of the arguments.
    pub closed spec fn spec_input(&self) -> Seq<NumType> {
        self.input@
    }

    /// The type of the result.
    pub closed spec fn spec_output(&self) -> NumType {
        self.output
    }

    /// What the primitive computes.
    pub closed spec fn spec_op(&self) -> PrimOp {
        self.op
    }

    /// A primitive takes two arguments of one type and gives that type.
    pub open spec fn wf(&self) -> bool {
        &&& self.spec_input().len() == 2
        &&& self.spec_input()[0] == self.spec_output()
        &&& self.spec_input()[1] == self.spec_output()
    }

    /// Whether the primitive takes these values: as many as it has
    /// argument types, each of the type at its position.
    pub open spec fn spec_accept(&self, values: Seq<Value>) -> bool {
        &&& values.len() == self.spec_input().len()
        &&& forall|i: int|
            0 <= i < values.len() ==> (#[trigger] values[i]).spec_kind() == Kind::Num(
                self.spec_input()[i],
            )
    }

    /// A binary primitive on numbers of type `ty`.
    pub fn binary(name: Symbol, ty: NumType, op: PrimOp) -> (p: Self)
        ensures
            p.wf(),
            p.spec_name() == name,
            p.spec_input() == seq![ty, ty],
            p.spec_output() == ty,
            p.spec_op() == op,
    {
        let mut input: Vec<NumType> = Vec::new();
        input.push(ty);
        input.push(ty);
        assert(input@ =~= seq![ty, ty]);
        Primitive { name, input, output: ty, op }
    }

    /// The operator that the primitive is an implementation of.
    pub fn name(&self) -> (s: Symbol)
        ensures
            s == self.spec_name(),
    {
        self.name
    }

    /// Whether the primitive takes these values.
    pub fn accept(&self, values: &[Value]) -> (b: bool)
        ensures
            b == self.spec_accept(values@),
    {
        if values.len() != self.input.len() {
            return false;
        }
        let mut i: usize = 0;
        while i < values.len()
            invariant
                i <= values@.len(),
                values@.len() == self.input@.len(),
                forall|k: int|
                    0 <= k < i ==> (#[trigger] values@[k]).spec_kind() == Kind::Num(self.input@[k]),
            decreases values@.len() - i,
        {
            if values[i].kind() != Kind::Num(self.input[i]) {
                return false;
            }
            i += 1;
        }
        true
    }

    /// Applies the primitive to values that it takes. A rational result is
    /// interned in the pool.
    pub fn apply(&self, values: &[Value], pool: &mut RationalPool) -> (v: Value)
        requires
            self.wf(),
            self.spec_accept(values@),
            old(pool).wf(),
            handles_known(old(pool)@, values@),
        ensures
            final(pool).wf(),
            (final(pool)@, v) == prim_result(self.spec_op(), old(pool)@, values@),
            v.spec_kind() == Kind::Num(self.spec_output()),
            handles_known(final(pool)@, seq![v]),
            final(pool)@.len() >= old(pool)@.len(),
            forall|i: int| 0 <= i < old(pool)@.len() ==> final(pool)@[i] == old(pool)@[i],
    {
        let a = values[0];
        let b = values[1];
        assert(values@[0].spec_kind() == Kind::Num(self.input@[0]));
        assert(values@[1].spec_kind() == Kind::Num(self.input@[1]));
        match (a, b) {
            (Value::Int(x), Value::Int(y)) => {
                let r = match self.op {
                    PrimOp::Add => x.wrapping_add(y),
                    PrimOp::Sub => x.wrapping_sub(y),
                    PrimOp::Mul => x.wrapping_mul(y),
                    PrimOp::Max => if x >= y {
                        x
                    } else {
                        y
                    },
                    PrimOp::Min => if x <= y {
                        x
                    } else {
                        y
                    },
                };
                let v = Value::Int(r);
                assert(seq![v][0] == v);
                v
            },
            (Value::Rational(x), Value::Rational(y)) => {
                assert(values@[0] matches Value::Rational(r) ==> r.0 < pool@.len());
                assert(values@[1] matches Value::Rational(r) ==> r.0 < pool@.len());
                let h = match self.op {
                    PrimOp::Add => pool.sum(x, y),
                    PrimOp::Sub => pool.difference(x, y),
                    PrimOp::Mul => pool.product(x, y),
                    PrimOp::Max => if pool.le(x, y) {
                        y
                    } else {
                        x
                    },
                    PrimOp::Min => if pool.le(x, y) {
                        x
                    } else {
                        y
                    },
                };
                let v = Value::Rational(h);
                assert(seq![v][0] == v);
                v
            },
            _ => {
                assert(false);
                Value::Unit
            },
        }
    }
}

/// What the default primitive at position `i` computes: sums, differences,
/// products, maxima and minima, two positions each.
pub open spec fn default_op(i: int) -> PrimOp {
    if i < 2 {
        PrimOp::Add
    } else if i < 4 {
        PrimOp::Sub
    } else if i < 6 {
        PrimOp::Mul
    } else if i < 8 {
        PrimOp::Max
    } else {
        PrimOp::Min
    }
}

/// Whether `prims` are the default primitives: `+`, `-`, `*`, `max` and
/// `min`, in this order, each first on integers and then on rationals.
/// The operator names are the five symbols that follow the reserved
/// variables in every symbol table.
pub open spec fn are_default(prims: Seq<Primitive>) -> bool {
    &&& prims.len() == 10
    &&& forall|i: int|
        0 <= i < 10 ==> {
            &&& (#[trigger] prims[i]).wf()
            &&& prims[i].spec_name() == Symbol((3 + i / 2) as usize)
            &&& prims[i].spec_output() == if i % 2 == 0 {
                NumType::I64
            } else {
                NumType::Rational
            }
            &&& prims[i].spec_input() == seq![prims[i].spec_output(), prims[i].spec_output()]
            &&& prims[i].spec_op() == default_op(i)
        }
}

/// Whether the list of positions holds `i`.
pub open spec fn holds_position(b: Seq<usize>, i: int) -> bool {
    exists|m: int| 0 <= m < b.len() && #[trigger] b[m] == i
}

/// Whether every primitive of the list is listed under the key of its name.
pub open spec fn all_listed(list: Seq<Primitive>, c: Map<u64, Seq<usize>>, n: int) -> bool {
    forall|k: int|
        0 <= k < n ==> c.contains_key(name_key((#[trigger] list[k]).spec_name()))
            && holds_position(c[name_key(list[k].spec_name())], k)
}

/// Where no primitive matches, none is counted.
pub proof fn lemma_none_counted(prims: Seq<Primitive>, op: Symbol, vals: Seq<Value>, n: int)
    requires
        forall|k: int| 0 <= k < n ==> !prim_matches(prims, op, vals, k),
    ensures
        count_matches(prims, op, vals, n) == 0,
    decreases n,
{
    if n > 0 {
        lemma_none_counted(prims, op, vals, n - 1);
    }
}

/// Where only the primitive at `p` matches, one is counted.
pub proof fn lemma_one_counted(prims: Seq<Primitive>, op: Symbol, vals: Seq<Value>, n: int, p: int)
    requires
        0 <= p < n,
        prim_matches(prims, op, vals, p),
        forall|k: int| 0 <= k < n && k != p ==> !prim_matches(prims, op, vals, k),
    ensures
        count_matches(prims, op, vals, n) == 1,
    decreases n,
{
    if p == n - 1 {
        lemma_none_counted(prims, op, vals, n - 1);
    } else {
        lemma_one_counted(prims, op, vals, n - 1, p);
    }
}

/// Where two primitives match, more than one is counted.
pub proof fn lemma_two_counted(
    prims: Seq<Primitive>,
    op: Symbol,
    vals: Seq<Value>,
    n: int,
    p: int,
    q: int,
)
    requires
        0 <= p < q < n,
        prim_matches(prims, op, vals, p),
        prim_matches(prims, op, vals, q),
    ensures
        count_matches(prims, op, vals, n) > 1,
    decreases n,
{
    if q == n - 1 {
        if count_matches(prims, op, vals, n - 1) == 0 {
            lemma_count_none(prims, op, vals, n - 1, p);
        }
    } else {
        lemma_two_counted(prims, op, vals, n - 1, p, q);
    }
}

/// The primitives of a graph: a list, and a hash index from the name of
/// an operator to the positions of its implementations.
pub struct Primitives {
    list: Vec<Primitive>,
    by_name: HashIndex,
}

impl Primitives {
    /// The primitives, in their order.
    pub closed spec fn view(&self) -> Seq<Primitive> {
        self.list@
    }

    /// The invariant of the index: every primitive is listed under its
    /// name.
    pub closed spec fn indexed(&self) -> bool {
        all_listed(self.list@, index_contents(self.by_name), self.list@.len() as int)
    }

    /// The primitives of a list, indexed by their names.
    pub fn from_list(list: Vec<Primitive>) -> (p: Self)
        ensures
            p@ == list@,
            p.indexed(),
    {
        let mut by_name = index_new();
        let mut k: usize = 0;
        while k < list.len()
            invariant
                k <= list@.len(),
                all_listed(list@, index_contents(by_name), k as int),
            decreases list@.len() - k,
        {
            let key = list[k].name().0 as u64;
            let ghost before = index_contents(by_name);
            let mut entry = match index_remove(&mut by_name, key) {
                Some(e) => e,
                None => Vec::new(),
            };
            let ghost had = entry@;
            entry.push(k);
            let ghost now = entry@;
            let _ = index_insert(&mut by_name, key, entry);
            proof {
                let c = index_contents(by_name);
                assert(c == before.remove(key).insert(key, now));
                assert(now[had.len() as int] == k);
                assert(holds_position(now, k as int));
                assert forall|j: int| 0 <= j < k + 1 implies c.contains_key(
                    name_key((#[trigger] list@[j]).spec_name()),
                ) && holds_position(c[name_key(list@[j].spec_name())], j) by {
                    if j < k {
                        let kj = name_key(list@[j].spec_name());
                        assert(before.contains_key(kj) && holds_position(before[kj], j));
                        if kj == key {
                            let m = choose|m: int| 0 <= m < had.len() && #[trigger] had[m] == j;
                            assert(now[m] == j);
                        }
                    }
                }
            }
            k += 1;
        }
        Primitives { list, by_name }
    }

    /// How many primitives there are.
    pub fn len(&self) -> (n: usize)
        ensures
            n == self@.len(),
    {
        self.list.len()
    }

    /// The primitive at position `i`.
    pub fn get(&self, i: usize) -> (p: &Primitive)
        requires
            i < self@.len(),
        ensures
            *p == self@[i as int],
    {
        &self.list[i]
    }

    /// Looks for the implementations of `op` that take the values, among
    /// those that the index lists under the name. Returns how many there
    /// are, counting no further than two, and the position of one of them.
    pub fn select(&self, op: Symbol, vals: &Vec<Value>) -> (r: (usize, usize))
        requires
            self.indexed(),
        ensures
            r.0 <= 2,
            r.0 == 0 <==> count_matches(self@, op, vals@, self@.len() as int) == 0,
            r.0 == 1 <==> count_matches(self@, op, vals@, self@.len() as int) == 1,
            r.0 >= 1 ==> r.1 < self@.len() && prim_matches(self@, op, vals@, r.1 as int),
    {
        let ghost n = self.list@.len() as int;
        let ghost c = index_contents(self.by_name);
        let mut hits: usize = 0;
        let mut found: usize = 0;
        let mut other: usize = 0;
        match index_get(&self.by_name, op.0 as u64) {
            None => {
                proof {
                    assert forall|k: int| 0 <= k < n implies !prim_matches(self@, op, vals@, k) by {
                        assert(c.contains_key(name_key(self.list@[k].spec_name())));
                    }
                }
            },
            Some(entry) => {
                let mut j: usize = 0;
                while j < entry.len()
                    invariant
                        j <= entry@.len(),
                        n == self.list@.len(),
                        hits <= 2,
                        hits == 0 ==> forall|m: int|
                            0 <= m < j && entry@[m] < n ==> !prim_matches(
                                self@,
                                op,
                                vals@,
                                #[trigger] entry@[m] as int,
                            ),
                        hits >= 1 ==> found < n && prim_matches(self@, op, vals@, found as int),
                        hits == 1 ==> forall|m: int|
                            0 <= m < j && entry@[m] < n && prim_matches(
                                self@,
                                op,
                                vals@,
                                #[trigger] entry@[m] as int,
                            ) ==> entry@[m] == found,
                        hits == 2 ==> other < n && other != found && prim_matches(
                            self@,
                            op,
                            vals@,
                            other as int,
                        ),
                    decreases entry@.len() - j,
                {
                    let k = entry[j];
                    if k < self.list.len() {
                        if self.list[k].name() == op && self.list[k].accept(vals.as_slice()) {
                            if hits == 0 {
                                hits = 1;
                                found = k;
                            } else if hits == 1 && k != found {
                                hits = 2;
                                other = k;
                            }
                        }
                    }
                    j += 1;
                }
                proof {
                    assert forall|k: int| 0 <= k < n && prim_matches(
                        self@,
                        op,
                        vals@,
                        k,
                    ) implies hits >= 1 && (hits == 1 ==> k == found) by {
                        assert(c.contains_key(name_key(self.list@[k].spec_name())));
                        assert(holds_position(entry@, k));
                        let m = choose|m: int| 0 <= m < entry@.len() && #[trigger] entry@[m] == k;
                        assert(entry@[m] as int == k);
                    }
                }
            },
        }
        proof {
            if hits == 0 {
                lemma_none_counted(self@, op, vals@, n);
            } else if hits == 1 {
                lemma_one_counted(self@, op, vals@, n, found as int);
            } else if found < other {
                lemma_two_counted(self@, op, vals@, n, found as int, other as int);
            } else {
                lemma_two_counted(self@, op, vals@, n, other as int, found as int);
            }
        }
        (hits, found)
    }
}

/// The primitives that every graph has; see [`are_default`].
pub fn default_primitives() -> (prims: Primitives)
    ensures
        are_default(prims@),
        prims.indexed(),
{
    let mut prims: Vec<Primitive> = Vec::new();
    prims.push(Primitive::binary(Symbol(3), NumType::I64, PrimOp::Add));
    prims.push(Primitive::binary(Symbol(3), NumType::Rational, PrimOp::Add));
    prims.push(Primitive::binary(Symbol(4), NumType::I64, PrimOp::Sub));
    prims.push(Primitive::binary(Symbol(4), NumType::Rational, PrimOp::Sub));
    prims.push(Primitive::binary(Symbol(5), NumType::I64, PrimOp::Mul));
    prims.push(Primitive::binary(Symbol(5), NumType::Rational, PrimOp::Mul));
    prims.push(Primitive::binary(Symbol(6), NumType::I64, PrimOp::Max));
    prims.push(Primitive::binary(Symbol(6), NumType::Rational, PrimOp::Max));
    prims.push(Primitive::binary(Symbol(7), NumType::I64, PrimOp::Min));
    prims.push(Primitive::binary(Symbol(7), NumType::Rational, PrimOp::Min));
    Primitives::from_list(prims)
}

} // verus!
