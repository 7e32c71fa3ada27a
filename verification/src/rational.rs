//! Arbitrary-precision rationals, kept in an interning pool so that a value
//! holds a small handle and equal numbers have equal handles.

use crate::value::RatId;
use num_bigint::BigInt;
use num_rational::BigRational;
use vstd::prelude::*;

verus! {

/// The integer that a little-endian two's-complement byte string stands for.
pub open spec fn signed_le(b: Seq<u8>) -> int
    decreases b.len(),
{
    if b.len() == 0 {
        0
    } else if b.len() == 1 {
        if b[0] >= 128 {
            b[0] - 256
        } else {
            b[0] as int
        }
    } else {
        b[0] + 256 * signed_le(b.drop_first())
    }
}

/// Whether `k` divides `n`.
pub open spec fn divides(k: int, n: int) -> bool {
    n % k == 0
}

/// A fraction in lowest terms with a positive denominator.
pub open spec fn reduced(q: (int, int)) -> bool {
    &&& q.1 > 0
    &&& forall|k: int| k > 1 ==> !(#[trigger] divides(k, q.0) && divides(k, q.1))
}

/// Whether the fraction `q` equals `n / d`.
pub open spec fn same_ratio(q: (int, int), n: int, d: int) -> bool {
    q.0 * d == n * q.1
}

/// The fraction `n / d` in lowest terms with a positive denominator.
pub open spec fn normalize(n: int, d: int) -> (int, int) {
    choose|q: (int, int)| reduced(q) && same_ratio(q, n, d)
}

/// The sum of two fractions, in lowest terms.
pub open spec fn rat_sum(a: (int, int), b: (int, int)) -> (int, int) {
    normalize(a.0 * b.1 + b.0 * a.1, a.1 * b.1)
}

/// The difference of two fractions, in lowest terms.
pub open spec fn rat_difference(a: (int, int), b: (int, int)) -> (int, int) {
    normalize(a.0 * b.1 - b.0 * a.1, a.1 * b.1)
}

/// The product of two fractions, in lowest terms.
pub open spec fn rat_product(a: (int, int), b: (int, int)) -> (int, int) {
    normalize(a.0 * b.0, a.1 * b.1)
}

/// Whether `a` is at most `b`, for positive denominators.
pub open spec fn rat_le(a: (int, int), b: (int, int)) -> bool {
    a.0 * b.1 <= b.0 * a.1
}

/// A rational number, held as the byte strings of numerator and denominator.
pub struct Rational {
    numer: Vec<u8>,
    denom: Vec<u8>,
}

impl Rational {
    /// Numerator and denominator.
    pub closed spec fn view(&self) -> (int, int) {
        (signed_le(self.numer@), signed_le(self.denom@))
    }

    /// The number is in lowest terms with a positive denominator.
    pub open spec fn wf(&self) -> bool {
        reduced(self@)
    }

    /// The numerator, as little-endian two's-complement bytes.
    pub fn numer_bytes(&self) -> (b: &Vec<u8>)
        ensures
            signed_le(b@) == self@.0,
    {
        &self.numer
    }

    /// The denominator, as little-endian two's-complement bytes.
    pub fn denom_bytes(&self) -> (b: &Vec<u8>)
        ensures
            signed_le(b@) == self@.1,
    {
        &self.denom
    }
}

/// `num_rational::Ratio::new` on two machine integers: the fraction
/// `n / d` reduced to lowest terms with a positive denominator. The outside
/// function panics on a zero denominator, which `requires` leaves out.
#[verifier::external_body]
fn ratio_new(n: i64, d: i64) -> (r: Rational)
    requires
        d != 0,
    ensures
        r.wf(),
        same_ratio(r@, n as int, d as int),
        r@ == normalize(n as int, d as int),
{
    let z = BigRational::new(BigInt::from(n), BigInt::from(d));
    Rational { numer: z.numer().to_signed_bytes_le(), denom: z.denom().to_signed_bytes_le() }
}

/// `num_rational::Ratio::new` on two integers of any size, each given as
/// the little-endian two's-complement bytes that
/// `num_bigint::BigInt::from_signed_bytes_le` reads: the fraction reduced
/// to lowest terms with a positive denominator. The outside function
/// panics on a zero denominator, which `requires` leaves out.
#[verifier::external_body]
fn ratio_from_bytes(n: &Vec<u8>, d: &Vec<u8>) -> (r: Rational)
    requires
        signed_le(d@) != 0,
    ensures
        r.wf(),
        same_ratio(r@, signed_le(n@), signed_le(d@)),
        r@ == normalize(signed_le(n@), signed_le(d@)),
{
    let z = BigRational::new(BigInt::from_signed_bytes_le(n), BigInt::from_signed_bytes_le(d));
    Rational { numer: z.numer().to_signed_bytes_le(), denom: z.denom().to_signed_bytes_le() }
}

/// A byte string stands for zero exactly where all its bytes are zero.
pub proof fn lemma_signed_le_zero(b: Seq<u8>)
    ensures
        signed_le(b) == 0 <==> forall|i: int| 0 <= i < b.len() ==> b[i] == 0,
    decreases b.len(),
{
    if b.len() >= 2 {
        let rest = b.drop_first();
        lemma_signed_le_zero(rest);
        if signed_le(b) == 0 {
            assert(signed_le(rest) == 0);
            assert forall|i: int| 0 <= i < b.len() implies b[i] == 0 by {
                if i > 0 {
                    assert(rest[i - 1] == b[i]);
                }
            }
        }
        if forall|i: int| 0 <= i < b.len() ==> b[i] == 0 {
            assert forall|i: int| 0 <= i < rest.len() implies rest[i] == 0 by {
                assert(rest[i] == b[i + 1]);
            }
            assert(b[0] == 0);
        }
    } else if b.len() == 1 {
        if forall|i: int| 0 <= i < b.len() ==> b[i] == 0 {
            assert(b[0] == 0);
        }
    }
}

/// Whether a byte string stands for zero.
pub fn bytes_zero(b: &Vec<u8>) -> (z: bool)
    ensures
        z == (signed_le(b@) == 0),
{
    proof {
        lemma_signed_le_zero(b@);
    }
    let mut i: usize = 0;
    while i < b.len()
        invariant
            i <= b@.len(),
            forall|k: int| 0 <= k < i ==> b@[k] == 0,
            signed_le(b@) == 0 <==> forall|k: int| 0 <= k < b@.len() ==> b@[k] == 0,
        decreases b@.len() - i,
    {
        if b[i] != 0 {
            return false;
        }
        i += 1;
    }
    true
}

/// `+` of `num_rational::Ratio`: the sum, which the outside crate returns
/// in lowest terms with a positive denominator.
#[verifier::external_body]
fn ratio_add(a: &Rational, b: &Rational) -> (r: Rational)
    requires
        a.wf(),
        b.wf(),
    ensures
        r.wf(),
        r@ == rat_sum(a@, b@),
{
    let x = BigRational::new_raw(
        BigInt::from_signed_bytes_le(&a.numer),
        BigInt::from_signed_bytes_le(&a.denom),
    );
    let y = BigRational::new_raw(
        BigInt::from_signed_bytes_le(&b.numer),
        BigInt::from_signed_bytes_le(&b.denom),
    );
    let z = x + y;
    Rational { numer: z.numer().to_signed_bytes_le(), denom: z.denom().to_signed_bytes_le() }
}

/// `-` of `num_rational::Ratio`: the difference, in lowest terms with a
/// positive denominator.
#[verifier::external_body]
fn ratio_sub(a: &Rational, b: &Rational) -> (r: Rational)
    requires
        a.wf(),
        b.wf(),
    ensures
        r.wf(),
        r@ == rat_difference(a@, b@),
{
    let x = BigRational::new_raw(
        BigInt::from_signed_bytes_le(&a.numer),
        BigInt::from_signed_bytes_le(&a.denom),
    );
    let y = BigRational::new_raw(
        BigInt::from_signed_bytes_le(&b.numer),
        BigInt::from_signed_bytes_le(&b.denom),
    );
    let z = x - y;
    Rational { numer: z.numer().to_signed_bytes_le(), denom: z.denom().to_signed_bytes_le() }
}

/// `*` of `num_rational::Ratio`: the product, in lowest terms with a
/// positive denominator.
#[verifier::external_body]
fn ratio_mul(a: &Rational, b: &Rational) -> (r: Rational)
    requires
        a.wf(),
        b.wf(),
    ensures
        r.wf(),
        r@ == rat_product(a@, b@),
{
    let x = BigRational::new_raw(
        BigInt::from_signed_bytes_le(&a.numer),
        BigInt::from_signed_bytes_le(&a.denom),
    );
    let y = BigRational::new_raw(
        BigInt::from_signed_bytes_le(&b.numer),
        BigInt::from_signed_bytes_le(&b.denom),
    );
    let z = x * y;
    Rational { numer: z.numer().to_signed_bytes_le(), denom: z.denom().to_signed_bytes_le() }
}

/// `<=` of `num_rational::Ratio`, which orders two fractions with positive
/// denominators as their cross products are ordered.
#[verifier::external_body]
fn ratio_le(a: &Rational, b: &Rational) -> (r: bool)
    requires
        a.wf(),
        b.wf(),
    ensures
        r == rat_le(a@, b@),
{
    let x = BigRational::new_raw(
        BigInt::from_signed_bytes_le(&a.numer),
        BigInt::from_signed_bytes_le(&a.denom),
    );
    let y = BigRational::new_raw(
        BigInt::from_signed_bytes_le(&b.numer),
        BigInt::from_signed_bytes_le(&b.denom),
    );
    x <= y
}

/// `==` of `num_rational::Ratio`: two fractions in lowest terms with
/// positive denominators are equal exactly when numerators and denominators
/// are.
#[verifier::external_body]
fn ratio_eq(a: &Rational, b: &Rational) -> (r: bool)
    requires
        a.wf(),
        b.wf(),
    ensures
        r == (a@ == b@),
{
    let x = BigRational::new_raw(
        BigInt::from_signed_bytes_le(&a.numer),
        BigInt::from_signed_bytes_le(&a.denom),
    );
    let y = BigRational::new_raw(
        BigInt::from_signed_bytes_le(&b.numer),
        BigInt::from_signed_bytes_le(&b.denom),
    );
    x == y
}

/// The position of `q` in `pool`, or the length of `pool` where it does not
/// occur: the handle that interning `q` gives.
pub open spec fn pool_handle(pool: Seq<(int, int)>, q: (int, int)) -> int {
    if pool.contains(q) {
        pool.index_of(q)
    } else {
        pool.len() as int
    }
}

/// The pool after interning `q`.
pub open spec fn pool_with(pool: Seq<(int, int)>, q: (int, int)) -> Seq<(int, int)> {
    if pool.contains(q) {
        pool
    } else {
        pool.push(q)
    }
}

/// An insert-only pool of distinct rationals. A handle is a position in it.
pub struct RationalPool {
    items: Vec<Rational>,
}

impl RationalPool {
    /// The numbers, by handle.
    pub closed spec fn view(&self) -> Seq<(int, int)> {
        Seq::new(self.items@.len(), |i: int| self.items@[i]@)
    }

    /// Every number is in lowest terms and none occurs twice.
    pub closed spec fn wf(&self) -> bool {
        &&& forall|i: int| 0 <= i < self.items@.len() ==> (#[trigger] self.items@[i]).wf()
        &&& forall|i: int, j: int|
            0 <= i < j < self.items@.len() ==> (#[trigger] self.items@[i])@
                != (#[trigger] self.items@[j])@
    }

    /// Whether `id` is a handle of this pool.
    pub open spec fn contains(&self, id: RatId) -> bool {
        id.0 < self@.len()
    }

    /// What well-formedness says of the view.
    pub proof fn lemma_wf(&self)
        requires
            self.wf(),
        ensures
            pool_wf(self@),
    {
        assert forall|i: int| 0 <= i < self@.len() implies reduced(#[trigger] self@[i]) by {
            assert(self.items@[i].wf());
        }
        assert forall|i: int, j: int| 0 <= i < j < self@.len() implies #[trigger] self@[i]
            != #[trigger] self@[j] by {
            assert(self.items@[i]@ != self.items@[j]@);
        }
    }

    /// An empty pool.
    pub fn new() -> (p: Self)
        ensures
            p.wf(),
            p@ == Seq::<(int, int)>::empty(),
    {
        let p = RationalPool { items: Vec::new() };
        assert(p@ =~= Seq::<(int, int)>::empty());
        p
    }

    /// The number of handles.
    pub fn len(&self) -> (n: usize)
        ensures
            n == self@.len(),
    {
        self.items.len()
    }

    fn intern(&mut self, r: Rational) -> (id: RatId)
        requires
            old(self).wf(),
            r.wf(),
        ensures
            final(self).wf(),
            final(self)@ == pool_with(old(self)@, r@),
            id.0 == pool_handle(old(self)@, r@),
            final(self).contains(id),
            final(self)@[id.0 as int] == r@,
    {
        proof {
            self.lemma_wf();
        }
        let mut i: usize = 0;
        while i < self.items.len()
            invariant
                i <= self.items@.len(),
                self.wf(),
                r.wf(),
                forall|k: int| 0 <= k < i ==> self@[k] != r@,
            decreases self.items@.len() - i,
        {
            if ratio_eq(&self.items[i], &r) {
                proof {
                    let s = self@;
                    assert(s[i as int] == r@);
                    assert(s.contains(r@));
                    let j = s.index_of(r@);
                    self.lemma_wf();
                    if j != i as int {
                        if j < i as int {
                            assert(s[j] != s[i as int]);
                        } else {
                            assert(s[i as int] != s[j]);
                        }
                    }
                }
                return RatId(i);
            }
            i += 1;
        }
        let id = RatId(self.items.len());
        assert(!self@.contains(r@));
        let ghost before = self.items@;
        assert forall|k: int| 0 <= k < before.len() implies (#[trigger] before[k])@ != r@ by {
            assert(self@[k] == before[k]@);
        }
        self.items.push(r);
        assert(self@ =~= old(self)@.push(r@));
        assert forall|i: int, j: int| 0 <= i < j < self.items@.len() implies (#[trigger] self.items@[i])@
            != (#[trigger] self.items@[j])@ by {
            if j < before.len() {
                assert(before[i]@ != before[j]@);
            } else {
                assert(before[i]@ != r@);
            }
        }
        id
    }

    /// Interns `n / d`. A zero denominator gives nothing and leaves the
    /// pool as it was.
    pub fn make(&mut self, n: i64, d: i64) -> (r: Option<RatId>)
        requires
            old(self).wf(),
        ensures
            final(self).wf(),
            match r {
                None => d == 0 && final(self)@ == old(self)@,
                Some(id) => {
                    &&& d != 0
                    &&& final(self)@ == pool_with(old(self)@, normalize(n as int, d as int))
                    &&& id.0 == pool_handle(old(self)@, normalize(n as int, d as int))
                    &&& final(self).contains(id)
                    &&& same_ratio(final(self)@[id.0 as int], n as int, d as int)
                },
            },
    {
        if d == 0 {
            None
        } else {
            let q = ratio_new(n, d);
            Some(self.intern(q))
        }
    }

    /// Interns `n / d`, each an integer of any size given as little-endian
    /// two's-complement bytes. A zero denominator gives nothing and leaves
    /// the pool as it was.
    pub fn make_wide(&mut self, n: &Vec<u8>, d: &Vec<u8>) -> (r: Option<RatId>)
        requires
            old(self).wf(),
        ensures
            final(self).wf(),
            match r {
                None => signed_le(d@) == 0 && final(self)@ == old(self)@,
                Some(id) => {
                    &&& signed_le(d@) != 0
                    &&& final(self)@ == pool_with(
                        old(self)@,
                        normalize(signed_le(n@), signed_le(d@)),
                    )
                    &&& id.0 == pool_handle(old(self)@, normalize(signed_le(n@), signed_le(d@)))
                    &&& final(self).contains(id)
                    &&& same_ratio(final(self)@[id.0 as int], signed_le(n@), signed_le(d@))
                },
            },
    {
        if bytes_zero(d) {
            None
        } else {
            let q = ratio_from_bytes(n, d);
            Some(self.intern(q))
        }
    }

    /// The number of a handle.
    pub fn number(&self, id: RatId) -> (q: &Rational)
        requires
            self.contains(id),
        ensures
            q@ == self@[id.0 as int],
    {
        &self.items[id.0]
    }

    /// Interns the sum of two numbers of the pool.
    pub fn sum(&mut self, a: RatId, b: RatId) -> (r: RatId)
        requires
            old(self).wf(),
            old(self).contains(a),
            old(self).contains(b),
        ensures
            final(self).wf(),
            final(self)@ == pool_with(old(self)@, rat_sum(old(self)@[a.0 as int], old(self)@[b.0 as int])),
            r.0 == pool_handle(old(self)@, rat_sum(old(self)@[a.0 as int], old(self)@[b.0 as int])),
    {
        let q = ratio_add(&self.items[a.0], &self.items[b.0]);
        self.intern(q)
    }

    /// Interns the difference of two numbers of the pool.
    pub fn difference(&mut self, a: RatId, b: RatId) -> (r: RatId)
        requires
            old(self).wf(),
            old(self).contains(a),
            old(self).contains(b),
        ensures
            final(self).wf(),
            final(self)@ == pool_with(
                old(self)@,
                rat_difference(old(self)@[a.0 as int], old(self)@[b.0 as int]),
            ),
            r.0 == pool_handle(
                old(self)@,
                rat_difference(old(self)@[a.0 as int], old(self)@[b.0 as int]),
            ),
    {
        let q = ratio_sub(&self.items[a.0], &self.items[b.0]);
        self.intern(q)
    }

    /// Interns the product of two numbers of the pool.
    pub fn product(&mut self, a: RatId, b: RatId) -> (r: RatId)
        requires
            old(self).wf(),
            old(self).contains(a),
            old(self).contains(b),
        ensures
            final(self).wf(),
            final(self)@ == pool_with(
                old(self)@,
                rat_product(old(self)@[a.0 as int], old(self)@[b.0 as int]),
            ),
            r.0 == pool_handle(
                old(self)@,
                rat_product(old(self)@[a.0 as int], old(self)@[b.0 as int]),
            ),
    {
        let q = ratio_mul(&self.items[a.0], &self.items[b.0]);
        self.intern(q)
    }

    /// Whether the number of `a` is at most that of `b`.
    pub fn le(&self, a: RatId, b: RatId) -> (r: bool)
        requires
            self.wf(),
            self.contains(a),
            self.contains(b),
        ensures
            r == rat_le(self@[a.0 as int], self@[b.0 as int]),
    {
        ratio_le(&self.items[a.0], &self.items[b.0])
    }
}

/// Every number of the pool is in lowest terms and none occurs twice.
pub open spec fn pool_wf(pool: Seq<(int, int)>) -> bool {
    &&& forall|i: int| 0 <= i < pool.len() ==> reduced(#[trigger] pool[i])
    &&& forall|i: int, j: int| 0 <= i < j < pool.len() ==> #[trigger] pool[i] != #[trigger] pool[j]
}

} // verus!
