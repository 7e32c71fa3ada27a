//! Values, class identifiers and types.

use crate::symbol::Symbol;
use vstd::prelude::*;

verus! {

/// The identifier of an equivalence class: a dense index handed out by the
/// union-find.
#[derive(Clone, Copy, Debug, PartialEq, Eq, Structural, Hash)]
pub struct Id(pub usize);

/// The handle of an interned rational number.
#[derive(Clone, Copy, Debug, PartialEq, Eq, Structural, Hash)]
pub struct RatId(pub usize);

/// A scalar. Two values are equal when tag and payload are; class
/// identifiers compare by raw id, not by representative.
#[derive(Clone, Copy, Debug, PartialEq, Eq, Structural, Hash)]
pub enum Value {
    Unit,
    Int(i64),
    Rational(RatId),
    Id(Id),
}

/// The two kinds of number.
#[derive(Clone, Copy, Debug, PartialEq, Eq, Structural, Hash)]
pub enum NumType {
    I64,
    Rational,
}

/// The type of a value or of a position in a schema.
#[derive(Clone, Copy, Debug, PartialEq, Eq, Structural, Hash)]
pub enum Type {
    Unit,
    Sort(Symbol),
    NumType(NumType),
}

impl Type {
    /// Whether the type is a sort.
    pub open spec fn spec_is_sort(&self) -> bool {
        self is Sort
    }

    /// Whether the type is a sort.
    #[verifier::when_used_as_spec(spec_is_sort)]
    pub fn is_sort(&self) -> (b: bool)
        ensures
            b == self.spec_is_sort(),
    {
        match self {
            Type::Sort(_) => true,
            _ => false,
        }
    }
}

/// What a value can tell of its own type: a class identifier does not know
/// its sort.
#[derive(Clone, Copy, Debug, PartialEq, Eq, Structural, Hash)]
pub enum Kind {
    Unit,
    Num(NumType),
    Class,
}

impl Value {
    /// The kind of the value, read off its tag.
    pub open spec fn spec_kind(&self) -> Kind {
        match self {
            Value::Unit => Kind::Unit,
            Value::Int(_) => Kind::Num(NumType::I64),
            Value::Rational(_) => Kind::Num(NumType::Rational),
            Value::Id(_) => Kind::Class,
        }
    }

    /// The kind of the value, read off its tag.
    #[verifier::when_used_as_spec(spec_kind)]
    pub fn kind(&self) -> (k: Kind)
        ensures
            k == self.spec_kind(),
    {
        match self {
            Value::Unit => Kind::Unit,
            Value::Int(_) => Kind::Num(NumType::I64),
            Value::Rational(_) => Kind::Num(NumType::Rational),
            Value::Id(_) => Kind::Class,
        }
    }

    /// Whether a value of this tag may stand at a position of type `ty`.
    pub open spec fn spec_fits(&self, ty: Type) -> bool {
        match ty {
            Type::Unit => self is Unit,
            Type::Sort(_) => self is Id,
            Type::NumType(n) => self.spec_kind() == Kind::Num(n),
        }
    }

    /// Whether a value of this tag may stand at a position of type `ty`.
    #[verifier::when_used_as_spec(spec_fits)]
    pub fn fits(&self, ty: Type) -> (b: bool)
        ensures
            b == self.spec_fits(ty),
    {
        match ty {
            Type::Unit => matches!(self, Value::Unit),
            Type::Sort(_) => matches!(self, Value::Id(_)),
            Type::NumType(n) => self.kind() == Kind::Num(n),
        }
    }
}

/// Whether two lists of values are equal, position by position.
pub fn values_equal(a: &Vec<Value>, b: &Vec<Value>) -> (r: bool)
    ensures
        r == (a@ == b@),
{
    if a.len() != b.len() {
        return false;
    }
    let mut i: usize = 0;
    while i < a.len()
        invariant
            i <= a.len(),
            a.len() == b.len(),
            forall|k: int| 0 <= k < i ==> a@[k] == b@[k],
        decreases a.len() - i,
    {
        if a[i] != b[i] {
            return false;
        }
        i += 1;
    }
    assert(a@ =~= b@);
    true
}

} // verus!
