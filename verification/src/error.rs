//! The ways in which a command can fail.

use crate::ast::{same_expr, Expr};
use crate::symbol::Symbol;
use crate::value::{Id, Value};
use vstd::prelude::*;

verus! {

/// An expression that names nothing: an unbound variable, an unknown
/// operator, a primitive that takes no such arguments, or an absent row of
/// a function that cannot make one.
#[derive(Clone, Debug, PartialEq, Eq)]
pub struct NotFoundError(pub Expr);

/// A declaration or a rule that does not fit the declared schemas.
#[derive(Clone, Copy, Debug, PartialEq, Eq, Structural)]
pub enum TypeError {
    /// A schema names a sort that was not declared.
    UndefinedSort(Symbol),
    /// A function of this name exists already.
    FunctionAlreadyBound(Symbol),
    /// An atom names no declared function.
    Unbound(Symbol),
    /// An atom of this function has the wrong number of arguments.
    Arity(Symbol),
    /// A value or a variable stands where the schemas ask for another type.
    Mismatch,
    /// No atom mentions the variable of this index, so it has no type.
    Untyped(usize),
    /// A row of this function was set twice, and the function has neither a
    /// merge expression nor an output that can be merged without one.
    NoMerge(Symbol),
    /// A row of this numeric function is absent, and the function declares
    /// no default to make it from.
    NoDefault(Symbol),
    /// The merge expression or the default of this function gave a value
    /// that is not of its output type.
    BadOutput(Symbol),
}

/// Everything that can go wrong.
#[derive(Clone, Debug, PartialEq, Eq)]
pub enum Error {
    NotFound(NotFoundError),
    Type(TypeError),
    TypeErrors(Vec<TypeError>),
    CheckFailed(Value, Value),
    SortAlreadyBound(Symbol),
    PrimitiveAmbiguity(Symbol),
    Unextractable(Id),
    UserPanic(String),
    InconsistentQuery,
    AlreadyDefined(Symbol),
    IllegalFact,
    /// A rule of this name exists already.
    RuleAlreadyBound(Symbol),
    /// Both sides of a rewrite use variables up to the largest intern id
    /// there is, so no variable is left for the rewrite itself.
    NoFreshVariable,
}

/// Whether the error `a` is a copy of the error `b`: of the same kind with
/// the same payload; expressions are compared by shape and leaves, lists
/// and texts by their contents.
pub open spec fn same_error(a: Error, b: Error) -> bool {
    match (a, b) {
        (Error::NotFound(x), Error::NotFound(y)) => same_expr(y.0, x.0),
        (Error::Type(x), Error::Type(y)) => x == y,
        (Error::TypeErrors(x), Error::TypeErrors(y)) => x@ == y@,
        (Error::CheckFailed(p, q), Error::CheckFailed(r, s)) => p == r && q == s,
        (Error::SortAlreadyBound(x), Error::SortAlreadyBound(y)) => x == y,
        (Error::PrimitiveAmbiguity(x), Error::PrimitiveAmbiguity(y)) => x == y,
        (Error::Unextractable(x), Error::Unextractable(y)) => x == y,
        (Error::UserPanic(x), Error::UserPanic(y)) => x@ == y@,
        (Error::InconsistentQuery, Error::InconsistentQuery) => true,
        (Error::AlreadyDefined(x), Error::AlreadyDefined(y)) => x == y,
        (Error::IllegalFact, Error::IllegalFact) => true,
        (Error::RuleAlreadyBound(x), Error::RuleAlreadyBound(y)) => x == y,
        (Error::NoFreshVariable, Error::NoFreshVariable) => true,
        _ => false,
    }
}

/// Whether an error ends a program: a panic that an action asked for, a
/// numeric function whose rows cannot be merged, one that has no default
/// for an absent row, or a merge expression or default whose value is not
/// of the output type. Every other error ends only the command that met
/// it.
pub open spec fn fatal(e: Error) -> bool {
    match e {
        Error::UserPanic(_) => true,
        Error::Type(TypeError::NoMerge(_)) => true,
        Error::Type(TypeError::NoDefault(_)) => true,
        Error::Type(TypeError::BadOutput(_)) => true,
        _ => false,
    }
}

/// Whether an outcome is the one that the model gives: the same value, or
/// the same error.
pub open spec fn same_outcome<T>(got: Result<T, Error>, model: Result<T, Error>) -> bool {
    match (got, model) {
        (Ok(x), Ok(y)) => x == y,
        (Err(x), Err(y)) => same_error(x, y),
        _ => false,
    }
}

/// Whether an error ends a program. See [`fatal`].
pub fn is_fatal(e: &Error) -> (b: bool)
    ensures
        b == fatal(*e),
{
    match e {
        Error::UserPanic(_) => true,
        Error::Type(TypeError::NoMerge(_)) => true,
        Error::Type(TypeError::NoDefault(_)) => true,
        Error::Type(TypeError::BadOutput(_)) => true,
        _ => false,
    }
}

/// The error for an expression that names nothing.
pub fn not_found(e: &Expr) -> (r: Error)
    ensures
        same_error(r, Error::NotFound(NotFoundError(*e))),
{
    Error::NotFound(NotFoundError(e.clone()))
}

} // verus!
