//! An equality-saturation engine: function tables over equivalence classes,
//! congruence repair, conjunctive queries, rewrite rules and extraction.

pub mod action;
pub mod ast;
pub mod egraph;
pub mod error;
pub mod eval;
pub mod extract;
pub mod function;
pub mod gj;
pub mod index;
pub mod laws;
pub mod merge;
pub mod model;
pub mod primitive;
pub mod program;
pub mod query;
pub mod rational;
pub mod rebuild;
pub mod rules;
pub mod state;
pub mod subst;
pub mod symbol;
pub mod typecheck;
pub mod unionfind;
pub mod value;

pub use ast::{
    Action, Command, Expr, Fact, FunctionDecl, Literal, Rewrite, Rule, Schema, Variant,
};
pub use egraph::EGraph;
pub use error::{Error, NotFoundError, TypeError};
pub use function::Function;
pub use primitive::{PrimOp, Primitive, Primitives};
pub use program::Report;
pub use query::{Atom, AtomTerm, Query};
pub use subst::Subst;
pub use symbol::{Symbol, SymbolTable};
pub use unionfind::UnionFind;
pub use value::{Id, Kind, NumType, RatId, Type, Value};
