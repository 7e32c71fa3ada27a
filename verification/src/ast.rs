//! The command language: expressions, facts, actions and declarations.

use crate::symbol::Symbol;
use crate::value::{RatId, Type, Value};
use vstd::prelude::*;

verus! {

/// A constant of the language.
#[derive(Clone, Copy, Debug, PartialEq, Eq, Structural, Hash)]
pub enum Literal {
    Int(i64),
    Rational(RatId),
    Unit,
}

impl Literal {
    /// The value of the literal: integers give `Int`, rationals `Rational`,
    /// the unit literal `Unit`.
    pub open spec fn spec_to_value(&self) -> Value {
        match self {
            Literal::Int(i) => Value::Int(*i),
            Literal::Rational(r) => Value::Rational(*r),
            Literal::Unit => Value::Unit,
        }
    }

    /// The value of the literal.
    #[verifier::when_used_as_spec(spec_to_value)]
    pub fn to_value(&self) -> (v: Value)
        ensures
            v == self.spec_to_value(),
    {
        match self {
            Literal::Int(i) => Value::Int(*i),
            Literal::Rational(r) => Value::Rational(*r),
            Literal::Unit => Value::Unit,
        }
    }
}

/// An expression: a literal, a variable, or an operator applied to
/// arguments.
#[derive(Debug, PartialEq, Eq, Hash)]
pub enum Expr {
    Lit(Literal),
    Var(Symbol),
    Call(Symbol, Vec<Expr>),
}

/// Whether two expressions have the same shape and the same leaves.
pub open spec fn same_expr(a: Expr, b: Expr) -> bool
    decreases a,
{
    match (a, b) {
        (Expr::Lit(x), Expr::Lit(y)) => x == y,
        (Expr::Var(x), Expr::Var(y)) => x == y,
        (Expr::Call(f, xs), Expr::Call(g, ys)) => {
            &&& f == g
            &&& xs@.len() == ys@.len()
            &&& forall|i: int| 0 <= i < xs@.len() ==> same_expr(#[trigger] xs@[i], ys@[i])
        },
        _ => false,
    }
}

impl Clone for Expr {
    /// A copy with the same shape and the same leaves.
    fn clone(&self) -> (r: Self)
        ensures
            same_expr(*self, r),
        decreases self,
    {
        match self {
            Expr::Lit(l) => Expr::Lit(*l),
            Expr::Var(v) => Expr::Var(*v),
            Expr::Call(f, args) => {
                let mut out: Vec<Expr> = Vec::new();
                let mut i: usize = 0;
                while i < args.len()
                    invariant
                        i <= args.len(),
                        out@.len() == i,
                        *self matches Expr::Call(_, a) && a == *args,
                        forall|k: int| 0 <= k < i ==> same_expr(#[trigger] args@[k], out@[k]),
                    decreases args.len() - i,
                {
                    let c = args[i].clone();
                    out.push(c);
                    i += 1;
                }
                Expr::Call(*f, out)
            },
        }
    }
}

/// One conjunct of a rule body: several expressions that must be equal,
/// or one expression that must hold.
#[derive(Clone, Debug, PartialEq, Eq, Hash)]
pub enum Fact {
    Eq(Vec<Expr>),
    Fact(Expr),
}

/// One step of a rule head or of a top-level command.
#[derive(Clone, Debug, PartialEq, Eq, Hash)]
pub enum Action {
    Panic(String),
    Expr(Expr),
    Define(Symbol, Expr),
    SetNode(Symbol, Vec<Expr>, Expr),
    Union(Expr, Expr),
}

/// The types of a function's arguments and of its result.
#[derive(Clone, Debug, PartialEq, Eq, Hash)]
pub struct Schema {
    pub input: Vec<Type>,
    pub output: Type,
}

/// The declaration of a function: `merge` reconciles a stored value `old`
/// with an incoming value `new`; `default` gives the value of an absent
/// key.
#[derive(Clone, Debug, PartialEq, Eq, Hash)]
pub struct FunctionDecl {
    pub name: Symbol,
    pub schema: Schema,
    pub merge: Option<Expr>,
    pub default: Option<Expr>,
}

/// One constructor of a datatype.
#[derive(Clone, Debug, PartialEq, Eq, Hash)]
pub struct Variant {
    pub name: Symbol,
    pub types: Vec<Type>,
}

/// A rule: where the body matches, the head runs.
#[derive(Clone, Debug, PartialEq, Eq, Hash)]
pub struct Rule {
    pub body: Vec<Fact>,
    pub head: Vec<Action>,
}

/// A rewrite: whatever matches `lhs` is made equal to `rhs`.
#[derive(Clone, Debug, PartialEq, Eq, Hash)]
pub struct Rewrite {
    pub lhs: Expr,
    pub rhs: Expr,
}

/// One command of a program.
#[derive(Clone, Debug, PartialEq, Eq, Hash)]
pub enum Command {
    Datatype { name: Symbol, variants: Vec<Variant> },
    Function(FunctionDecl),
    Rule(Rule),
    Rewrite(Rewrite),
    /// A rule under a name that no other rule may have.
    NamedRule(Symbol, Rule),
    /// A rewrite under a name that no other rule may have.
    NamedRewrite(Symbol, Rewrite),
    Run(usize),
    Extract(Expr),
    Check(Fact),
    Action(Action),
    Define(Symbol, Expr),
    ClearRules,
    Query(Vec<Fact>),
}

impl FunctionDecl {
    /// A declaration is constructor-like when it has neither merge nor
    /// default and its result is a sort.
    pub open spec fn spec_is_constructor(&self) -> bool {
        self.merge is None && self.default is None && self.schema.output is Sort
    }

    /// Whether the declaration is constructor-like.
    #[verifier::when_used_as_spec(spec_is_constructor)]
    pub fn is_constructor(&self) -> (b: bool)
        ensures
            b == self.spec_is_constructor(),
    {
        self.merge.is_none() && self.default.is_none() && self.schema.output.is_sort()
    }
}

/// The number of operator applications in an expression: literals and
/// variables count nothing.
pub open spec fn node_count(e: Expr) -> nat
    decreases e,
{
    match e {
        Expr::Lit(_) => 0,
        Expr::Var(_) => 0,
        Expr::Call(_, args) => 1 + node_count_all(args@, 0),
    }
}

/// The operator applications in `args[i..]`.
pub open spec fn node_count_all(args: Seq<Expr>, i: int) -> nat
    decreases args, args.len() - i,
{
    if 0 <= i < args.len() {
        node_count(args[i]) + node_count_all(args, i + 1)
    } else {
        0
    }
}

/// Whether the variable `v` occurs in the expression.
pub open spec fn occurs(e: Expr, v: Symbol) -> bool
    decreases e,
{
    match e {
        Expr::Lit(_) => false,
        Expr::Var(x) => x == v,
        Expr::Call(_, args) => exists|i: int| 0 <= i < args@.len() && occurs(#[trigger] args@[i], v),
    }
}

/// Whether every variable of the expression has an intern id below `n`.
pub open spec fn vars_below(e: Expr, n: int) -> bool
    decreases e,
{
    match e {
        Expr::Lit(_) => true,
        Expr::Var(x) => x.0 < n,
        Expr::Call(_, args) => forall|i: int|
            0 <= i < args@.len() ==> vars_below(#[trigger] args@[i], n),
    }
}

/// A variable whose intern id is no smaller than `n` does not occur in an
/// expression whose variables are all below `n`.
pub proof fn lemma_not_below(e: Expr, n: int, v: Symbol)
    requires
        vars_below(e, n),
        v.0 >= n,
    ensures
        !occurs(e, v),
    decreases e,
{
    match e {
        Expr::Call(_, args) => {
            assert forall|i: int| 0 <= i < args@.len() implies !occurs(#[trigger] args@[i], v) by {
                lemma_not_below(args@[i], n, v);
            }
        },
        _ => {},
    }
}

/// Variables below `m` are below every larger bound.
pub proof fn lemma_below_mono(e: Expr, m: int, n: int)
    requires
        vars_below(e, m),
        m <= n,
    ensures
        vars_below(e, n),
    decreases e,
{
    match e {
        Expr::Call(_, args) => {
            assert forall|i: int| 0 <= i < args@.len() implies vars_below(#[trigger] args@[i], n) by {
                lemma_below_mono(args@[i], m, n);
            }
        },
        _ => {},
    }
}

/// The largest intern id of a variable of the expression; `-1` where it
/// has none.
pub open spec fn top_var(e: Expr) -> int
    decreases e,
{
    match e {
        Expr::Lit(_) => -1,
        Expr::Var(x) => x.0 as int,
        Expr::Call(_, args) => top_var_upto(args@, args@.len() as int),
    }
}

/// The largest intern id of a variable of the first `n` expressions; `-1`
/// where they have none.
pub open spec fn top_var_upto(args: Seq<Expr>, n: int) -> int
    decreases args, n,
{
    if n <= 0 || n > args.len() {
        -1
    } else {
        let before = top_var_upto(args, n - 1);
        let here = top_var(args[n - 1]);
        if before >= here {
            before
        } else {
            here
        }
    }
}

/// The largest variable bounds all variables, is an intern id, and occurs.
pub proof fn lemma_top_var(e: Expr)
    ensures
        -1 <= top_var(e) <= usize::MAX,
        vars_below(e, top_var(e) + 1),
        top_var(e) >= 0 ==> occurs(e, Symbol(top_var(e) as usize)),
    decreases e, 1int,
{
    match e {
        Expr::Call(_, args) => {
            lemma_top_var_upto(e, args@, args@.len() as int);
        },
        _ => {},
    }
}

proof fn lemma_top_var_upto(e: Expr, args: Seq<Expr>, n: int)
    requires
        e matches Expr::Call(_, a) && a@ == args,
        0 <= n <= args.len(),
    ensures
        -1 <= top_var_upto(args, n) <= usize::MAX,
        forall|k: int| 0 <= k < n ==> vars_below(#[trigger] args[k], top_var_upto(args, n) + 1),
        top_var_upto(args, n) >= 0 ==> exists|k: int|
            0 <= k < n && occurs(#[trigger] args[k], Symbol(top_var_upto(args, n) as usize)),
    decreases e, 0int, n,
{
    if n > 0 {
        lemma_top_var_upto(e, args, n - 1);
        lemma_top_var(args[n - 1]);
        let before = top_var_upto(args, n - 1);
        let here = top_var(args[n - 1]);
        let now = top_var_upto(args, n);
        assert forall|k: int| 0 <= k < n implies vars_below(#[trigger] args[k], now + 1) by {
            if k < n - 1 {
                lemma_below_mono(args[k], before + 1, now + 1);
            } else {
                lemma_below_mono(args[k], here + 1, now + 1);
            }
        }
        if now >= 0 {
            if before >= here {
                let k = choose|k: int|
                    0 <= k < n - 1 && occurs(#[trigger] args[k], Symbol(before as usize));
                assert(occurs(args[k], Symbol(now as usize)));
            } else {
                assert(occurs(args[n - 1], Symbol(now as usize)));
            }
        }
    }
}

impl Expr {
    /// Whether the variable `v` occurs in the expression.
    pub fn mentions(&self, v: Symbol) -> (b: bool)
        ensures
            b == occurs(*self, v),
        decreases self,
    {
        match self {
            Expr::Lit(_) => false,
            Expr::Var(x) => *x == v,
            Expr::Call(_, args) => {
                let mut i: usize = 0;
                while i < args.len()
                    invariant
                        i <= args@.len(),
                        *self matches Expr::Call(_, a) && a == *args,
                        forall|k: int| 0 <= k < i ==> !occurs(#[trigger] args@[k], v),
                    decreases args@.len() - i,
                {
                    if args[i].mentions(v) {
                        return true;
                    }
                    i += 1;
                }
                false
            },
        }
    }

    /// The largest intern id of a variable of the expression, if it has a
    /// variable.
    pub fn top_variable(&self) -> (r: Option<usize>)
        ensures
            match r {
                Some(t) => t == top_var(*self),
                None => top_var(*self) == -1,
            },
        decreases self,
    {
        match self {
            Expr::Lit(_) => None,
            Expr::Var(x) => Some(x.0),
            Expr::Call(_, args) => {
                let mut top: Option<usize> = None;
                let mut i: usize = 0;
                while i < args.len()
                    invariant
                        i <= args@.len(),
                        *self matches Expr::Call(_, a) && a == *args,
                        match top {
                            Some(t) => t == top_var_upto(args@, i as int),
                            None => top_var_upto(args@, i as int) == -1,
                        },
                    decreases args@.len() - i,
                {
                    let here = args[i].top_variable();
                    top = match (top, here) {
                        (Some(a), Some(b)) => if a >= b {
                            Some(a)
                        } else {
                            Some(b)
                        },
                        (Some(a), None) => Some(a),
                        (None, b) => b,
                    };
                    i += 1;
                }
                top
            },
        }
    }
}

} // verus!
