//! Interned identifiers.

use vstd::prelude::*;

verus! {

/// An interned identifier. Two symbols are equal when their intern ids are.
#[derive(Clone, Copy, Debug, PartialEq, Eq, Structural, Hash)]
pub struct Symbol(pub usize);

/// The interner: an insert-only list of distinct names. A symbol is the
/// position of its name, so a symbol once handed out stays valid and keeps
/// its name.
pub struct SymbolTable {
    names: Vec<String>,
}

/// The names that every table starts with: the two variables of a merge
/// expression, the variable that a rewrite binds to its left-hand side, and
/// the five primitive operators.
pub open spec fn reserved_names() -> Seq<Seq<char>> {
    seq!["old"@, "new"@, "__rewrite_var"@, "+"@, "-"@, "*"@, "max"@, "min"@]
}

impl Symbol {
    /// The symbol that a merge expression uses for the stored value.
    pub open spec fn spec_old_value() -> Symbol {
        Symbol(0)
    }

    /// The symbol that a merge expression uses for the incoming value.
    pub open spec fn spec_new_value() -> Symbol {
        Symbol(1)
    }

    /// The symbol that a rewrite binds to its left-hand side.
    pub open spec fn spec_rewrite_var() -> Symbol {
        Symbol(2)
    }

    /// The operator `+`.
    pub open spec fn spec_plus() -> Symbol {
        Symbol(3)
    }

    /// The operator `-`.
    pub open spec fn spec_minus() -> Symbol {
        Symbol(4)
    }

    /// The operator `*`.
    pub open spec fn spec_times() -> Symbol {
        Symbol(5)
    }

    /// The operator `max`.
    pub open spec fn spec_max() -> Symbol {
        Symbol(6)
    }

    /// The operator `min`.
    pub open spec fn spec_min() -> Symbol {
        Symbol(7)
    }

    /// The operator `+`.
    #[verifier::when_used_as_spec(spec_plus)]
    pub fn plus() -> (s: Symbol)
        ensures
            s == Symbol::spec_plus(),
    {
        Symbol(3)
    }

    /// The operator `-`.
    #[verifier::when_used_as_spec(spec_minus)]
    pub fn minus() -> (s: Symbol)
        ensures
            s == Symbol::spec_minus(),
    {
        Symbol(4)
    }

    /// The operator `*`.
    #[verifier::when_used_as_spec(spec_times)]
    pub fn times() -> (s: Symbol)
        ensures
            s == Symbol::spec_times(),
    {
        Symbol(5)
    }

    /// The operator `max`.
    #[verifier::when_used_as_spec(spec_max)]
    pub fn max() -> (s: Symbol)
        ensures
            s == Symbol::spec_max(),
    {
        Symbol(6)
    }

    /// The operator `min`.
    #[verifier::when_used_as_spec(spec_min)]
    pub fn min() -> (s: Symbol)
        ensures
            s == Symbol::spec_min(),
    {
        Symbol(7)
    }

    /// The symbol that a merge expression uses for the stored value.
    #[verifier::when_used_as_spec(spec_old_value)]
    pub fn old_value() -> (s: Symbol)
        ensures
            s == Symbol::spec_old_value(),
    {
        Symbol(0)
    }

    /// The symbol that a merge expression uses for the incoming value.
    #[verifier::when_used_as_spec(spec_new_value)]
    pub fn new_value() -> (s: Symbol)
        ensures
            s == Symbol::spec_new_value(),
    {
        Symbol(1)
    }

    /// The symbol that a rewrite binds to its left-hand side.
    #[verifier::when_used_as_spec(spec_rewrite_var)]
    pub fn rewrite_var() -> (s: Symbol)
        ensures
            s == Symbol::spec_rewrite_var(),
    {
        Symbol(2)
    }
}

impl SymbolTable {
    /// The names, by intern id.
    pub closed spec fn view(&self) -> Seq<Seq<char>> {
        Seq::new(self.names@.len(), |i: int| self.names@[i]@)
    }

    /// No name occurs twice, and the reserved names come first.
    pub open spec fn wf(&self) -> bool {
        &&& forall|i: int, j: int|
            0 <= i < j < self@.len() ==> #[trigger] self@[i] != #[trigger] self@[j]
        &&& reserved_names().is_prefix_of(self@)
    }

    /// Whether `sym` was handed out by this table.
    pub open spec fn contains(&self, sym: Symbol) -> bool {
        sym.0 < self@.len()
    }

    /// A table that holds the reserved names only.
    pub fn new() -> (t: Self)
        ensures
            t.wf(),
            t@ == reserved_names(),
    {
        let mut names: Vec<String> = Vec::new();
        names.push("old".to_owned());
        names.push("new".to_owned());
        names.push("__rewrite_var".to_owned());
        names.push("+".to_owned());
        names.push("-".to_owned());
        names.push("*".to_owned());
        names.push("max".to_owned());
        names.push("min".to_owned());
        let t = SymbolTable { names };
        proof {
            reveal_strlit("old");
            reveal_strlit("new");
            reveal_strlit("__rewrite_var");
            reveal_strlit("+");
            reveal_strlit("-");
            reveal_strlit("*");
            reveal_strlit("max");
            reveal_strlit("min");
            let r = reserved_names();
            assert(t@ =~= r);
            assert(r[0].len() == 3 && r[0][0] == 'o');
            assert(r[1].len() == 3 && r[1][0] == 'n');
            assert(r[2].len() == 13);
            assert(r[3].len() == 1 && r[3][0] == '+');
            assert(r[4].len() == 1 && r[4][0] == '-');
            assert(r[5].len() == 1 && r[5][0] == '*');
            assert(r[6].len() == 3 && r[6][0] == 'm' && r[6][1] == 'a');
            assert(r[7].len() == 3 && r[7][0] == 'm' && r[7][1] == 'i');
        }
        t
    }

    /// The number of symbols handed out.
    pub fn len(&self) -> (n: usize)
        ensures
            n == self@.len(),
    {
        self.names.len()
    }

    /// The symbol of `name`, if it was interned.
    pub fn lookup(&self, name: &str) -> (r: Option<Symbol>)
        requires
            self.wf(),
        ensures
            match r {
                Some(s) => self.contains(s) && self@[s.0 as int] == name@,
                None => !self@.contains(name@),
            },
    {
        let wanted: String = name.to_owned();
        let mut i: usize = 0;
        while i < self.names.len()
            invariant
                i <= self.names@.len(),
                wanted@ == name@,
                forall|k: int| 0 <= k < i ==> self@[k] != name@,
            decreases self.names@.len() - i,
        {
            if self.names[i] == wanted {
                return Some(Symbol(i));
            }
            i += 1;
        }
        None
    }

    /// The symbol of `name`: the one it already has, or else the next
    /// unused id. Symbols handed out before keep their names.
    pub fn intern(&mut self, name: &str) -> (s: Symbol)
        requires
            old(self).wf(),
        ensures
            final(self).wf(),
            final(self).contains(s),
            final(self)@[s.0 as int] == name@,
            old(self)@.contains(name@) ==> final(self)@ == old(self)@,
            !old(self)@.contains(name@) ==> final(self)@ == old(self)@.push(name@) && s.0
                == old(self)@.len(),
            old(self)@.is_prefix_of(final(self)@),
    {
        match self.lookup(name) {
            Some(s) => {
                assert(self@.contains(name@));
                s
            },
            None => {
                let s = Symbol(self.names.len());
                self.names.push(name.to_owned());
                assert(self@ =~= old(self)@.push(name@));
                s
            },
        }
    }

    /// The name of `sym`.
    pub fn name(&self, sym: Symbol) -> (r: &String)
        requires
            self.contains(sym),
        ensures
            r@ == self@[sym.0 as int],
    {
        &self.names[sym.0]
    }
}

} // verus!
