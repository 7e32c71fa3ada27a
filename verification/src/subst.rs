//! Substitutions: bindings of variables to values.

use crate::symbol::Symbol;
use crate::value::Value;
use vstd::prelude::*;

verus! {

/// The map that a list of bindings stands for: a later binding of a
/// variable hides an earlier one.
pub open spec fn bindings_map(s: Seq<(Symbol, Value)>) -> Map<Symbol, Value>
    decreases s.len(),
{
    if s.len() == 0 {
        Map::empty()
    } else {
        bindings_map(s.drop_last()).insert(s.last().0, s.last().1)
    }
}

/// A substitution from variables to values.
#[derive(Clone, Debug)]
pub struct Subst {
    entries: Vec<(Symbol, Value)>,
}

impl Subst {
    /// The bindings as a map.
    pub closed spec fn view(&self) -> Map<Symbol, Value> {
        bindings_map(self.entries@)
    }

    /// The empty substitution.
    pub fn new() -> (s: Self)
        ensures
            s@ == Map::<Symbol, Value>::empty(),
    {
        Subst { entries: Vec::new() }
    }

    /// The value bound to `var`, if any.
    pub fn get(&self, var: Symbol) -> (r: Option<Value>)
        ensures
            r == if self@.contains_key(var) {
                Some(self@[var])
            } else {
                None
            },
    {
        let mut i: usize = self.entries.len();
        assert(self.entries@.subrange(0, i as int) =~= self.entries@);
        while i > 0
            invariant
                i <= self.entries@.len(),
                bindings_map(self.entries@).contains_key(var) <==> bindings_map(
                    self.entries@.subrange(0, i as int),
                ).contains_key(var),
                bindings_map(self.entries@).contains_key(var) ==> bindings_map(self.entries@)[var]
                    == bindings_map(self.entries@.subrange(0, i as int))[var],
            decreases i,
        {
            let ghost prefix = self.entries@.subrange(0, i as int);
            assert(prefix.drop_last() =~= self.entries@.subrange(0, i - 1));
            assert(prefix.last() == self.entries@[i - 1]);
            i -= 1;
            if self.entries[i].0 == var {
                return Some(self.entries[i].1);
            }
        }
        None
    }

    /// Binds `var` to `value`, hiding any earlier binding of it.
    pub fn insert(&mut self, var: Symbol, value: Value)
        ensures
            final(self)@ == old(self)@.insert(var, value),
    {
        self.entries.push((var, value));
        assert(self.entries@.drop_last() =~= old(self).entries@);
    }

    /// Whether `var` is bound.
    pub fn contains(&self, var: Symbol) -> (b: bool)
        ensures
            b == self@.contains_key(var),
    {
        self.get(var).is_some()
    }
}

} // verus!
