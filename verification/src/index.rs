//! Hash indexes: from the fingerprint of a key to the rows that may hold
//! it, and from a name to the position of what it names.

use std::collections::hash_map::DefaultHasher;
use crate::symbol::Symbol;
use std::hash::BuildHasherDefault;
use vstd::prelude::*;

verus! {

/// A `hashbrown::HashMap` from 64-bit keys to lists of positions: from the
/// fingerprint of a key to the rows that may hold it, or from the number of
/// a name to the position of what it names.
#[verifier::external_body]
pub struct HashIndex {
    map: hashbrown::HashMap<u64, Vec<usize>, BuildHasherDefault<DefaultHasher>>,
}

/// What the index holds: for each key that has an entry, its positions.
pub uninterp spec fn index_contents(ix: HashIndex) -> Map<u64, Seq<usize>>;

/// The contents of an index without entries.
pub open spec fn no_entries() -> Map<u64, Seq<usize>> {
    Map::empty()
}

/// `hashbrown::HashMap::with_hasher`: a map without entries.
#[verifier::external_body]
pub(crate) fn index_new() -> (r: HashIndex)
    ensures
        index_contents(r) == no_entries(),
{
    HashIndex { map: hashbrown::HashMap::with_hasher(BuildHasherDefault::default()) }
}

/// `hashbrown::HashMap::get`: the entry of `key`, if there is one.
#[verifier::external_body]
pub(crate) fn index_get<'a>(ix: &'a HashIndex, key: u64) -> (r: Option<&'a Vec<usize>>)
    ensures
        match r {
            Some(rows) => index_contents(*ix).contains_key(key) && rows@ == index_contents(
                *ix,
            )[key],
            None => !index_contents(*ix).contains_key(key),
        },
{
    ix.map.get(&key)
}

/// `hashbrown::HashMap::remove`: takes the entry of `key` out of the map
/// and returns it, if there is one; other entries stay.
#[verifier::external_body]
pub(crate) fn index_remove(ix: &mut HashIndex, key: u64) -> (r: Option<Vec<usize>>)
    ensures
        index_contents(*final(ix)) == index_contents(*old(ix)).remove(key),
        match r {
            Some(rows) => index_contents(*old(ix)).contains_key(key) && rows@ == index_contents(
                *old(ix),
            )[key],
            None => !index_contents(*old(ix)).contains_key(key),
        },
{
    ix.map.remove(&key)
}

/// `hashbrown::HashMap::insert`: sets the entry of `key` and returns the
/// entry it had before, if there was one; other entries stay.
#[verifier::external_body]
pub(crate) fn index_insert(ix: &mut HashIndex, key: u64, rows: Vec<usize>) -> (r: Option<
    Vec<usize>,
>)
    ensures
        index_contents(*final(ix)) == index_contents(*old(ix)).insert(key, rows@),
        match r {
            Some(before) => index_contents(*old(ix)).contains_key(key) && before@
                == index_contents(*old(ix))[key],
            None => !index_contents(*old(ix)).contains_key(key),
        },
{
    ix.map.insert(key, rows)
}

/// The key under which a name is indexed: its intern number.
pub open spec fn name_key(s: Symbol) -> u64 {
    s.0 as u64
}

/// An index from names to positions, kept in a hash map.
pub struct NameIndex {
    ix: HashIndex,
}

impl NameIndex {
    /// The position of each name that has one.
    pub closed spec fn view(&self) -> Map<Symbol, usize> {
        Map::new(
            |s: Symbol| index_contents(self.ix).contains_key(name_key(s)),
            |s: Symbol| index_contents(self.ix)[name_key(s)][0],
        )
    }

    /// The invariant of the index: every entry holds one position.
    pub closed spec fn wf(&self) -> bool {
        forall|k: u64| #[trigger]
            index_contents(self.ix).contains_key(k) ==> index_contents(self.ix)[k].len() == 1
    }

    /// An index without names.
    pub fn new() -> (r: Self)
        ensures
            r.wf(),
            r@ == Map::<Symbol, usize>::empty(),
    {
        let r = NameIndex { ix: index_new() };
        assert(r@ =~= Map::<Symbol, usize>::empty());
        r
    }

    /// The position of a name, if it has one.
    pub fn get(&self, s: Symbol) -> (r: Option<usize>)
        requires
            self.wf(),
        ensures
            r == if self@.contains_key(s) {
                Some(self@[s])
            } else {
                None
            },
    {
        match index_get(&self.ix, s.0 as u64) {
            None => None,
            Some(at) => Some(at[0]),
        }
    }

    /// Gives a name a position; a position it had is replaced.
    pub fn set(&mut self, s: Symbol, at: usize)
        requires
            old(self).wf(),
        ensures
            final(self).wf(),
            final(self)@ == old(self)@.insert(s, at),
    {
        let mut entry: Vec<usize> = Vec::new();
        entry.push(at);
        let _ = index_insert(&mut self.ix, s.0 as u64, entry);
        proof {
            assert forall|t: Symbol| t != s implies name_key(t) != name_key(s) by {
                assert(t.0 != s.0);
            }
            assert(self@ =~= old(self)@.insert(s, at));
        }
    }
}

/// A list of names without repetition, with a hash index from each name
/// to its position.
pub struct NameList {
    list: Vec<Symbol>,
    at: NameIndex,
}

impl NameList {
    /// The names, in the order in which they came.
    pub closed spec fn view(&self) -> Seq<Symbol> {
        self.list@
    }

    /// The invariant of the list: the index holds each name at its
    /// position, and nothing else.
    pub closed spec fn wf(&self) -> bool {
        &&& self.at.wf()
        &&& forall|i: int|
            0 <= i < self.list@.len() ==> self.at@.contains_key(#[trigger] self.list@[i])
                && self.at@[self.list@[i]] == i
        &&& forall|s: Symbol| #[trigger]
            self.at@.contains_key(s) ==> self.at@[s] < self.list@.len() && self.list@[self.at@[s] as int]
                == s
    }

    /// A list without names.
    pub fn new() -> (r: Self)
        ensures
            r.wf(),
            r@ == Seq::<Symbol>::empty(),
    {
        NameList { list: Vec::new(), at: NameIndex::new() }
    }

    /// How many names there are.
    pub fn len(&self) -> (n: usize)
        ensures
            n == self@.len(),
    {
        self.list.len()
    }

    /// The position of a name, if the list has it.
    pub fn position(&self, s: Symbol) -> (r: Option<usize>)
        requires
            self.wf(),
        ensures
            match r {
                Some(k) => k < self@.len() && self@[k as int] == s,
                None => !self@.contains(s),
            },
    {
        self.at.get(s)
    }

    /// Whether the list has the name.
    pub fn contains(&self, s: Symbol) -> (b: bool)
        requires
            self.wf(),
        ensures
            b == self@.contains(s),
    {
        self.position(s).is_some()
    }

    /// Adds a name that the list does not have, after the others.
    pub fn push(&mut self, s: Symbol)
        requires
            old(self).wf(),
            !old(self)@.contains(s),
        ensures
            final(self).wf(),
            final(self)@ == old(self)@.push(s),
    {
        let at = self.list.len();
        self.list.push(s);
        self.at.set(s, at);
        proof {
            assert forall|i: int| 0 <= i < self.list@.len() implies self.at@.contains_key(
                #[trigger] self.list@[i],
            ) && self.at@[self.list@[i]] == i by {
                if i < at {
                    assert(old(self).list@[i] == self.list@[i]);
                    assert(old(self)@.contains(old(self).list@[i]));
                }
            }
        }
    }
}

} // verus!
