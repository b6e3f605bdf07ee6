//! A small map from strings to strings, kept in the order of insertion.

use vstd::prelude::*;

verus! {

/// The map that a list of pairs stands for: a later pair replaces an earlier
/// one with the same key.
pub open spec fn pairs_map(pairs: Seq<(String, String)>) -> Map<Seq<char>, Seq<char>>
    decreases pairs.len(),
{
    if pairs.len() == 0 {
        Map::empty()
    } else {
        pairs_map(pairs.drop_last()).insert(pairs.last().0@, pairs.last().1@)
    }
}

/// A map from strings to strings.
pub struct StringMap {
    pairs: Vec<(String, String)>,
}

impl View for StringMap {
    type V = Map<Seq<char>, Seq<char>>;

    closed spec fn view(&self) -> Map<Seq<char>, Seq<char>> {
        pairs_map(self.pairs@)
    }
}

impl Default for StringMap {
    fn default() -> (out: StringMap)
        ensures
            out@ == Map::<Seq<char>, Seq<char>>::empty(),
    {
        StringMap::new()
    }
}

impl StringMap {
    /// A map without bindings.
    pub fn new() -> (out: StringMap)
        ensures
            out@ == Map::<Seq<char>, Seq<char>>::empty(),
    {
        StringMap { pairs: Vec::new() }
    }

    /// Binds `key` to `value`, in place of what it was bound to.
    pub fn insert(&mut self, key: String, value: String)
        ensures
            final(self)@ == old(self)@.insert(key@, value@),
    {
        self.pairs.push((key, value));
        assert(self.pairs@.drop_last() =~= old(self).pairs@);
    }

    /// What `key` is bound to.
    pub fn get(&self, key: &String) -> (out: Option<&String>)
        ensures
            match out {
                Some(value) => self@.contains_key(key@) && self@[key@] == value@,
                None => !self@.contains_key(key@),
            },
    {
        let mut i: usize = self.pairs.len();
        assert(self.pairs@.take(i as int) =~= self.pairs@);
        while i > 0
            invariant
                i <= self.pairs.len(),
                self@.contains_key(key@) == pairs_map(self.pairs@.take(i as int)).contains_key(key@),
                self@.contains_key(key@) ==> self@[key@] == pairs_map(self.pairs@.take(i as int))[key@],
            decreases i,
        {
            let ghost here = self.pairs@.take(i as int);
            assert(here.drop_last() =~= self.pairs@.take(i - 1));
            assert(here.last() == self.pairs@[i - 1]);
            if self.pairs[i - 1].0 == *key {
                return Some(&self.pairs[i - 1].1);
            }
            i = i - 1;
        }
        None
    }

    /// Whether `key` is bound.
    pub fn contains_key(&self, key: &String) -> (out: bool)
        ensures
            out == self@.contains_key(key@),
    {
        self.get(key).is_some()
    }
}

} // verus!
