//! Tables keyed by names.

use crate::text::str_eq;
use vstd::prelude::*;

verus! {

/// A table from names to values; a later entry of a name hides the earlier ones.
pub struct NameMap<V> {
    entries: Vec<(String, V)>,
}

/// What a list of entries binds.
pub open spec fn bindings<V: View>(entries: Seq<(String, V)>) -> Map<Seq<char>, V::V>
    decreases entries.len(),
{
    if entries.len() == 0 {
        Map::empty()
    } else {
        bindings(entries.drop_last()).insert(entries.last().0@, entries.last().1@)
    }
}

impl<V: View> View for NameMap<V> {
    type V = Map<Seq<char>, V::V>;

    closed spec fn view(&self) -> Map<Seq<char>, V::V> {
        bindings(self.entries@)
    }
}

impl<V: View> NameMap<V> {
    /// An empty table.
    pub fn new() -> (r: Self)
        ensures
            r@ == Map::<Seq<char>, V::V>::empty(),
    {
        NameMap { entries: Vec::new() }
    }

    /// Binds `name` to `value`.
    pub fn insert(&mut self, name: String, value: V)
        ensures
            final(self)@ == old(self)@.insert(name@, value@),
    {
        let ghost before = self.entries@;
        self.entries.push((name, value));
        assert(self.entries@.drop_last() =~= before);
    }

    /// The value that `name` is bound to.
    pub fn get(&self, name: &str) -> (r: Option<&V>)
        ensures
            r is Some <==> self@.contains_key(name@),
            r matches Some(v) ==> v@ == self@[name@],
    {
        let mut i: usize = self.entries.len();
        assert(self.entries@.take(i as int) =~= self.entries@);
        while i > 0
            invariant
                i <= self.entries.len(),
                bindings(self.entries@).contains_key(name@) <==> bindings(
                    self.entries@.take(i as int),
                ).contains_key(name@),
                bindings(self.entries@).contains_key(name@) ==> bindings(self.entries@)[name@]
                    == bindings(self.entries@.take(i as int))[name@],
            decreases i,
        {
            proof {
                let cur = self.entries@.take(i as int);
                assert(cur.drop_last() =~= self.entries@.take(i - 1));
            }
            i = i - 1;
            if str_eq(self.entries[i].0.as_str(), name) {
                return Some(&self.entries[i].1);
            }
        }
        None
    }

    /// Whether `name` is bound.
    pub fn contains_key(&self, name: &str) -> (r: bool)
        ensures
            r == self@.contains_key(name@),
    {
        self.get(name).is_some()
    }
}

impl NameMap<i32> {
    /// The same table.
    #[verifier::loop_isolation(false)]
    pub fn copy(&self) -> (r: Self)
        ensures
            r@ == self@,
    {
        let ghost all = self.entries@;
        let mut entries: Vec<(String, i32)> = Vec::new();
        let mut i: usize = 0;
        assert(all.take(0) =~= Seq::empty());
        while i < self.entries.len()
            invariant
                i <= self.entries.len(),
                bindings(entries@) == bindings(all.take(i as int)),
            decreases self.entries.len() - i,
        {
            let ghost before = entries@;
            assert(all.take(i + 1).drop_last() =~= all.take(i as int));
            entries.push((self.entries[i].0.clone(), self.entries[i].1));
            assert(entries@.drop_last() =~= before);
            i = i + 1;
        }
        assert(all.take(i as int) =~= all);
        NameMap { entries }
    }
}

impl NameMap<usize> {
    /// Unbinds `name`. Returns what it was bound to.
    #[verifier::loop_isolation(false)]
    pub fn remove(&mut self, name: &str) -> (r: Option<usize>)
        ensures
            final(self)@ == old(self)@.remove(name@),
            r == (if old(self)@.contains_key(name@) {
                Some(old(self)@[name@])
            } else {
                None
            }),
    {
        let found = match self.get(name) {
            Some(v) => Some(*v),
            None => None,
        };
        let ghost all = self.entries@;
        let mut kept: Vec<(String, usize)> = Vec::new();
        let mut i: usize = 0;
        assert(bindings(kept@) =~= bindings(all.take(0)).remove(name@));
        while i < self.entries.len()
            invariant
                i <= self.entries.len(),
                bindings(kept@) == bindings(all.take(i as int)).remove(name@),
            decreases self.entries.len() - i,
        {
            let ghost was = kept@;
            assert(all.take(i + 1).drop_last() =~= all.take(i as int));
            if !str_eq(self.entries[i].0.as_str(), name) {
                kept.push((self.entries[i].0.clone(), self.entries[i].1));
                assert(kept@.drop_last() =~= was);
            }
            i = i + 1;
            assert(bindings(kept@) =~= bindings(all.take(i as int)).remove(name@));
        }
        assert(all.take(i as int) =~= all);
        self.entries = kept;
        found
    }
}

} // verus!
