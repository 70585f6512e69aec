//! A small map keyed by node identifier.
//!
//! A cluster node talks to a handful of peers, so the map is an association
//! list: one entry per key, looked up by a linear scan. Its view is the
//! mathematical map from a key's characters to the stored value.

use vstd::prelude::*;

verus! {

/// A finite map from node identifiers to values of type `V`.
#[derive(Debug)]
pub struct NodeMap<V> {
    entries: Vec<(String, V)>,
}

impl<V> View for NodeMap<V> {
    type V = Map<Seq<char>, V>;

    closed spec fn view(&self) -> Map<Seq<char>, V> {
        Map::new(
            |k: Seq<char>| self.position(k) is Some,
            |k: Seq<char>| self.entries[self.position(k)->0].1,
        )
    }
}

impl<V> NodeMap<V> {
    /// No key is stored twice.
    #[verifier::type_invariant]
    spec fn keys_distinct(self) -> bool {
        forall|i: int, j: int|
            0 <= i < j < self.entries.len() ==> (#[trigger] self.entries[i]).0@
                != (#[trigger] self.entries[j]).0@
    }

    /// Whether `i` is a slot that holds `key`.
    spec fn holds(self, i: int, key: Seq<char>) -> bool {
        0 <= i < self.entries.len() && self.entries[i].0@ == key
    }

    /// The slot that holds `key`, if any.
    spec fn position(self, key: Seq<char>) -> Option<int> {
        if exists|i: int| self.holds(i, key) {
            Some(choose|i: int| self.holds(i, key))
        } else {
            None
        }
    }

    proof fn lemma_position(self, i: int)
        requires
            self.keys_distinct(),
            0 <= i < self.entries.len(),
        ensures
            self.position(self.entries[i].0@) == Some(i),
    {
        let key = self.entries[i].0@;
        assert(self.holds(i, key));
        let c = choose|c: int| self.holds(c, key);
        assert(self.holds(c, key));
        if c < i {
            assert(self.entries[c].0@ != self.entries[i].0@);
        } else if i < c {
            assert(self.entries[i].0@ != self.entries[c].0@);
        }
    }

    /// Finds the slot that holds `key`.
    fn find(&self, key: &String) -> (r: Option<usize>)
        ensures
            match r {
                Some(i) => self.position(key@) == Some(i as int) && i < self.entries.len(),
                None => self.position(key@) is None,
            },
    {
        proof {
            use_type_invariant(self);
        }
        let mut i: usize = 0;
        while i < self.entries.len()
            invariant
                i <= self.entries.len(),
                self.keys_distinct(),
                forall|j: int| 0 <= j < i ==> !self.holds(j, key@),
            decreases self.entries.len() - i,
        {
            if self.entries[i].0 == *key {
                proof {
                    self.lemma_position(i as int);
                }
                return Some(i);
            }
            i += 1;
        }
        None
    }

    /// An empty map.
    pub fn new() -> (m: Self)
        ensures
            m@ == Map::<Seq<char>, V>::empty(),
    {
        let m = NodeMap { entries: Vec::new() };
        assert(m@ =~= Map::<Seq<char>, V>::empty());
        m
    }

    /// Whether `key` has an entry.
    pub fn contains_key(&self, key: &String) -> (b: bool)
        ensures
            b == self@.contains_key(key@),
    {
        self.find(key).is_some()
    }

    /// The value stored under `key`.
    pub fn get(&self, key: &String) -> (r: Option<&V>)
        ensures
            match r {
                Some(v) => self@.contains_key(key@) && *v == self@[key@],
                None => !self@.contains_key(key@),
            },
    {
        match self.find(key) {
            Some(i) => Some(&self.entries[i].1),
            None => None,
        }
    }

    /// Stores `value` under `key` and returns what was stored there before.
    pub fn insert(&mut self, key: String, value: V) -> (previous: Option<V>)
        ensures
            final(self)@ == old(self)@.insert(key@, value),
            previous == if old(self)@.contains_key(key@) {
                Some(old(self)@[key@])
            } else {
                None::<V>
            },
    {
        let previous = self.remove(&key);
        proof {
            use_type_invariant(&*self);
        }
        let ghost before = *self;
        let mut entries: Vec<(String, V)> = Vec::new();
        std::mem::swap(&mut entries, &mut self.entries);
        entries.push((key, value));
        proof {
            assert forall|i: int, j: int| 0 <= i < j < entries.len() implies (
            #[trigger] entries[i]).0@ != (#[trigger] entries[j]).0@ by {
                if j == before.entries.len() {
                    assert(!before@.contains_key(key@));
                    assert(!before.holds(i, key@));
                } else {
                    assert(before.entries[i].0@ != before.entries[j].0@);
                }
            }
        }
        self.entries = entries;
        proof {
            let after = *self;
            let last = before.entries.len() as int;
            assert(after.keys_distinct());
            after.lemma_position(last);
            let target = before@.insert(key@, value);
            assert forall|k: Seq<char>|
                #![trigger after@.dom().contains(k)]
                #![trigger target.dom().contains(k)]
                after@.dom().contains(k) == target.dom().contains(k) && (after@.dom().contains(k)
                    ==> after@[k] == target[k]) by {
                if k != key@ {
                    if before.position(k) is Some {
                        let i = before.position(k)->0;
                        assert(before.holds(i, k));
                        after.lemma_position(i);
                    } else if after.position(k) is Some {
                        let i = after.position(k)->0;
                        assert(after.holds(i, k));
                        assert(before.holds(i, k));
                    }
                }
            }
            assert(after@ =~= target);
            assert(after@ =~= old(self)@.insert(key@, value));
        }
        previous
    }

    /// Removes the entry of `key` and returns its value.
    pub fn remove(&mut self, key: &String) -> (removed: Option<V>)
        ensures
            final(self)@ == old(self)@.remove(key@),
            removed == if old(self)@.contains_key(key@) {
                Some(old(self)@[key@])
            } else {
                None::<V>
            },
    {
        proof {
            use_type_invariant(&*self);
        }
        match self.find(key) {
            Some(i) => {
                let ghost before = *self;
                let mut entries: Vec<(String, V)> = Vec::new();
                std::mem::swap(&mut entries, &mut self.entries);
                let entry = entries.remove(i);
                proof {
                    assert forall|a: int, b: int| 0 <= a < b < entries.len() implies (
                    #[trigger] entries[a]).0@ != (#[trigger] entries[b]).0@ by {
                        let a0 = if a < i { a } else { a + 1 };
                        let b0 = if b < i { b } else { b + 1 };
                        assert(before.entries[a0].0@ != before.entries[b0].0@);
                    }
                }
                self.entries = entries;
                proof {
                    let after = *self;
                    assert forall|k: Seq<char>| k != key@ implies after.position(k)
                        == match before.position(k) {
                        Some(p) => Some(if p < i { p } else { p - 1 }),
                        None => None,
                    } by {
                        if before.position(k) is Some {
                            let p = before.position(k)->0;
                            assert(before.holds(p, k));
                            after.lemma_position(if p < i { p } else { p - 1 });
                        } else if after.position(k) is Some {
                            let p = after.position(k)->0;
                            assert(after.holds(p, k));
                            assert(before.holds(if p < i { p } else { p + 1 }, k));
                        }
                    }
                    if after.position(key@) is Some {
                        let p = after.position(key@)->0;
                        assert(after.holds(p, key@));
                        let shifted = if p < i { p } else { p + 1 };
                        assert(before.holds(shifted, key@));
                        before.lemma_position(shifted);
                    }
                    assert(after@ =~= before@.remove(key@));
                }
                Some(entry.1)
            },
            None => {
                assert(self@ =~= old(self)@.remove(key@));
                None
            },
        }
    }

    /// The entries of the map, each key once, in no particular order.
    pub fn into_entries(self) -> (entries: Vec<(String, V)>)
        ensures
            forall|i: int|
                0 <= i < entries.len() ==> self@.contains_key((#[trigger] entries[i]).0@)
                    && self@[entries[i].0@] == entries[i].1,
            forall|key: Seq<char>|
                self@.contains_key(key) ==> exists|i: int|
                    0 <= i < entries.len() && (#[trigger] entries[i]).0@ == key,
            forall|i: int, j: int|
                0 <= i < j < entries.len() ==> (#[trigger] entries[i]).0@ != (
                #[trigger] entries[j]).0@,
    {
        proof {
            use_type_invariant(&self);
            assert forall|i: int| 0 <= i < self.entries.len() implies self@.contains_key(
                (#[trigger] self.entries[i]).0@,
            ) && self@[self.entries[i].0@] == self.entries[i].1 by {
                self.lemma_position(i);
            }
            assert forall|key: Seq<char>| self@.contains_key(key) implies exists|i: int|
                0 <= i < self.entries.len() && (#[trigger] self.entries[i]).0@ == key by {
                let i = self.position(key)->0;
                assert(self.holds(i, key));
            }
        }
        self.entries
    }
}

} // verus!
