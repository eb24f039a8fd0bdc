//! The key-value store in which serialized query plans are cached under
//! their plan hash.
use vstd::prelude::*;

verus! {

/// Byte values stored under string keys; a key holds at most one value.
pub struct WokKVStore {
    entries: Vec<(String, Vec<u8>)>,
}

impl View for WokKVStore {
    type V = Map<Seq<char>, Seq<u8>>;

    closed spec fn view(&self) -> Map<Seq<char>, Seq<u8>> {
        Map::new(
            |k: Seq<char>| self.has_key(k),
            |k: Seq<char>| self.entries@[self.slot_of(k)].1@,
        )
    }
}

/// A read gives back the last value written under its key, and a write
/// leaves every other key as it was.
pub proof fn lemma_read_your_write(
    before: WokKVStore,
    after: WokKVStore,
    key: Seq<char>,
    value: Seq<u8>,
    other: Seq<char>,
)
    requires
        after@ == before@.insert(key, value),
    ensures
        after@.contains_key(key),
        after@[key] == value,
        other != key ==> after@.contains_key(other) == before@.contains_key(other),
        other != key && before@.contains_key(other) ==> after@[other] == before@[other],
{
}

impl WokKVStore {
    spec fn has_key(&self, k: Seq<char>) -> bool {
        exists|i: int| 0 <= i < self.entries@.len() && #[trigger] self.entries@[i].0@ == k
    }

    spec fn slot_of(&self, k: Seq<char>) -> int {
        choose|i: int| 0 <= i < self.entries@.len() && #[trigger] self.entries@[i].0@ == k
    }

    /// No key is stored twice.
    #[verifier::type_invariant]
    spec fn inv(&self) -> bool {
        forall|i: int, j: int|
            0 <= i < j < self.entries@.len() ==> #[trigger] self.entries@[i].0@
                != #[trigger] self.entries@[j].0@
    }

    /// An empty store.
    pub fn new() -> (store: Self)
        ensures
            store@ == Map::<Seq<char>, Seq<u8>>::empty(),
    {
        let store = WokKVStore { entries: Vec::new() };
        assert(store@ =~= Map::<Seq<char>, Seq<u8>>::empty());
        store
    }

    /// The slot that holds `key`, if any.
    fn find(&self, key: &String) -> (slot: Option<usize>)
        ensures
            match slot {
                Some(i) => i < self.entries@.len() && self.entries@[i as int].0@ == key@,
                None => !self.has_key(key@),
            },
    {
        let mut i: usize = 0;
        while i < self.entries.len()
            invariant
                i <= self.entries@.len(),
                forall|j: int| 0 <= j < i ==> #[trigger] self.entries@[j].0@ != key@,
            decreases self.entries@.len() - i,
        {
            if self.entries[i].0 == *key {
                return Some(i);
            }
            i = i + 1;
        }
        None
    }

    /// Stores `value` under `key`, replacing what the key held.
    pub fn put(&mut self, key: &str, value: &[u8])
        ensures
            final(self)@ == old(self)@.insert(key@, value@),
    {
        let k = key.to_owned();
        let v = vstd::slice::slice_to_vec(value);
        proof {
            use_type_invariant(&*self);
        }
        let ghost before = self.entries@;
        let slot = self.find(&k);
        let mut entries = Vec::new();
        std::mem::swap(&mut entries, &mut self.entries);
        match slot {
            Some(i) => {
                entries[i] = (k, v);
                self.entries = entries;
                proof {
                    let after = self.entries@;
                    // The keys stay where they were; only slot `i` changed.
                    assert forall|c: Seq<char>| #[trigger] self.has_key(c) == old(self).has_key(c) by {
                        if old(self).has_key(c) {
                            assert(after[old(self).slot_of(c)].0@ == c);
                        }
                        if self.has_key(c) {
                            assert(before[self.slot_of(c)].0@ == c);
                        }
                    }
                    assert forall|c: Seq<char>| #[trigger] self.has_key(c) && c != key@ implies after[self.slot_of(c)].1@
                        == before[old(self).slot_of(c)].1@ by {
                        assert(before[self.slot_of(c)].0@ == c);
                    }
                    assert(after[i as int].0@ == key@);
                    assert(before[self.slot_of(key@)].0@ == key@);
                    assert(self@ =~= old(self)@.insert(key@, value@));
                }
            },
            None => {
                entries.push((k, v));
                self.entries = entries;
                proof {
                    let after = self.entries@;
                    let n = before.len() as int;
                    // The new key sits in the new last slot.
                    assert(after[n].0@ == key@);
                    assert forall|c: Seq<char>| #[trigger] self.has_key(c) == (old(self).has_key(c) || c == key@) by {
                        if old(self).has_key(c) {
                            assert(after[old(self).slot_of(c)] == before[old(self).slot_of(c)]);
                        }
                        if self.has_key(c) && c != key@ {
                            assert(before[self.slot_of(c)] == after[self.slot_of(c)]);
                        }
                    }
                    assert forall|c: Seq<char>| #[trigger] self.has_key(c) && c != key@ implies after[self.slot_of(c)].1@
                        == before[old(self).slot_of(c)].1@ by {
                        assert(before[self.slot_of(c)] == after[self.slot_of(c)]);
                        assert(after[old(self).slot_of(c)] == before[old(self).slot_of(c)]);
                    }
                    assert(self.slot_of(key@) == n);
                    assert(self@ =~= old(self)@.insert(key@, value@));
                }
            },
        }
    }

    /// The value stored under `key`, if any.
    pub fn get(&self, key: &str) -> (value: Option<Vec<u8>>)
        ensures
            match value {
                Some(v) => self@.contains_key(key@) && v@ == self@[key@],
                None => !self@.contains_key(key@),
            },
    {
        proof {
            use_type_invariant(self);
        }
        let k = key.to_owned();
        match self.find(&k) {
            Some(i) => {
                proof {
                    let j = self.slot_of(key@);
                    assert(i as int == j);
                }
                Some(vstd::slice::slice_to_vec(self.entries[i].1.as_slice()))
            },
            None => None,
        }
    }
}

} // verus!
