//! A finite map keyed by words, holding each key at most once.

use vstd::prelude::*;
use crate::word::Word;

verus! {

/// A map from words to values. A key is stored at most once; `insert`
/// replaces the value of a key that is already present.
pub struct Table<V> {
    entries: Vec<(Word, V)>,
}

impl<V> Table<V> {
    #[verifier::type_invariant]
    spec fn keys_distinct(self) -> bool {
        forall|i: int, j: int|
            0 <= i < j < self.entries@.len() ==> #[trigger] self.entries@[i].0
                != #[trigger] self.entries@[j].0
    }

    spec fn has_key(self, k: Word) -> bool {
        exists|i: int| 0 <= i < self.entries@.len() && #[trigger] self.entries@[i].0 == k
    }

    /// The map the table holds.
    pub closed spec fn contents(self) -> Map<Word, V> {
        Map::new(
            |k: Word| self.has_key(k),
            |k: Word|
                self.entries@[choose|i: int|
                    0 <= i < self.entries@.len() && #[trigger] self.entries@[i].0 == k].1,
        )
    }

    proof fn lemma_entry(self, i: int)
        requires
            self.keys_distinct(),
            0 <= i < self.entries@.len(),
        ensures
            self.contents().contains_key(self.entries@[i].0),
            self.contents()[self.entries@[i].0] == self.entries@[i].1,
    {
        let k = self.entries@[i].0;
        assert(self.has_key(k));
        let j = choose|j: int| 0 <= j < self.entries@.len() && #[trigger] self.entries@[j].0 == k;
        if j < i {
            assert(self.entries@[j].0 != self.entries@[i].0);
        } else if i < j {
            assert(self.entries@[i].0 != self.entries@[j].0);
        }
    }

    /// An empty table.
    pub fn new() -> (r: Table<V>)
        ensures
            r.contents() == Map::<Word, V>::empty(),
    {
        let r = Table { entries: Vec::new() };
        assert(r.contents() =~= Map::<Word, V>::empty());
        r
    }

    /// The value stored under `key`, if any.
    pub fn get(&self, key: &Word) -> (r: Option<&V>)
        ensures
            match r {
                Some(v) => self.contents().contains_key(*key) && self.contents()[*key] == *v,
                None => !self.contents().contains_key(*key),
            },
    {
        proof {
            use_type_invariant(self);
        }
        let mut i: usize = 0;
        while i < self.entries.len()
            invariant
                self.keys_distinct(),
                0 <= i <= self.entries@.len(),
                forall|j: int| 0 <= j < i ==> #[trigger] self.entries@[j].0 != *key,
            decreases self.entries@.len() - i,
        {
            if self.entries[i].0.eq(key) {
                proof {
                    self.lemma_entry(i as int);
                }
                return Some(&self.entries[i].1);
            }
            i = i + 1;
        }
        None
    }

    /// Stores `value` under `key`, replacing what was stored there.
    pub fn insert(&mut self, key: Word, value: V)
        ensures
            final(self).contents() == old(self).contents().insert(key, value),
    {
        proof {
            use_type_invariant(&*self);
        }
        let ghost before = *self;
        let mut entries: Vec<(Word, V)> = Vec::new();
        std::mem::swap(&mut entries, &mut self.entries);
        let mut i: usize = 0;
        while i < entries.len()
            invariant
                before.keys_distinct(),
                before == *old(self),
                entries@ == before.entries@,
                0 <= i <= entries@.len(),
                forall|j: int| 0 <= j < i ==> #[trigger] entries@[j].0 != key,
            decreases entries@.len() - i,
        {
            if entries[i].0.eq(&key) {
                entries.set(i, (key, value));
                let ghost after = Table { entries };
                proof {
                    assert forall|a: int, b: int|
                        0 <= a < b < entries@.len() implies #[trigger] entries@[a].0
                        != #[trigger] entries@[b].0 by {
                        assert(before.entries@[a].0 != before.entries@[b].0);
                    }
                    after.lemma_after_set(before, i as int, key, value);
                }
                self.entries = entries;
                return;
            }
            i = i + 1;
        }
        entries.push((key, value));
        let ghost after = Table { entries };
        proof {
            after.lemma_after_push(before, key, value);
        }
        self.entries = entries;
    }

    proof fn lemma_after_set(self, before: Table<V>, i: int, key: Word, value: V)
        requires
            before.keys_distinct(),
            self.keys_distinct(),
            0 <= i < before.entries@.len(),
            before.entries@[i].0 == key,
            self.entries@ == before.entries@.update(i, (key, value)),
        ensures
            self.contents() == before.contents().insert(key, value),
    {
        assert forall|k: Word| #[trigger] self.has_key(k) == before.contents().insert(key, value).contains_key(k) by {
            if self.has_key(k) {
                let j = choose|j: int| 0 <= j < self.entries@.len() && #[trigger] self.entries@[j].0 == k;
                if j != i {
                    assert(before.entries@[j].0 == k);
                    before.lemma_entry(j);
                }
            }
            if before.contents().contains_key(k) && k != key {
                let j = choose|j: int| 0 <= j < before.entries@.len() && #[trigger] before.entries@[j].0 == k;
                assert(self.entries@[j].0 == k);
            }
            assert(self.entries@[i].0 == key);
        }
        assert forall|k: Word| #[trigger] self.contents().contains_key(k) implies self.contents()[k]
            == before.contents().insert(key, value)[k] by {
            let j = choose|j: int| 0 <= j < self.entries@.len() && #[trigger] self.entries@[j].0 == k;
            self.lemma_entry(j);
            if j != i {
                before.lemma_entry(j);
            }
        }
        assert(self.contents() =~= before.contents().insert(key, value));
    }

    proof fn lemma_after_push(self, before: Table<V>, key: Word, value: V)
        requires
            before.keys_distinct(),
            forall|j: int| 0 <= j < before.entries@.len() ==> #[trigger] before.entries@[j].0 != key,
            self.entries@ == before.entries@.push((key, value)),
        ensures
            self.keys_distinct(),
            self.contents() == before.contents().insert(key, value),
    {
        let n = before.entries@.len() as int;
        assert forall|a: int, b: int|
            0 <= a < b < self.entries@.len() implies #[trigger] self.entries@[a].0
            != #[trigger] self.entries@[b].0 by {
            if b < n {
                assert(before.entries@[a].0 != before.entries@[b].0);
            } else {
                assert(before.entries@[a].0 != key);
            }
        }
        assert forall|k: Word| #[trigger] self.has_key(k) == before.contents().insert(key, value).contains_key(k) by {
            if self.has_key(k) {
                let j = choose|j: int| 0 <= j < self.entries@.len() && #[trigger] self.entries@[j].0 == k;
                if j != n {
                    assert(before.entries@[j].0 == k);
                }
            }
            if before.contents().contains_key(k) {
                let j = choose|j: int| 0 <= j < before.entries@.len() && #[trigger] before.entries@[j].0 == k;
                assert(self.entries@[j].0 == k);
            }
            assert(self.entries@[n].0 == key);
        }
        assert forall|k: Word| #[trigger] self.contents().contains_key(k) implies self.contents()[k]
            == before.contents().insert(key, value)[k] by {
            let j = choose|j: int| 0 <= j < self.entries@.len() && #[trigger] self.entries@[j].0 == k;
            self.lemma_entry(j);
            if j != n {
                before.lemma_entry(j);
            }
        }
        assert(self.contents() =~= before.contents().insert(key, value));
    }
}

/// A copy of a table: the same keys, each with a clone of its value.
impl<V: Clone> Clone for Table<V> {
    fn clone(&self) -> (r: Self)
        ensures
            r.contents().dom() == self.contents().dom(),
            forall|k: Word| #[trigger]
                r.contents().contains_key(k) ==> cloned::<V>(self.contents()[k], r.contents()[k]),
    {
        proof {
            use_type_invariant(self);
        }
        let n = self.entries.len();
        let mut entries: Vec<(Word, V)> = Vec::new();
        let mut i: usize = 0;
        while i < n
            invariant
                n == self.entries@.len(),
                self.keys_distinct(),
                0 <= i <= n,
                entries@.len() == i,
                forall|j: int| 0 <= j < i ==> #[trigger] entries@[j].0 == self.entries@[j].0,
                forall|j: int|
                    0 <= j < i ==> cloned::<V>(self.entries@[j].1, #[trigger] entries@[j].1),
            decreases n - i,
        {
            let key = self.entries[i].0;
            let value = self.entries[i].1.clone();
            entries.push((key, value));
            i = i + 1;
        }
        let r = Table { entries };
        proof {
            assert forall|a: int, b: int|
                0 <= a < b < r.entries@.len() implies #[trigger] r.entries@[a].0
                != #[trigger] r.entries@[b].0 by {
                assert(self.entries@[a].0 != self.entries@[b].0);
            }
            assert forall|k: Word| r.has_key(k) == self.has_key(k) by {
                if r.has_key(k) {
                    let j = choose|j: int| 0 <= j < r.entries@.len() && #[trigger] r.entries@[j].0 == k;
                    assert(self.entries@[j].0 == k);
                }
                if self.has_key(k) {
                    let j = choose|j: int| 0 <= j < self.entries@.len() && #[trigger] self.entries@[j].0 == k;
                    assert(r.entries@[j].0 == k);
                }
            }
            assert(r.contents().dom() =~= self.contents().dom());
            assert forall|k: Word| #[trigger]
                r.contents().contains_key(k) implies cloned::<V>(self.contents()[k], r.contents()[k]) by {
                let j = choose|j: int| 0 <= j < r.entries@.len() && #[trigger] r.entries@[j].0 == k;
                r.lemma_entry(j);
                assert(self.entries@[j].0 == k);
                self.lemma_entry(j);
            }
        }
        r
    }
}

} // verus!
