//! A table from byte-string keys to values, each key at most once.
use crate::bytes::bytes_eq;
use vstd::prelude::*;

verus! {

/// Entries kept in a vector; the model is the map from each key to its value.
pub struct KeyTable<V: View> {
    entries: Vec<(Vec<u8>, V)>,
    model: Ghost<Map<Seq<u8>, V::V>>,
}

impl<V: View> View for KeyTable<V> {
    type V = Map<Seq<u8>, V::V>;

    closed spec fn view(&self) -> Map<Seq<u8>, V::V> {
        self.model@
    }
}

impl<V: View> KeyTable<V> {
    /// The key of the entry at `i`.
    pub closed spec fn key_at(&self, i: int) -> Seq<u8> {
        self.entries@[i].0@
    }

    /// The value of the entry at `i`.
    pub closed spec fn value_at(&self, i: int) -> V::V {
        self.entries@[i].1@
    }

    pub closed spec fn spec_len(&self) -> nat {
        self.entries@.len()
    }

    /// What well-formedness gives to a user of the table.
    pub proof fn lemma_wf(&self)
        requires
            self.wf(),
        ensures
            forall|i: int|
                0 <= i < self.spec_len() ==> #[trigger] self@.contains_key(self.key_at(i))
                    && self@[self.key_at(i)] == self.value_at(i),
            forall|i: int, j: int|
                0 <= i < j < self.spec_len() ==> #[trigger] self.key_at(i) != #[trigger] self.key_at(j),
            forall|k: Seq<u8>|
                #[trigger] self@.contains_key(k) ==> exists|i: int|
                    0 <= i < self.spec_len() && #[trigger] self.key_at(i) == k,
    {
    }

    /// Every entry is in the model, keys are distinct, and every key of the
    /// model has an entry.
    pub closed spec fn wf(&self) -> bool {
        &&& forall|i: int|
            0 <= i < self.entries@.len() ==> #[trigger] self.model@.contains_key(self.key_at(i))
                && self.model@[self.key_at(i)] == self.entries@[i].1@
        &&& forall|i: int, j: int|
            0 <= i < j < self.entries@.len() ==> #[trigger] self.key_at(i) != #[trigger] self.key_at(j)
        &&& forall|k: Seq<u8>|
            #[trigger] self.model@.contains_key(k) ==> exists|i: int|
                0 <= i < self.entries@.len() && #[trigger] self.key_at(i) == k
    }

    pub fn new() -> (r: Self)
        ensures
            r.wf(),
            r@ == Map::<Seq<u8>, V::V>::empty(),
    {
        KeyTable { entries: Vec::new(), model: Ghost(Map::empty()) }
    }

    pub fn len(&self) -> (r: usize)
        ensures
            r == self.spec_len(),
    {
        self.entries.len()
    }

    /// The key and value of the entry at `i`.
    pub fn entry(&self, i: usize) -> (r: (&Vec<u8>, &V))
        requires
            i < self.spec_len(),
        ensures
            r.0@ == self.key_at(i as int),
            r.1@ == self.value_at(i as int),
    {
        let e = &self.entries[i];
        (&e.0, &e.1)
    }

    fn find(&self, key: &[u8]) -> (r: Option<usize>)
        requires
            self.wf(),
        ensures
            match r {
                Some(i) => i < self.spec_len() && self.key_at(i as int) == key@,
                None => !self@.contains_key(key@),
            },
    {
        let mut i: usize = 0;
        while i < self.entries.len()
            invariant
                0 <= i <= self.entries@.len(),
                forall|j: int| 0 <= j < i ==> self.key_at(j) != key@,
            decreases self.entries@.len() - i,
        {
            if bytes_eq(self.entries[i].0.as_slice(), key) {
                return Some(i);
            }
            i = i + 1;
        }
        None
    }

    pub fn contains_key(&self, key: &[u8]) -> (r: bool)
        requires
            self.wf(),
        ensures
            r == self@.contains_key(key@),
    {
        self.find(key).is_some()
    }

    pub fn get(&self, key: &[u8]) -> (r: Option<&V>)
        requires
            self.wf(),
        ensures
            match r {
                Some(v) => self@.contains_key(key@) && v@ == self@[key@],
                None => !self@.contains_key(key@),
            },
    {
        match self.find(key) {
            Some(i) => {
                assert(self.model@.contains_key(self.key_at(i as int)));
                Some(&self.entries[i].1)
            },
            None => None,
        }
    }

    /// Puts `value` under `key`, replacing what was there.
    pub fn insert(&mut self, key: Vec<u8>, value: V)
        requires
            old(self).wf(),
        ensures
            final(self).wf(),
            final(self)@ == old(self)@.insert(key@, value@),
    {
        let ghost k = key@;
        let ghost v = value@;
        match self.find(key.as_slice()) {
            Some(i) => {
                self.entries.set(i, (key, value));
                self.model = Ghost(self.model@.insert(k, v));
                assert forall|j: int| 0 <= j < self.entries@.len() implies #[trigger] self.key_at(j)
                    == old(self).key_at(j) by {}
                assert forall|a: int, b: int| 0 <= a < b < self.entries@.len() implies #[trigger] self.key_at(a)
                    != #[trigger] self.key_at(b) by {
                    assert(self.key_at(a) == old(self).key_at(a));
                    assert(self.key_at(b) == old(self).key_at(b));
                }
                assert forall|j: int| 0 <= j < self.entries@.len() implies #[trigger] self.model@.contains_key(
                    self.key_at(j),
                ) && self.model@[self.key_at(j)] == self.entries@[j].1@ by {
                    if j != i {
                        assert(old(self).key_at(j) != old(self).key_at(i as int) || j == i);
                    }
                }
                assert forall|q: Seq<u8>| #[trigger] self.model@.contains_key(q) implies exists|j: int|
                    0 <= j < self.entries@.len() && #[trigger] self.key_at(j) == q by {
                    if q == k {
                        assert(self.key_at(i as int) == q);
                    } else {
                        let j = choose|j: int| 0 <= j < old(self).entries@.len() && #[trigger] old(self).key_at(j) == q;
                        assert(self.key_at(j) == q);
                    }
                }
            },
            None => {
                self.entries.push((key, value));
                self.model = Ghost(self.model@.insert(k, v));
                let ghost n: int = self.entries@.len() - 1;
                assert(self.key_at(n) == k);
                assert forall|j: int| 0 <= j < self.entries@.len() implies #[trigger] self.model@.contains_key(
                    self.key_at(j),
                ) && self.model@[self.key_at(j)] == self.entries@[j].1@ by {
                    if j < n {
                        assert(self.key_at(j) == old(self).key_at(j));
                        assert(old(self).model@.contains_key(old(self).key_at(j)));
                    }
                }
                assert forall|a: int, b: int| 0 <= a < b < self.entries@.len() implies #[trigger] self.key_at(a)
                    != #[trigger] self.key_at(b) by {
                    assert(self.key_at(a) == old(self).key_at(a));
                    if b < n {
                        assert(self.key_at(b) == old(self).key_at(b));
                    } else {
                        assert(old(self).model@.contains_key(old(self).key_at(a)));
                    }
                }
                assert forall|q: Seq<u8>| #[trigger] self.model@.contains_key(q) implies exists|j: int|
                    0 <= j < self.entries@.len() && #[trigger] self.key_at(j) == q by {
                    if q != k {
                        let j = choose|j: int| 0 <= j < old(self).entries@.len() && #[trigger] old(self).key_at(j) == q;
                        assert(self.key_at(j) == q);
                    }
                }
            },
        }
    }

    /// Takes the entry of `key` out, and gives back its value.
    pub fn remove(&mut self, key: &[u8]) -> (r: Option<V>)
        requires
            old(self).wf(),
        ensures
            final(self).wf(),
            final(self)@ == old(self)@.remove(key@),
            match r {
                Some(v) => old(self)@.contains_key(key@) && v@ == old(self)@[key@],
                None => !old(self)@.contains_key(key@),
            },
    {
        match self.find(key) {
            None => {
                assert(self.model@.remove(key@) =~= self.model@);
                None
            },
            Some(i) => {
                let ghost k = key@;
                let ghost n: int = self.entries@.len() - 1;
                assert(self.model@.contains_key(self.key_at(i as int)));
                let (_, value) = self.entries.swap_remove(i);
                self.model = Ghost(self.model@.remove(k));
                assert forall|j: int| 0 <= j < self.entries@.len() implies #[trigger] self.model@.contains_key(
                    self.key_at(j),
                ) && self.model@[self.key_at(j)] == self.entries@[j].1@ by {
                    let oj = if j == i { n } else { j };
                    assert(self.key_at(j) == old(self).key_at(oj));
                    assert(old(self).model@.contains_key(old(self).key_at(oj)));
                    assert(old(self).key_at(oj) != old(self).key_at(i as int));
                }
                assert forall|a: int, b: int| 0 <= a < b < self.entries@.len() implies #[trigger] self.key_at(a)
                    != #[trigger] self.key_at(b) by {
                    let oa = if a == i { n } else { a };
                    let ob = if b == i { n } else { b };
                    assert(self.key_at(a) == old(self).key_at(oa));
                    assert(self.key_at(b) == old(self).key_at(ob));
                    if oa < ob {
                        assert(old(self).key_at(oa) != old(self).key_at(ob));
                    } else {
                        assert(old(self).key_at(ob) != old(self).key_at(oa));
                    }
                }
                assert forall|q: Seq<u8>| #[trigger] self.model@.contains_key(q) implies exists|j: int|
                    0 <= j < self.entries@.len() && #[trigger] self.key_at(j) == q by {
                    let j = choose|j: int| 0 <= j < old(self).entries@.len() && #[trigger] old(self).key_at(j) == q;
                    assert(j != i);
                    if j == n {
                        assert(self.key_at(i as int) == q);
                    } else {
                        assert(self.key_at(j) == q);
                    }
                }
                Some(value)
            },
        }
    }
}

} // verus!
