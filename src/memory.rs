//! The store: values under keys.
use crate::bytes::copy_bytes;
use crate::table::KeyTable;
use vstd::prelude::*;

verus! {

/// The keys listed in `r` are exactly the keys of `m`, each once.
pub open spec fn lists_keys<V>(r: Seq<Vec<u8>>, m: Map<Seq<u8>, V>) -> bool {
    &&& forall|j: int| 0 <= j < r.len() ==> #[trigger] m.contains_key(r[j]@)
    &&& forall|k: Seq<u8>| #[trigger] m.contains_key(k) ==> exists|j: int| 0 <= j < r.len() && #[trigger] r[j]@ == k
    &&& forall|a: int, b: int| 0 <= a < b < r.len() ==> #[trigger] r[a]@ != #[trigger] r[b]@
}

pub struct Memory {
    data: KeyTable<Vec<u8>>,
}

impl View for Memory {
    type V = Map<Seq<u8>, Seq<u8>>;

    closed spec fn view(&self) -> Map<Seq<u8>, Seq<u8>> {
        self.data@
    }
}

impl Memory {
    pub closed spec fn wf(&self) -> bool {
        self.data.wf()
    }

    pub fn new() -> (r: Memory)
        ensures
            r.wf(),
            r@ == Map::<Seq<u8>, Seq<u8>>::empty(),
    {
        Memory { data: KeyTable::new() }
    }

    /// Stores `value` under `key`, replacing any earlier value.
    pub fn set(&mut self, key: Vec<u8>, value: Vec<u8>)
        requires
            old(self).wf(),
        ensures
            final(self).wf(),
            final(self)@ == old(self)@.insert(key@, value@),
    {
        self.data.insert(key, value);
    }

    /// The value under `key`, if any.
    pub fn get(&self, key: &[u8]) -> (r: Option<Vec<u8>>)
        requires
            self.wf(),
        ensures
            match r {
                Some(v) => self@.contains_key(key@) && v@ == self@[key@],
                None => !self@.contains_key(key@),
            },
    {
        match self.data.get(key) {
            Some(v) => Some(copy_bytes(v.as_slice())),
            None => None,
        }
    }

    /// Removes `key`, giving back the value it had.
    pub fn delete(&mut self, key: &[u8]) -> (r: Option<Vec<u8>>)
        requires
            old(self).wf(),
        ensures
            final(self).wf(),
            final(self)@ == old(self)@.remove(key@),
            match r {
                Some(v) => old(self)@.contains_key(key@) && v@ == old(self)@[key@],
                None => !old(self)@.contains_key(key@),
            },
    {
        self.data.remove(key)
    }

    /// Every key of the store, each once, in no particular order.
    pub fn keys(&self) -> (r: Vec<Vec<u8>>)
        requires
            self.wf(),
        ensures
            lists_keys(r@, self@),
    {
        proof {
            self.data.lemma_wf();
        }
        let mut out: Vec<Vec<u8>> = Vec::new();
        let mut i: usize = 0;
        while i < self.data.len()
            invariant
                0 <= i <= self.data.spec_len(),
                out@.len() == i,
                forall|j: int| 0 <= j < i ==> #[trigger] out@[j]@ == self.data.key_at(j),
            decreases self.data.spec_len() - i,
        {
            let (k, _) = self.data.entry(i);
            out.push(copy_bytes(k.as_slice()));
            i = i + 1;
        }
        assert forall|k: Seq<u8>| #[trigger] self@.contains_key(k) implies exists|j: int|
            0 <= j < out@.len() && #[trigger] out@[j]@ == k by {
            let j = choose|j: int| 0 <= j < self.data.spec_len() && #[trigger] self.data.key_at(j) == k;
            assert(out@[j]@ == k);
        }
        assert forall|a: int, b: int| 0 <= a < b < out@.len() implies #[trigger] out@[a]@
            != #[trigger] out@[b]@ by {
            assert(self.data.key_at(a) != self.data.key_at(b));
        }
        assert forall|j: int| 0 <= j < out@.len() implies #[trigger] self@.contains_key(out@[j]@) by {
            assert(self.data@.contains_key(self.data.key_at(j)));
        }
        out
    }
}

} // verus!
