//! The time-ordered side of the expiry index: `(instant, key)` slots kept in
//! ascending order of instant, so that the keys due by a given time are a
//! prefix.
use crate::bytes::{bytes_eq, copy_bytes};
use crate::memory::lists_keys;
use vstd::prelude::*;

verus! {

pub struct Schedule {
    slots: Vec<(u64, Vec<u8>)>,
    model: Ghost<Map<Seq<u8>, u64>>,
}

impl View for Schedule {
    type V = Map<Seq<u8>, u64>;

    closed spec fn view(&self) -> Map<Seq<u8>, u64> {
        self.model@
    }
}

impl Schedule {
    closed spec fn key_at(&self, i: int) -> Seq<u8> {
        self.slots@[i].1@
    }

    closed spec fn instant_at(&self, i: int) -> u64 {
        self.slots@[i].0
    }

    /// Slots in ascending order of instant, one per key, and exactly the
    /// keys and instants of the model.
    pub closed spec fn wf(&self) -> bool {
        &&& forall|i: int, j: int|
            0 <= i < j < self.slots@.len() ==> #[trigger] self.instant_at(i) <= #[trigger] self.instant_at(j)
        &&& forall|i: int, j: int|
            0 <= i < j < self.slots@.len() ==> #[trigger] self.key_at(i) != #[trigger] self.key_at(j)
        &&& forall|i: int|
            0 <= i < self.slots@.len() ==> #[trigger] self.model@.contains_key(self.key_at(i))
                && self.model@[self.key_at(i)] == self.instant_at(i)
        &&& forall|k: Seq<u8>|
            #[trigger] self.model@.contains_key(k) ==> exists|i: int|
                0 <= i < self.slots@.len() && #[trigger] self.key_at(i) == k
    }

    pub fn new() -> (r: Schedule)
        ensures
            r.wf(),
            r@ == Map::<Seq<u8>, u64>::empty(),
    {
        Schedule { slots: Vec::new(), model: Ghost(Map::empty()) }
    }

    fn position(&self, key: &[u8]) -> (r: Option<usize>)
        ensures
            match r {
                Some(j) => j < self.slots@.len() && self.key_at(j as int) == key@,
                None => forall|q: int| 0 <= q < self.slots@.len() ==> self.key_at(q) != key@,
            },
    {
        let mut j: usize = 0;
        while j < self.slots.len()
            invariant
                0 <= j <= self.slots@.len(),
                forall|q: int| 0 <= q < j ==> self.key_at(q) != key@,
            decreases self.slots@.len() - j,
        {
            if bytes_eq(self.slots[j].1.as_slice(), key) {
                return Some(j);
            }
            j = j + 1;
        }
        None
    }

    /// Takes the slot of `key` out, if it has one.
    pub fn remove(&mut self, key: &[u8])
        requires
            old(self).wf(),
        ensures
            final(self).wf(),
            final(self)@ == old(self)@.remove(key@),
    {
        let j = match self.position(key) {
            Some(j) => j,
            None => {
                assert(!self.model@.contains_key(key@));
                assert(self.model@.remove(key@) =~= self.model@);
                return;
            },
        };
        let ghost k = key@;
        assert(self.key_at(j as int) == k);
        let _ = self.slots.remove(j);
        self.model = Ghost(self.model@.remove(k));
        let ghost o = *old(self);
        assert forall|i: int| 0 <= i < self.slots@.len() implies #[trigger] self.key_at(i) == o.key_at(
            if i < j { i } else { i + 1 },
        ) && self.instant_at(i) == o.instant_at(if i < j { i } else { i + 1 }) by {}
        assert forall|a: int, b: int| 0 <= a < b < self.slots@.len() implies #[trigger] self.instant_at(a)
            <= #[trigger] self.instant_at(b) by {
            let oa = if a < j { a } else { a + 1 };
            let ob = if b < j { b } else { b + 1 };
            assert(o.instant_at(oa) <= o.instant_at(ob));
        }
        assert forall|a: int, b: int| 0 <= a < b < self.slots@.len() implies #[trigger] self.key_at(a)
            != #[trigger] self.key_at(b) by {
            let oa = if a < j { a } else { a + 1 };
            let ob = if b < j { b } else { b + 1 };
            assert(o.key_at(oa) != o.key_at(ob));
        }
        assert forall|i: int| 0 <= i < self.slots@.len() implies #[trigger] self.model@.contains_key(
            self.key_at(i),
        ) && self.model@[self.key_at(i)] == self.instant_at(i) by {
            let oi = if i < j { i } else { i + 1 };
            assert(o.model@.contains_key(o.key_at(oi)));
            assert(o.key_at(oi) != o.key_at(j as int));
        }
        assert forall|q: Seq<u8>| #[trigger] self.model@.contains_key(q) implies exists|i: int|
            0 <= i < self.slots@.len() && #[trigger] self.key_at(i) == q by {
            let oi = choose|oi: int| 0 <= oi < o.slots@.len() && #[trigger] o.key_at(oi) == q;
            assert(oi != j);
            let i = if oi < j { oi } else { oi - 1 };
            assert(self.key_at(i) == q);
        }
    }

    /// Gives `key` the slot of instant `at`, replacing any slot it had.
    pub fn insert(&mut self, key: &[u8], at: u64)
        requires
            old(self).wf(),
        ensures
            final(self).wf(),
            final(self)@ == old(self)@.insert(key@, at),
    {
        self.remove(key);
        let ghost o = *self;
        let mut p: usize = 0;
        while p < self.slots.len() && self.slots[p].0 <= at
            invariant
                0 <= p <= self.slots@.len(),
                forall|q: int| 0 <= q < p ==> self.instant_at(q) <= at,
            decreases self.slots@.len() - p,
        {
            p = p + 1;
        }
        let ghost k = key@;
        self.slots.insert(p, (at, copy_bytes(key)));
        self.model = Ghost(self.model@.insert(k, at));
        assert(self.key_at(p as int) == k && self.instant_at(p as int) == at);
        assert forall|i: int| 0 <= i < self.slots@.len() && i != p implies #[trigger] self.key_at(i)
            == o.key_at(if i < p { i } else { i - 1 }) && self.instant_at(i) == o.instant_at(
            if i < p { i } else { i - 1 },
        ) by {}
        assert forall|i: int| p <= i < o.slots@.len() implies #[trigger] o.instant_at(i) > at by {
            if i > p {
                assert(o.instant_at(p as int) <= o.instant_at(i));
            }
        }
        assert forall|a: int, b: int| 0 <= a < b < self.slots@.len() implies #[trigger] self.instant_at(a)
            <= #[trigger] self.instant_at(b) by {
            let oa = if a < p { a } else { a - 1 };
            let ob = if b < p { b } else { b - 1 };
            if a != p && b != p {
                assert(o.instant_at(oa) <= o.instant_at(ob));
            } else if a == p {
                assert(o.instant_at(ob) > at);
            } else {
                assert(o.instant_at(oa) <= at);
            }
        }
        assert forall|a: int, b: int| 0 <= a < b < self.slots@.len() implies #[trigger] self.key_at(a)
            != #[trigger] self.key_at(b) by {
            let oa = if a < p { a } else { a - 1 };
            let ob = if b < p { b } else { b - 1 };
            if a != p && b != p {
                assert(o.key_at(oa) != o.key_at(ob));
            } else if a == p {
                assert(o.model@.contains_key(o.key_at(ob)));
            } else {
                assert(o.model@.contains_key(o.key_at(oa)));
            }
        }
        assert forall|i: int| 0 <= i < self.slots@.len() implies #[trigger] self.model@.contains_key(
            self.key_at(i),
        ) && self.model@[self.key_at(i)] == self.instant_at(i) by {
            if i != p {
                let oi = if i < p { i } else { i - 1 };
                assert(o.model@.contains_key(o.key_at(oi)));
            }
        }
        assert forall|q: Seq<u8>| #[trigger] self.model@.contains_key(q) implies exists|i: int|
            0 <= i < self.slots@.len() && #[trigger] self.key_at(i) == q by {
            if q != k {
                let oi = choose|oi: int| 0 <= oi < o.slots@.len() && #[trigger] o.key_at(oi) == q;
                let i = if oi < p { oi } else { oi + 1 };
                assert(self.key_at(i) == q);
            }
        }
    }

    /// Takes out the slots whose instant is at or before `now` (a prefix) and
    /// lists their keys.
    pub fn take_due(&mut self, now: u64) -> (r: Vec<Vec<u8>>)
        requires
            old(self).wf(),
        ensures
            final(self).wf(),
            final(self)@ == old(self)@.restrict(Set::new(|k: Seq<u8>| old(self)@[k] > now)),
            lists_keys(r@, old(self)@.restrict(Set::new(|k: Seq<u8>| old(self)@[k] <= now))),
    {
        let ghost o = *self;
        let mut p: usize = 0;
        let mut due: Vec<Vec<u8>> = Vec::new();
        while p < self.slots.len() && self.slots[p].0 <= now
            invariant
                *self == o,
                0 <= p <= self.slots@.len(),
                due@.len() == p,
                forall|q: int| 0 <= q < p ==> self.instant_at(q) <= now,
                forall|q: int| 0 <= q < p ==> #[trigger] due@[q]@ == self.key_at(q),
            decreases self.slots@.len() - p,
        {
            due.push(copy_bytes(self.slots[p].1.as_slice()));
            p = p + 1;
        }
        assert forall|i: int| p <= i < o.slots@.len() implies #[trigger] o.instant_at(i) > now by {
            if i > p {
                assert(o.instant_at(p as int) <= o.instant_at(i));
            }
        }
        let rest = self.slots.split_off(p);
        self.slots = rest;
        let ghost keep = Set::new(|k: Seq<u8>| o.model@[k] > now);
        let ghost gone = Set::new(|k: Seq<u8>| o.model@[k] <= now);
        self.model = Ghost(o.model@.restrict(keep));
        assert forall|i: int| 0 <= i < self.slots@.len() implies #[trigger] self.key_at(i) == o.key_at(i + p)
            && self.instant_at(i) == o.instant_at(i + p) by {}
        assert forall|a: int, b: int| 0 <= a < b < self.slots@.len() implies #[trigger] self.instant_at(a)
            <= #[trigger] self.instant_at(b) by {
            assert(o.instant_at(a + p) <= o.instant_at(b + p));
        }
        assert forall|a: int, b: int| 0 <= a < b < self.slots@.len() implies #[trigger] self.key_at(a)
            != #[trigger] self.key_at(b) by {
            assert(o.key_at(a + p) != o.key_at(b + p));
        }
        assert forall|i: int| 0 <= i < self.slots@.len() implies #[trigger] self.model@.contains_key(
            self.key_at(i),
        ) && self.model@[self.key_at(i)] == self.instant_at(i) by {
            assert(o.model@.contains_key(o.key_at(i + p)));
            assert(keep.contains(o.key_at(i + p)));
        }
        assert forall|q: Seq<u8>| #[trigger] self.model@.contains_key(q) implies exists|i: int|
            0 <= i < self.slots@.len() && #[trigger] self.key_at(i) == q by {
            let oi = choose|oi: int| 0 <= oi < o.slots@.len() && #[trigger] o.key_at(oi) == q;
            assert(o.model@.contains_key(o.key_at(oi)));
            assert(oi >= p);
            assert(self.key_at(oi - p) == q);
        }
        let ghost d = o.model@.restrict(gone);
        assert forall|j: int| 0 <= j < due@.len() implies #[trigger] d.contains_key(due@[j]@) by {
            assert(o.model@.contains_key(o.key_at(j)));
        }
        assert forall|k: Seq<u8>| #[trigger] d.contains_key(k) implies exists|j: int|
            0 <= j < due@.len() && #[trigger] due@[j]@ == k by {
            let oi = choose|oi: int| 0 <= oi < o.slots@.len() && #[trigger] o.key_at(oi) == k;
            assert(o.model@.contains_key(o.key_at(oi)));
            assert(oi < p);
            assert(due@[oi]@ == k);
        }
        assert forall|a: int, b: int| 0 <= a < b < due@.len() implies #[trigger] due@[a]@ != #[trigger] due@[b]@ by {
            assert(o.key_at(a) != o.key_at(b));
        }
        due
    }
}

} // verus!
