//! Deadlines of keys that expire, and the sweep that removes those due.
use crate::memory::lists_keys;
use crate::schedule::Schedule;
use crate::table::KeyTable;
use std::time::{SystemTime, UNIX_EPOCH};
use vstd::prelude::*;

verus! {

/// The deadline of a key given a time to live of `ttl` milliseconds at `now`
/// (milliseconds since the Unix epoch); saturates at the largest instant.
pub open spec fn deadline(now: u64, ttl: u64) -> u64 {
    if now + ttl > u64::MAX {
        u64::MAX
    } else {
        (now + ttl) as u64
    }
}

/// Whether `key` has a deadline that `now` has reached.
pub open spec fn expired_in(m: Map<Seq<u8>, u64>, key: Seq<u8>, now: u64) -> bool {
    m.contains_key(key) && m[key] <= now
}

/// Relies on std::time::SystemTime::now: the wall clock in milliseconds since
/// the Unix epoch (0 for a clock set before it). Nothing is known of the value.
#[verifier::external_body]
fn now_ms() -> (r: u64) {
    SystemTime::now().duration_since(UNIX_EPOCH).map(|d| d.as_millis() as u64).unwrap_or(0)
}

/// The expiry index: each key's deadline, and the same deadlines in a
/// schedule ordered by instant, which the sweep reads from the front.
pub struct ExpiryManager {
    deadlines: KeyTable<u64>,
    schedule: Schedule,
}

impl View for ExpiryManager {
    type V = Map<Seq<u8>, u64>;

    closed spec fn view(&self) -> Map<Seq<u8>, u64> {
        self.deadlines@
    }
}

impl ExpiryManager {
    pub closed spec fn wf(&self) -> bool {
        &&& self.deadlines.wf()
        &&& self.schedule.wf()
        &&& self.schedule@ == self.deadlines@
    }

    pub fn new() -> (r: ExpiryManager)
        ensures
            r.wf(),
            r@ == Map::<Seq<u8>, u64>::empty(),
    {
        ExpiryManager { deadlines: KeyTable::new(), schedule: Schedule::new() }
    }

    /// Gives `key` the deadline `now + ttl_ms`, replacing any earlier one.
    pub fn set_expiry_at(&mut self, key: &[u8], ttl_ms: u64, now: u64)
        requires
            old(self).wf(),
        ensures
            final(self).wf(),
            final(self)@ == old(self)@.insert(key@, deadline(now, ttl_ms)),
    {
        let at: u64 = now.saturating_add(ttl_ms);
        self.deadlines.insert(crate::bytes::copy_bytes(key), at);
        self.schedule.insert(key, at);
    }

    /// Gives `key` a deadline `ttl_ms` from the current time.
    pub fn set_expiry(&mut self, key: &[u8], ttl_ms: u64)
        requires
            old(self).wf(),
        ensures
            final(self).wf(),
            final(self)@.contains_key(key@),
            final(self)@[key@] >= ttl_ms,
            final(self)@.remove(key@) == old(self)@.remove(key@),
    {
        let now = Self::get_now_ms();
        self.set_expiry_at(key, ttl_ms, now);
        assert(self@.remove(key@) =~= old(self)@.remove(key@));
    }

    /// Clears the deadline of `key`; nothing happens where it has none.
    pub fn remove_expiry(&mut self, key: &[u8])
        requires
            old(self).wf(),
        ensures
            final(self).wf(),
            final(self)@ == old(self)@.remove(key@),
    {
        self.deadlines.remove(key);
        self.schedule.remove(key);
    }

    /// The current time, in milliseconds since the Unix epoch.
    pub fn get_now_ms() -> u64 {
        now_ms()
    }

    /// Whether `key` has a deadline at or before `now`.
    pub fn is_expired_at(&self, key: &[u8], now: u64) -> (r: bool)
        requires
            self.wf(),
        ensures
            r == expired_in(self@, key@, now),
    {
        match self.deadlines.get(key) {
            Some(t) => *t <= now,
            None => false,
        }
    }

    /// Whether `key` has a deadline that the current time has reached.
    pub fn is_expired(&self, key: &[u8]) -> (r: bool)
        requires
            self.wf(),
        ensures
            r ==> self@.contains_key(key@),
    {
        let now = Self::get_now_ms();
        self.is_expired_at(key, now)
    }

    /// Removes every key whose deadline is at or before `now`, and lists them.
    pub fn cleanup_expired_at(&mut self, now: u64) -> (r: Vec<Vec<u8>>)
        requires
            old(self).wf(),
        ensures
            final(self).wf(),
            forall|k: Seq<u8>|
                #[trigger] final(self)@.contains_key(k) == (old(self)@.contains_key(k) && old(self)@[k] > now),
            forall|k: Seq<u8>| #[trigger] final(self)@.contains_key(k) ==> final(self)@[k] == old(self)@[k],
            lists_keys(r@, old(self)@.restrict(Set::new(|k: Seq<u8>| expired_in(old(self)@, k, now)))),
    {
        let ghost m0 = self@;
        let ghost due = m0.restrict(Set::new(|k: Seq<u8>| expired_in(m0, k, now)));
        let found = self.schedule.take_due(now);
        assert(m0.restrict(Set::new(|k: Seq<u8>| m0[k] <= now)) =~= due);
        let ghost kept = self.schedule@;
        assert(kept =~= m0.restrict(Set::new(|k: Seq<u8>| m0[k] > now)));
        // Take them out one by one.
        let mut j: usize = 0;
        while j < found.len()
            invariant
                self.deadlines.wf(),
                self.schedule.wf(),
                self.schedule@ == kept,
                kept == m0.restrict(Set::new(|k: Seq<u8>| m0[k] > now)),
                0 <= j <= found@.len(),
                lists_keys(found@, due),
                forall|k: Seq<u8>|
                    #[trigger] self@.contains_key(k) == (m0.contains_key(k) && !(exists|q: int|
                        0 <= q < j && #[trigger] found@[q]@ == k)),
                forall|k: Seq<u8>| #[trigger] self@.contains_key(k) ==> self@[k] == m0[k],
            decreases found@.len() - j,
        {
            let ghost prev = self@;
            self.deadlines.remove(found[j].as_slice());
            assert(self@ == self.deadlines@);
            proof {
                let x = found@[j as int]@;
                assert forall|k: Seq<u8>| #[trigger] self@.contains_key(k) == (m0.contains_key(k) && !(exists|q: int|
                    0 <= q < j + 1 && #[trigger] found@[q]@ == k)) by {
                    if k == x {
                        assert(found@[j as int]@ == k);
                    } else if exists|q: int| 0 <= q < j + 1 && #[trigger] found@[q]@ == k {
                        let q = choose|q: int| 0 <= q < j + 1 && #[trigger] found@[q]@ == k;
                        assert(q < j);
                    }
                }
                assert forall|k: Seq<u8>| #[trigger] self@.contains_key(k) implies self@[k] == m0[k] by {
                    assert(prev.contains_key(k));
                }
            }
            j = j + 1;
        }
        assert forall|k: Seq<u8>| #[trigger] self@.contains_key(k) == (m0.contains_key(k) && m0[k] > now) by {
            if m0.contains_key(k) && m0[k] <= now {
                assert(due.contains_key(k));
            }
            if exists|q: int| 0 <= q < found@.len() && #[trigger] found@[q]@ == k {
                let q = choose|q: int| 0 <= q < found@.len() && #[trigger] found@[q]@ == k;
                assert(due.contains_key(found@[q]@));
            }
        }
        assert forall|k: Seq<u8>| #[trigger] kept.contains_key(k) == (m0.contains_key(k) && m0[k] > now) by {
            assert(Set::new(|q: Seq<u8>| m0[q] > now).contains(k) == (m0[k] > now));
        }
        assert forall|k: Seq<u8>| #[trigger] kept.contains_key(k) implies kept[k] == m0[k] by {}
        assert forall|k: Seq<u8>| #[trigger] self.deadlines@.contains_key(k) == kept.contains_key(k) by {
            assert(self@.contains_key(k) == (m0.contains_key(k) && m0[k] > now));
        }
        assert forall|k: Seq<u8>| #[trigger] self.deadlines@.contains_key(k) implies self.deadlines@[k]
            == kept[k] by {
            assert(self@.contains_key(k));
            assert(self@[k] == m0[k]);
        }
        assert(self.deadlines@ =~= kept);
        found
    }

    /// Removes every key whose deadline the current time has reached, and
    /// lists them.
    pub fn cleanup_expired_keys(&mut self) -> (r: Vec<Vec<u8>>)
        requires
            old(self).wf(),
        ensures
            final(self).wf(),
            forall|k: Seq<u8>| #[trigger] final(self)@.contains_key(k) ==> old(self)@.contains_key(k)
                && final(self)@[k] == old(self)@[k],
            forall|j: int| 0 <= j < r@.len() ==> #[trigger] old(self)@.contains_key(r@[j]@)
                && !final(self)@.contains_key(r@[j]@),
    {
        let now = Self::get_now_ms();
        let r = self.cleanup_expired_at(now);
        proof {
            assert forall|j: int| 0 <= j < r@.len() implies #[trigger] old(self)@.contains_key(r@[j]@)
                && !self@.contains_key(r@[j]@) by {
                assert(old(self)@.restrict(Set::new(|k: Seq<u8>| expired_in(old(self)@, k, now))).contains_key(r@[j]@));
            }
        }
        r
    }
}

} // verus!
