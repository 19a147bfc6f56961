//! What every command handler shares: the state it works on, its context,
//! argument helpers and error replies.
use crate::bytes::{copy_bytes, upper_byte};
use crate::decimal::{i64_of, parse_i64};
use crate::expiry_manager::{expired_in, ExpiryManager};
use crate::memory::lists_keys;
use crate::memory::Memory;
use crate::resp::{Resp, Wire};
use crate::role::Role;
use vstd::prelude::*;

verus! {

/// The store and its expiry index, which every handler works on.
pub struct SharedState {
    pub memory: Memory,
    pub expiry_manager: ExpiryManager,
}

/// What a sweep at `now` does: every key whose deadline is at or before
/// `now` leaves the index and the store; the rest stays as it was.
pub open spec fn sweep_done(pre: SharedState, post: SharedState, now: u64) -> bool {
    &&& forall|k: Seq<u8>| #[trigger]
        post.expiry_manager@.contains_key(k) == (pre.expiry_manager@.contains_key(k) && !expired_in(
            pre.expiry_manager@,
            k,
            now,
        ))
    &&& forall|k: Seq<u8>| #[trigger]
        post.expiry_manager@.contains_key(k) ==> post.expiry_manager@[k] == pre.expiry_manager@[k]
    &&& forall|k: Seq<u8>| #[trigger]
        post.memory@.contains_key(k) == (pre.memory@.contains_key(k) && !expired_in(pre.expiry_manager@, k, now))
    &&& forall|k: Seq<u8>| #[trigger] post.memory@.contains_key(k) ==> post.memory@[k] == pre.memory@[k]
}

impl SharedState {
    pub open spec fn wf(&self) -> bool {
        self.memory.wf() && self.expiry_manager.wf()
    }

    pub fn new() -> (r: SharedState)
        ensures
            r.wf(),
            r.memory@ == Map::<Seq<u8>, Seq<u8>>::empty(),
            r.expiry_manager@ == Map::<Seq<u8>, u64>::empty(),
    {
        SharedState { memory: Memory::new(), expiry_manager: ExpiryManager::new() }
    }

    /// One sweep: every key whose deadline is at or before `now` leaves the
    /// index and the store. Gives back how many keys left.
    pub fn sweep_at(&mut self, now: u64) -> (r: usize)
        requires
            old(self).wf(),
        ensures
            final(self).wf(),
            sweep_done(*old(self), *final(self), now),
    {
        let ghost e0 = self.expiry_manager@;
        let ghost m0 = self.memory@;
        let due = self.expiry_manager.cleanup_expired_at(now);
        let ghost d = e0.restrict(Set::new(|k: Seq<u8>| expired_in(e0, k, now)));
        let mut i: usize = 0;
        while i < due.len()
            invariant
                self.wf(),
                0 <= i <= due@.len(),
                lists_keys(due@, d),
                forall|k: Seq<u8>| #[trigger]
                    self.expiry_manager@.contains_key(k) == (e0.contains_key(k) && !expired_in(e0, k, now)),
                forall|k: Seq<u8>| #[trigger]
                    self.expiry_manager@.contains_key(k) ==> self.expiry_manager@[k] == e0[k],
                d == e0.restrict(Set::new(|k: Seq<u8>| expired_in(e0, k, now))),
                forall|k: Seq<u8>| #[trigger]
                    self.memory@.contains_key(k) == (m0.contains_key(k) && !(exists|q: int|
                        0 <= q < i && #[trigger] due@[q]@ == k)),
                forall|k: Seq<u8>| #[trigger] self.memory@.contains_key(k) ==> self.memory@[k] == m0[k],
            decreases due@.len() - i,
        {
            let ghost prev = self.memory@;
            self.memory.delete(due[i].as_slice());
            proof {
                let x = due@[i as int]@;
                assert forall|k: Seq<u8>| #[trigger] self.memory@.contains_key(k) == (m0.contains_key(k) && !(
                exists|q: int| 0 <= q < i + 1 && #[trigger] due@[q]@ == k)) by {
                    if k == x {
                        assert(due@[i as int]@ == k);
                    } else if exists|q: int| 0 <= q < i + 1 && #[trigger] due@[q]@ == k {
                        let q = choose|q: int| 0 <= q < i + 1 && #[trigger] due@[q]@ == k;
                        assert(q < i);
                    }
                }
                assert forall|k: Seq<u8>| #[trigger] self.memory@.contains_key(k) implies self.memory@[k]
                    == m0[k] by {
                    assert(prev.contains_key(k));
                }
            }
            i = i + 1;
        }
        proof {
            assert forall|k: Seq<u8>| #[trigger] self.memory@.contains_key(k) == (m0.contains_key(k)
                && !expired_in(e0, k, now)) by {
                if expired_in(e0, k, now) {
                    assert(d.contains_key(k));
                }
                if exists|q: int| 0 <= q < due@.len() && #[trigger] due@[q]@ == k {
                    let q = choose|q: int| 0 <= q < due@.len() && #[trigger] due@[q]@ == k;
                    assert(d.contains_key(due@[q]@));
                }
            }
        }
        due.len()
    }

    /// One sweep at the current time.
    pub fn sweep(&mut self) -> (r: usize)
        requires
            old(self).wf(),
        ensures
            final(self).wf(),
            forall|k: Seq<u8>| #[trigger]
                final(self).memory@.contains_key(k) ==> old(self).memory@.contains_key(k)
                    && final(self).memory@[k] == old(self).memory@[k],
            forall|k: Seq<u8>| #[trigger]
                final(self).memory@.contains_key(k) && old(self).expiry_manager@.contains_key(k)
                    ==> final(self).expiry_manager@.contains_key(k),
    {
        let now = ExpiryManager::get_now_ms();
        self.sweep_at(now)
    }
}

/// What the server knows of itself.
#[derive(Clone)]
pub struct ServerMetaData {
    pub role: Role,
}

/// What a handler reads besides the state: the server's description and the
/// time at which the request is served (milliseconds since the Unix epoch).
pub struct CommandContext {
    pub server_meta_data: ServerMetaData,
    pub now_ms: u64,
}

/// The payload of a present bulk value.
pub open spec fn bulk_arg(w: Wire) -> Option<Seq<u8>> {
    match w {
        Wire::Bulk(Some(p)) => Some(p),
        _ => None,
    }
}

/// The text of an error reply: `ERR ` then the message.
pub open spec fn err_text(msg: Seq<char>) -> Seq<u8> {
    seq![69u8, 82u8, 82u8, 32u8] + vstd::utf8::encode_utf8(msg)
}

/// The error reply with message `msg`.
pub fn error_reply(msg: &str) -> (r: Resp)
    ensures
        r@ == Wire::Error(err_text(msg@)),
{
    let mut out: Vec<u8> = Vec::new();
    out.push(69u8);
    out.push(82u8);
    out.push(82u8);
    out.push(32u8);
    let b = msg.as_bytes();
    let mut i: usize = 0;
    while i < b.len()
        invariant
            0 <= i <= b@.len(),
            b@ == vstd::utf8::encode_utf8(msg@),
            out@ == seq![69u8, 82u8, 82u8, 32u8] + b@.subrange(0, i as int),
        decreases b@.len() - i,
    {
        out.push(b[i]);
        i = i + 1;
        assert(out@ =~= seq![69u8, 82u8, 82u8, 32u8] + b@.subrange(0, i as int));
    }
    assert(b@.subrange(0, b@.len() as int) =~= b@);
    Resp::SimpleError(out)
}

/// The payload of an argument that is a present bulk value.
pub fn parse_bulk_string_arg(arg: &Resp) -> (r: Result<Vec<u8>, &'static str>)
    ensures
        match r {
            Ok(v) => bulk_arg(arg@) == Some(v@),
            Err(_) => bulk_arg(arg@) is None,
        },
{
    match arg {
        Resp::BulkString(Some(value)) => Ok(copy_bytes(value.as_slice())),
        _ => Err("invalid argument format"),
    }
}

/// Whether every argument is a present bulk value.
pub open spec fn all_bulk(args: Seq<Resp>) -> bool {
    forall|i: int| 0 <= i < args.len() ==> #[trigger] bulk_arg(args[i]@) is Some
}

/// The key that argument `i` names.
pub open spec fn key_of(args: Seq<Resp>, i: int) -> Seq<u8> {
    bulk_arg(args[i]@)->Some_0
}

pub fn check_all_bulk(args: &[Resp]) -> (r: bool)
    ensures
        r == all_bulk(args@),
{
    let mut i: usize = 0;
    while i < args.len()
        invariant
            0 <= i <= args@.len(),
            forall|j: int| 0 <= j < i ==> #[trigger] bulk_arg(args@[j]@) is Some,
        decreases args@.len() - i,
    {
        match &args[i] {
            Resp::BulkString(Some(_)) => {},
            _ => {
                assert(!(bulk_arg(args@[i as int]@) is Some));
                return false;
            },
        }
        i = i + 1;
    }
    true
}

/// A flag value: a decimal numeral without a minus sign that fits an `i64`.
pub open spec fn flag_value(s: Seq<u8>) -> Option<u64> {
    match i64_of(s) {
        Some(v) => if v >= 0 {
            Some(v as u64)
        } else {
            None
        },
        None => None,
    }
}

/// Whether `f` is the two-letter flag `a` `b`, in either case.
pub open spec fn is_flag(f: Seq<u8>, a: u8, b: u8) -> bool {
    f.len() == 2 && upper_byte(f[0]) == a && upper_byte(f[1]) == b
}

/// Why the flags of a write were refused.
#[derive(Debug, PartialEq, Eq, Clone, Copy, Structural)]
pub enum FlagError {
    /// A flag or its value is no present bulk value, or a flag has no value.
    Format,
    /// A value is no number.
    Value,
    /// The flag is neither `PX` nor `EX`.
    Unknown,
}

/// The expiry flags of a write: milliseconds (`PX`) and seconds (`EX`).
#[derive(Debug, PartialEq, Eq, Clone, Copy, Structural)]
pub struct SetFlags {
    pub px: Option<u64>,
    pub ex: Option<u64>,
}

/// The flags read from the first `n` flag pairs; a later pair of the same
/// flag replaces an earlier one.
pub open spec fn flags_upto(args: Seq<Wire>, n: int) -> Result<SetFlags, FlagError>
    decreases n,
{
    if n <= 0 {
        Ok(SetFlags { px: None, ex: None })
    } else {
        match flags_upto(args, n - 1) {
            Err(e) => Err(e),
            Ok(fl) => match (bulk_arg(args[2 * n - 2]), bulk_arg(args[2 * n - 1])) {
                (Some(f), Some(v)) => match flag_value(v) {
                    None => Err(FlagError::Value),
                    Some(x) => if is_flag(f, 80u8, 88u8) {
                        Ok(SetFlags { px: Some(x), ..fl })
                    } else if is_flag(f, 69u8, 88u8) {
                        Ok(SetFlags { ex: Some(x), ..fl })
                    } else {
                        Err(FlagError::Unknown)
                    },
                },
                _ => Err(FlagError::Format),
            },
        }
    }
}

/// The flags of a write, read pair by pair; a flag left without a value is
/// a format error once the pairs before it are read.
pub open spec fn flags_of(args: Seq<Wire>) -> Result<SetFlags, FlagError> {
    match flags_upto(args, (args.len() / 2) as int) {
        Err(e) => Err(e),
        Ok(fl) => if args.len() % 2 == 1 {
            Err(FlagError::Format)
        } else {
            Ok(fl)
        },
    }
}

pub open spec fn wires(args: Seq<Resp>) -> Seq<Wire> {
    args.map_values(|a: Resp| a@)
}

proof fn lemma_flags_stuck(args: Seq<Wire>, k: int, m: int)
    requires
        0 <= k <= m,
        flags_upto(args, k) is Err,
    ensures
        flags_upto(args, m) == flags_upto(args, k),
    decreases m - k,
{
    if m > k {
        lemma_flags_stuck(args, k, m - 1);
    }
}

fn flag_is(f: &[u8], a: u8, b: u8) -> (r: bool)
    ensures
        r == is_flag(f@, a, b),
{
    if f.len() != 2 {
        return false;
    }
    let x = f[0];
    let y = f[1];
    let ux: u8 = if 97 <= x && x <= 122 {
        x - 32
    } else {
        x
    };
    let uy: u8 = if 97 <= y && y <= 122 {
        y - 32
    } else {
        y
    };
    ux == a && uy == b
}

/// Reads the `PX` and `EX` flags that follow the key and value of a write.
pub fn parse_optional_flags(args: &[Resp]) -> (r: Result<SetFlags, FlagError>)
    ensures
        r == flags_of(wires(args@)),
{
    let ghost w = wires(args@);
    let len = args.len();
    let pairs = len / 2;
    let mut fl = SetFlags { px: None, ex: None };
    let mut n: usize = 0;
    while n < pairs
        invariant
            len == args@.len(),
            pairs == args@.len() / 2,
            w == wires(args@),
            w.len() == args@.len(),
            0 <= n <= pairs,
            flags_upto(w, n as int) == Ok::<SetFlags, FlagError>(fl),
        decreases pairs - n,
    {
        let fa = &args[2 * n];
        let va = &args[2 * n + 1];
        assert(w[2 * n as int] == fa@);
        assert(w[2 * n + 1] == va@);
        match (fa, va) {
            (Resp::BulkString(Some(f)), Resp::BulkString(Some(v))) => {
                match parse_i64(v.as_slice()) {
                    Some(x) => {
                        if x < 0 {
                            proof {
                                lemma_flags_stuck(w, n + 1, pairs as int);
                            }
                            return Err(FlagError::Value);
                        }
                        if flag_is(f.as_slice(), 80u8, 88u8) {
                            fl = SetFlags { px: Some(x as u64), ex: fl.ex };
                        } else if flag_is(f.as_slice(), 69u8, 88u8) {
                            fl = SetFlags { px: fl.px, ex: Some(x as u64) };
                        } else {
                            proof {
                                lemma_flags_stuck(w, n + 1, pairs as int);
                            }
                            return Err(FlagError::Unknown);
                        }
                    },
                    None => {
                        proof {
                                lemma_flags_stuck(w, n + 1, pairs as int);
                            }
                            return Err(FlagError::Value);
                    },
                }
            },
            _ => {
                proof {
                    lemma_flags_stuck(w, n + 1, pairs as int);
                }
                return Err(FlagError::Format);
            },
        }
        n = n + 1;
    }
    if args.len() % 2 == 1 {
        return Err(FlagError::Format);
    }
    Ok(fl)
}

/// Appends the UTF-8 bytes of `s`.
pub fn push_str(out: &mut Vec<u8>, s: &str)
    ensures
        final(out)@ == old(out)@ + vstd::utf8::encode_utf8(s@),
{
    let b = s.as_bytes();
    let mut i: usize = 0;
    while i < b.len()
        invariant
            0 <= i <= b@.len(),
            b@ == vstd::utf8::encode_utf8(s@),
            out@ == old(out)@ + b@.subrange(0, i as int),
        decreases b@.len() - i,
    {
        out.push(b[i]);
        i = i + 1;
        assert(out@ =~= old(out)@ + b@.subrange(0, i as int));
    }
    assert(b@.subrange(0, b@.len() as int) =~= b@);
}

} // verus!
