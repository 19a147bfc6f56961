//! The command handlers. Each takes the arguments that follow the command
//! name, works on the shared state, and returns the reply.
use crate::bytes::copy_bytes;
use crate::command::{
    push_str,
    all_bulk, bulk_arg, check_all_bulk, err_text, error_reply, flags_of, key_of,
    parse_bulk_string_arg, parse_optional_flags, wires, CommandContext, FlagError, SetFlags,
    SharedState,
};
use crate::decimal::{push_signed, signed_text};
use crate::expiry_manager::{deadline, expired_in};
use crate::resp::{lemma_wire_items, wire_items, wire_of, Resp, Wire};
use crate::role::Role;
use vstd::prelude::*;

verus! {

/// The state is as it was.
pub open spec fn unchanged(pre: SharedState, post: SharedState) -> bool {
    post.memory@ == pre.memory@ && post.expiry_manager@ == pre.expiry_manager@
}

/// What a read of `k` sees: nothing where its deadline has come.
pub open spec fn read_value(m: Map<Seq<u8>, Seq<u8>>, e: Map<Seq<u8>, u64>, now: u64, k: Seq<u8>) -> Option<
    Seq<u8>,
> {
    if expired_in(e, k, now) {
        None
    } else if m.contains_key(k) {
        Some(m[k])
    } else {
        None
    }
}

pub open spec fn pong() -> Seq<u8> {
    seq![80u8, 79u8, 78u8, 71u8]
}

pub open spec fn ok_text() -> Seq<u8> {
    seq![79u8, 75u8]
}

fn status_reply(t: Vec<u8>) -> (r: Resp)
    ensures
        r@ == Wire::Status(t@),
{
    Resp::SimpleString(t)
}

/// What PING does: its reply `r` and the state after, from the state before.
pub open spec fn ping_done(
    args: Seq<Resp>,
    pre: SharedState,
    post: SharedState,
    ctx: CommandContext,
    r: Wire,
) -> bool {
    &&& unchanged(pre, post)
    &&& args.len() == 0 ==> r == Wire::Status(pong())
    &&& args.len() != 0 ==> r == Wire::Error(err_text("PING takes no arguments"@))
}

pub struct PingCommand;

impl PingCommand {
    pub fn name(&self) -> &'static str {
        "PING"
    }

    /// `PONG`, or an error where any argument is given.
    pub fn execute(&self, args: &[Resp], state: &mut SharedState, ctx: &CommandContext) -> (r: Resp)
        requires
            old(state).wf(),
        ensures
            final(state).wf(),
            ping_done(args@, *old(state), *final(state), *ctx, r@),
    {
        if args.len() == 0 {
            status_reply(vec![80u8, 79u8, 78u8, 71u8])
        } else {
            error_reply("PING takes no arguments")
        }
    }
}

/// What ECHO does: its reply `r` and the state after, from the state before.
pub open spec fn echo_done(
    args: Seq<Resp>,
    pre: SharedState,
    post: SharedState,
    ctx: CommandContext,
    r: Wire,
) -> bool {
    &&& unchanged(pre, post)
    &&& args.len() != 1 ==> r == Wire::Error(err_text("ECHO takes exactly one argument"@))
    &&& args.len() == 1 && bulk_arg(args[0]@) is None ==> r == Wire::Error(
            err_text("invalid ECHO argument"@),
        )
    &&& args.len() == 1 && bulk_arg(args[0]@) is Some ==> r == Wire::Bulk(bulk_arg(args[0]@))
}

pub struct EchoCommand;

impl EchoCommand {
    pub fn name(&self) -> &'static str {
        "ECHO"
    }

    /// The one argument, handed back.
    pub fn execute(&self, args: &[Resp], state: &mut SharedState, ctx: &CommandContext) -> (r: Resp)
        requires
            old(state).wf(),
        ensures
            final(state).wf(),
            echo_done(args@, *old(state), *final(state), *ctx, r@),
    {
        if args.len() != 1 {
            return error_reply("ECHO takes exactly one argument");
        }
        match parse_bulk_string_arg(&args[0]) {
            Ok(message) => Resp::BulkString(Some(message)),
            Err(_) => error_reply("invalid ECHO argument"),
        }
    }
}

/// Reads `key` as GET does: a key whose deadline has come is removed from
/// the store and the index first, and reads as absent.
fn read_key(state: &mut SharedState, key: &[u8], now: u64) -> (r: Option<Vec<u8>>)
    requires
        old(state).wf(),
    ensures
        final(state).wf(),
        match r {
            Some(v) => read_value(old(state).memory@, old(state).expiry_manager@, now, key@) == Some(v@),
            None => read_value(old(state).memory@, old(state).expiry_manager@, now, key@) is None,
        },
        expired_in(old(state).expiry_manager@, key@, now) ==> final(state).memory@ == old(
            state,
        ).memory@.remove(key@) && final(state).expiry_manager@ == old(state).expiry_manager@.remove(
            key@,
        ),
        !expired_in(old(state).expiry_manager@, key@, now) ==> unchanged(*old(state), *final(state)),
{
    if state.expiry_manager.is_expired_at(key, now) {
        state.expiry_manager.remove_expiry(key);
        state.memory.delete(key);
        None
    } else {
        state.memory.get(key)
    }
}

/// What GET does: its reply `r` and the state after, from the state before.
pub open spec fn get_done(
    args: Seq<Resp>,
    pre: SharedState,
    post: SharedState,
    ctx: CommandContext,
    r: Wire,
) -> bool {
    &&& args.len() != 1 ==> r == Wire::Error(err_text("GET takes exactly one argument"@))
            && unchanged(pre, post)
    &&& args.len() == 1 && bulk_arg(args[0]@) is None ==> r == Wire::Error(
            err_text("invalid GET key"@),
        ) && unchanged(pre, post)
    &&& args.len() == 1 && bulk_arg(args[0]@) is Some ==> ({
            let k = key_of(args, 0);
            let e0 = pre.expiry_manager@;
            &&& r == Wire::Bulk(read_value(pre.memory@, e0, ctx.now_ms, k))
            &&& expired_in(e0, k, ctx.now_ms) ==> post.memory@ == pre.memory@.remove(
                k,
            ) && post.expiry_manager@ == e0.remove(k)
            &&& !expired_in(e0, k, ctx.now_ms) ==> unchanged(pre, post)
        })
}

pub struct GetCommand;

impl GetCommand {
    pub fn name(&self) -> &'static str {
        "GET"
    }

    /// The value of the one key, or null where it is absent or its deadline
    /// has come (in which case it is removed).
    pub fn execute(&self, args: &[Resp], state: &mut SharedState, ctx: &CommandContext) -> (r: Resp)
        requires
            old(state).wf(),
        ensures
            final(state).wf(),
            get_done(args@, *old(state), *final(state), *ctx, r@),
    {
        if args.len() != 1 {
            return error_reply("GET takes exactly one argument");
        }
        match parse_bulk_string_arg(&args[0]) {
            Ok(key) => Resp::BulkString(read_key(state, key.as_slice(), ctx.now_ms)),
            Err(_) => error_reply("invalid GET key"),
        }
    }
}

/// Whether a key among the first `i` arguments is `k` and was due in `e`.
pub open spec fn swept(args: Seq<Resp>, i: int, e: Map<Seq<u8>, u64>, now: u64, k: Seq<u8>) -> bool {
    expired_in(e, k, now) && exists|j: int| 0 <= j < i && #[trigger] key_of(args, j) == k
}

/// What MGET does: its reply `r` and the state after, from the state before.
pub open spec fn mget_done(
    args: Seq<Resp>,
    pre: SharedState,
    post: SharedState,
    ctx: CommandContext,
    r: Wire,
) -> bool {
    &&& args.len() == 0 ==> r == Wire::Error(
            err_text("MGET requires at least one argument"@),
        ) && unchanged(pre, post)
    &&& args.len() > 0 && !all_bulk(args) ==> r == Wire::Error(err_text("invalid GET key"@))
            && unchanged(pre, post)
    &&& args.len() > 0 && all_bulk(args) ==> ({
            let m0 = pre.memory@;
            let e0 = pre.expiry_manager@;
            let now = ctx.now_ms;
            &&& r == Wire::Aggregate(
                Seq::new(
                    args.len(),
                    |i: int| Wire::Bulk(read_value(m0, e0, now, key_of(args, i))),
                ),
            )
            &&& forall|k: Seq<u8>| #[trigger]
                post.memory@.contains_key(k) == (m0.contains_key(k) && !swept(
                    args,
                    args.len() as int,
                    e0,
                    now,
                    k,
                ))
            &&& forall|k: Seq<u8>| #[trigger]
                post.memory@.contains_key(k) ==> post.memory@[k] == m0[k]
            &&& forall|k: Seq<u8>| #[trigger]
                post.expiry_manager@.contains_key(k) == (e0.contains_key(k) && !swept(
                    args,
                    args.len() as int,
                    e0,
                    now,
                    k,
                ))
            &&& forall|k: Seq<u8>| #[trigger]
                post.expiry_manager@.contains_key(k) ==> post.expiry_manager@[k]
                    == e0[k]
        })
}

pub struct MgetCommand;

impl MgetCommand {
    pub fn name(&self) -> &'static str {
        "mget"
    }

    /// The value of each key in order, null for an absent one; every named
    /// key whose deadline has come is removed.
    pub fn execute(&self, args: &[Resp], state: &mut SharedState, ctx: &CommandContext) -> (r: Resp)
        requires
            old(state).wf(),
        ensures
            final(state).wf(),
            mget_done(args@, *old(state), *final(state), *ctx, r@),
    {
        if args.len() == 0 {
            return error_reply("MGET requires at least one argument");
        }
        if !check_all_bulk(args) {
            return error_reply("invalid GET key");
        }
        let ghost m0 = state.memory@;
        let ghost e0 = state.expiry_manager@;
        let now = ctx.now_ms;
        let mut results: Vec<Resp> = Vec::new();
        let mut i: usize = 0;
        while i < args.len()
            invariant
                state.wf(),
                all_bulk(args@),
                0 <= i <= args@.len(),
                results@.len() == i,
                forall|j: int|
                    0 <= j < i ==> #[trigger] results@[j]@ == Wire::Bulk(
                        read_value(m0, e0, now, key_of(args@, j)),
                    ),
                forall|k: Seq<u8>| #[trigger]
                    state.memory@.contains_key(k) == (m0.contains_key(k) && !swept(args@, i as int, e0, now, k)),
                forall|k: Seq<u8>| #[trigger] state.memory@.contains_key(k) ==> state.memory@[k] == m0[k],
                forall|k: Seq<u8>| #[trigger]
                    state.expiry_manager@.contains_key(k) == (e0.contains_key(k) && !swept(
                        args@,
                        i as int,
                        e0,
                        now,
                        k,
                    )),
                forall|k: Seq<u8>| #[trigger]
                    state.expiry_manager@.contains_key(k) ==> state.expiry_manager@[k] == e0[k],
            decreases args@.len() - i,
        {
            assert(bulk_arg(args@[i as int]@) is Some);
            let key = match parse_bulk_string_arg(&args[i]) {
                Ok(k) => k,
                Err(_) => {
                    return error_reply("invalid GET key");
                },
            };
            let ghost k = key@;
            let ghost pre_m = state.memory@;
            let ghost pre_e = state.expiry_manager@;
            let v = read_key(state, key.as_slice(), now);
            proof {
                assert(key_of(args@, i as int) == k);
                if swept(args@, i as int, e0, now, k) {
                    assert(!pre_e.contains_key(k));
                    assert(!pre_m.contains_key(k));
                } else {
                    assert(pre_e.contains_key(k) == e0.contains_key(k));
                }
                assert forall|q: Seq<u8>| swept(args@, i + 1, e0, now, q) == (swept(args@, i as int, e0, now, q) || (
                q == k && expired_in(e0, k, now))) by {
                    if swept(args@, i + 1, e0, now, q) && q != k {
                        let j = choose|j: int| 0 <= j < i + 1 && #[trigger] key_of(args@, j) == q;
                        assert(j < i);
                    }
                    if q == k && expired_in(e0, k, now) {
                        assert(key_of(args@, i as int) == q);
                    }
                }
            }
            results.push(Resp::BulkString(v));
            i = i + 1;
        }
        let ghost rs = results@;
        let r = Resp::Array(results);
        proof {
            lemma_wire_items(r, args@.len() as int);
            assert(r->Array_0@ == rs);
            assert forall|j: int| 0 <= j < args@.len() implies #[trigger] wire_items(r, args@.len() as int)[j]
                == Wire::Bulk(read_value(m0, e0, now, key_of(args@, j))) by {
                assert(rs.len() == args@.len());
                assert(rs[j]@ == Wire::Bulk(read_value(m0, e0, now, key_of(args@, j))));
                assert(wire_items(r, args@.len() as int)[j] == wire_of(rs[j]));
            }
            assert(wire_items(r, args@.len() as int) =~= Seq::new(
                args@.len(),
                |i: int| Wire::Bulk(read_value(m0, e0, now, key_of(args@, i))),
            ));
        }
        r
    }
}

/// The time to live that the flags give: `PX` milliseconds before `EX`
/// seconds (counted in milliseconds, saturating).
pub open spec fn ttl_of(fl: SetFlags) -> Option<u64> {
    match fl.px {
        Some(p) => Some(p),
        None => match fl.ex {
            Some(s) => Some(
                if s * 1000 > u64::MAX {
                    u64::MAX
                } else {
                    (s * 1000) as u64
                },
            ),
            None => None,
        },
    }
}

/// The message of a refused flag.
pub open spec fn flag_error_text(e: FlagError) -> Seq<u8> {
    match e {
        FlagError::Format => err_text("invalid flag format"@),
        FlagError::Value => err_text("invalid flag value"@),
        FlagError::Unknown => err_text("unknown flag"@),
    }
}

fn flag_error_reply(e: FlagError) -> (r: Resp)
    ensures
        r@ == Wire::Error(flag_error_text(e)),
{
    match e {
        FlagError::Format => error_reply("invalid flag format"),
        FlagError::Value => error_reply("invalid flag value"),
        FlagError::Unknown => error_reply("unknown flag"),
    }
}

/// What SET does: its reply `r` and the state after, from the state before.
pub open spec fn set_done(
    args: Seq<Resp>,
    pre: SharedState,
    post: SharedState,
    ctx: CommandContext,
    r: Wire,
) -> bool {
    &&& args.len() < 2 ==> r == Wire::Error(
            err_text("SET requires at least key and value arguments"@),
        ) && unchanged(pre, post)
    &&& args.len() >= 2 && (bulk_arg(args[0]@) is None || bulk_arg(args[1]@) is None) ==> r
            == Wire::Error(err_text("invalid SET key"@)) && unchanged(pre, post)
    &&& args.len() >= 2 && bulk_arg(args[0]@) is Some && bulk_arg(args[1]@) is Some ==> ({
            let k = key_of(args, 0);
            let v = key_of(args, 1);
            let e0 = pre.expiry_manager@;
            match flags_of(wires(args.subrange(2, args.len() as int))) {
                Err(fe) => r == Wire::Error(flag_error_text(fe)) && unchanged(pre, post),
                Ok(fl) => {
                    &&& r == Wire::Status(ok_text())
                    &&& post.memory@ == pre.memory@.insert(k, v)
                    &&& post.expiry_manager@ == match ttl_of(fl) {
                        Some(t) => e0.insert(k, deadline(ctx.now_ms, t)),
                        None => e0.remove(k),
                    }
                },
            }
        })
}

pub struct SetCommand;

impl SetCommand {
    pub fn name(&self) -> &'static str {
        "SET"
    }

    /// Stores the value under the key. With a `PX` or `EX` flag the key gets
    /// that time to live; without, any deadline it had is cleared.
    pub fn execute(&self, args: &[Resp], state: &mut SharedState, ctx: &CommandContext) -> (r: Resp)
        requires
            old(state).wf(),
        ensures
            final(state).wf(),
            set_done(args@, *old(state), *final(state), *ctx, r@),
    {
        if args.len() < 2 {
            return error_reply("SET requires at least key and value arguments");
        }
        let key = match parse_bulk_string_arg(&args[0]) {
            Ok(k) => k,
            Err(_) => {
                return error_reply("invalid SET key");
            },
        };
        let value = match parse_bulk_string_arg(&args[1]) {
            Ok(v) => v,
            Err(_) => {
                return error_reply("invalid SET key");
            },
        };
        let (_, rest) = args.split_at(2);
        let flags = match parse_optional_flags(rest) {
            Ok(fl) => fl,
            Err(fe) => {
                return flag_error_reply(fe);
            },
        };
        let ttl: Option<u64> = match flags.px {
            Some(p) => Some(p),
            None => match flags.ex {
                Some(s) => Some(
                    if s > 18446744073709551u64 {
                        u64::MAX
                    } else {
                        s * 1000
                    },
                ),
                None => None,
            },
        };
        let ghost k = key@;
        match ttl {
            Some(t) => state.expiry_manager.set_expiry_at(key.as_slice(), t, ctx.now_ms),
            None => state.expiry_manager.remove_expiry(key.as_slice()),
        }
        state.memory.set(key, value);
        status_reply(vec![79u8, 75u8])
    }
}

/// How many of the first `n` argument keys are in `m` and not named before.
pub open spec fn del_count(args: Seq<Resp>, n: int, m: Map<Seq<u8>, Seq<u8>>) -> nat
    decreases n,
{
    if n <= 0 {
        0
    } else {
        del_count(args, n - 1, m) + if m.contains_key(key_of(args, n - 1)) && forall|j: int|
            0 <= j < n - 1 ==> #[trigger] key_of(args, j) != key_of(args, n - 1) {
            1nat
        } else {
            0nat
        }
    }
}

/// Whether one of the first `n` argument keys is `k`.
pub open spec fn named(args: Seq<Resp>, n: int, k: Seq<u8>) -> bool {
    exists|j: int| 0 <= j < n && #[trigger] key_of(args, j) == k
}

/// What DEL does: its reply `r` and the state after, from the state before.
pub open spec fn del_done(
    args: Seq<Resp>,
    pre: SharedState,
    post: SharedState,
    ctx: CommandContext,
    r: Wire,
) -> bool {
    &&& args.len() == 0 ==> r == Wire::Error(
            err_text("DEL requires at least one argument"@),
        ) && unchanged(pre, post)
    &&& args.len() > 0 && !all_bulk(args) ==> r == Wire::Error(err_text("invalid DEL key"@))
            && unchanged(pre, post)
    &&& args.len() > 0 && all_bulk(args) ==> ({
            let n = args.len() as int;
            &&& r == Wire::Integer(
                if del_count(args, n, pre.memory@) > i64::MAX {
                    i64::MAX as int
                } else {
                    del_count(args, n, pre.memory@) as int
                },
            )
            &&& forall|k: Seq<u8>| #[trigger]
                post.memory@.contains_key(k) == (pre.memory@.contains_key(k) && !named(
                    args,
                    n,
                    k,
                ))
            &&& forall|k: Seq<u8>| #[trigger]
                post.memory@.contains_key(k) ==> post.memory@[k] == pre.memory@[k]
            &&& forall|k: Seq<u8>| #[trigger]
                post.expiry_manager@.contains_key(k) == (pre.expiry_manager@.contains_key(k) && !named(args, n, k))
            &&& forall|k: Seq<u8>| #[trigger]
                post.expiry_manager@.contains_key(k) ==> post.expiry_manager@[k]
                    == pre.expiry_manager@[k]
        })
}

pub struct DelCommand;

impl DelCommand {
    pub fn name(&self) -> &'static str {
        "DEL"
    }

    /// Removes every named key with its deadline; the reply counts the keys
    /// that were there.
    pub fn execute(&self, args: &[Resp], state: &mut SharedState, ctx: &CommandContext) -> (r: Resp)
        requires
            old(state).wf(),
        ensures
            final(state).wf(),
            del_done(args@, *old(state), *final(state), *ctx, r@),
    {
        if args.len() == 0 {
            return error_reply("DEL requires at least one argument");
        }
        if !check_all_bulk(args) {
            return error_reply("invalid DEL key");
        }
        let ghost m0 = state.memory@;
        let ghost e0 = state.expiry_manager@;
        let mut count: u64 = 0;
        let mut i: usize = 0;
        while i < args.len()
            invariant
                state.wf(),
                all_bulk(args@),
                0 <= i <= args@.len(),
                count == del_count(args@, i as int, m0),
                count <= i,
                forall|k: Seq<u8>| #[trigger]
                    state.memory@.contains_key(k) == (m0.contains_key(k) && !named(args@, i as int, k)),
                forall|k: Seq<u8>| #[trigger] state.memory@.contains_key(k) ==> state.memory@[k] == m0[k],
                forall|k: Seq<u8>| #[trigger]
                    state.expiry_manager@.contains_key(k) == (e0.contains_key(k) && !named(args@, i as int, k)),
                forall|k: Seq<u8>| #[trigger]
                    state.expiry_manager@.contains_key(k) ==> state.expiry_manager@[k] == e0[k],
            decreases args@.len() - i,
        {
            assert(bulk_arg(args@[i as int]@) is Some);
            let key = match parse_bulk_string_arg(&args[i]) {
                Ok(k) => k,
                Err(_) => {
                    return error_reply("invalid DEL key");
                },
            };
            let ghost k = key@;
            proof {
                assert(key_of(args@, i as int) == k);
                assert forall|q: Seq<u8>| named(args@, i + 1, q) == (named(args@, i as int, q) || q == k) by {
                    if named(args@, i + 1, q) && q != k {
                        let j = choose|j: int| 0 <= j < i + 1 && #[trigger] key_of(args@, j) == q;
                        assert(j < i);
                    }
                    if q == k {
                        assert(key_of(args@, i as int) == q);
                    }
                }
                assert(named(args@, i as int, k) == !(forall|j: int|
                    0 <= j < i ==> #[trigger] key_of(args@, j) != key_of(args@, i as int)));
            }
            if state.memory.delete(key.as_slice()).is_some() {
                count = count + 1;
            }
            state.expiry_manager.remove_expiry(key.as_slice());
            i = i + 1;
        }
        let n: i64 = if count > 9223372036854775807u64 {
            9223372036854775807i64
        } else {
            count as i64
        };
        Resp::Integer(n)
    }
}

/// What glob pattern matching of `name` against `pattern` answers (both read
/// as UTF-8; text that is no UTF-8 matches nothing).
pub uninterp spec fn glob_match(pattern: Seq<u8>, name: Seq<u8>) -> bool;

/// Relies on glob::Pattern::new and glob::Pattern::matches (default options),
/// after std::str::from_utf8 on both arguments: the answer depends on the
/// pattern and the name alone; a pattern that does not compile, or text that
/// is no UTF-8, matches nothing.
#[verifier::external_body]
fn glob_matches(pattern: &[u8], name: &[u8]) -> (r: bool)
    ensures
        r == glob_match(pattern@, name@),
{
    match (std::str::from_utf8(pattern), std::str::from_utf8(name)) {
        (Ok(p), Ok(n)) => glob::Pattern::new(p).map_or(false, |g| g.matches(n)),
        _ => false,
    }
}

/// `ws` lists, as present bulk values, exactly the members of `s`, each once.
pub open spec fn lists_bulks(ws: Seq<Wire>, s: Set<Seq<u8>>) -> bool {
    &&& forall|i: int| 0 <= i < ws.len() ==> #[trigger] ws[i] is Bulk && ws[i]->Bulk_0 is Some
        && s.contains(ws[i]->Bulk_0->Some_0)
    &&& forall|k: Seq<u8>| #[trigger] s.contains(k) ==> exists|i: int| 0 <= i < ws.len() && #[trigger] ws[i] == Wire::Bulk(Some(k))
    &&& forall|a: int, b: int| 0 <= a < b < ws.len() ==> #[trigger] ws[a] != #[trigger] ws[b]
}

/// The keys of `m` that match `pattern`.
pub open spec fn matching_keys(m: Map<Seq<u8>, Seq<u8>>, pattern: Seq<u8>) -> Set<Seq<u8>> {
    m.dom().filter(|k: Seq<u8>| glob_match(pattern, k))
}

/// What KEYS does: its reply `r` and the state after, from the state before.
pub open spec fn keys_done(
    args: Seq<Resp>,
    pre: SharedState,
    post: SharedState,
    ctx: CommandContext,
    r: Wire,
) -> bool {
    &&& unchanged(pre, post)
    &&& args.len() != 1 ==> r == Wire::Error(err_text("KEYS requires exactly one argument"@))
    &&& args.len() == 1 && bulk_arg(args[0]@) is None ==> r == Wire::Error(
            err_text("invalid pattern format"@),
        )
    &&& args.len() == 1 && bulk_arg(args[0]@) is Some ==> r is Aggregate && lists_bulks(
            r->Aggregate_0,
            matching_keys(pre.memory@, key_of(args, 0)),
        )
}

pub struct KeysCommand;

impl KeysCommand {
    pub fn name(&self) -> &'static str {
        "KEYS"
    }

    /// Every key of the store that matches the one glob pattern, in no
    /// particular order.
    pub fn execute(&self, args: &[Resp], state: &mut SharedState, ctx: &CommandContext) -> (r: Resp)
        requires
            old(state).wf(),
        ensures
            final(state).wf(),
            keys_done(args@, *old(state), *final(state), *ctx, r@),
    {
        if args.len() != 1 {
            return error_reply("KEYS requires exactly one argument");
        }
        let pattern = match parse_bulk_string_arg(&args[0]) {
            Ok(p) => p,
            Err(_) => {
                return error_reply("invalid pattern format");
            },
        };
        let all = state.memory.keys();
        let mut matched: Vec<bool> = Vec::new();
        let mut i: usize = 0;
        while i < all.len()
            invariant
                0 <= i <= all@.len(),
                matched@.len() == i,
                forall|t: int| 0 <= t < i ==> #[trigger] matched@[t] == glob_match(pattern@, all@[t]@),
            decreases all@.len() - i,
        {
            matched.push(glob_matches(pattern.as_slice(), all[i].as_slice()));
            i = i + 1;
        }
        let ghost s = matching_keys(state.memory@, pattern@);
        let ghost chosen = Set::new(
            |k: Seq<u8>| exists|t: int| 0 <= t < all@.len() && matched@[t] && #[trigger] all@[t]@ == k,
        );
        proof {
            assert forall|k: Seq<u8>| chosen.contains(k) == s.contains(k) by {
                if s.contains(k) {
                    let t = choose|t: int| 0 <= t < all@.len() && #[trigger] all@[t]@ == k;
                    assert(matched@[t]);
                }
            }
            assert(chosen =~= s);
        }
        select_keys(&all, &matched)
    }
}

/// The reply listing, each once, the keys whose entry in `matched` is true.
pub fn select_keys(keys: &Vec<Vec<u8>>, matched: &Vec<bool>) -> (r: Resp)
    requires
        matched@.len() == keys@.len(),
        forall|a: int, b: int| 0 <= a < b < keys@.len() ==> #[trigger] keys@[a]@ != #[trigger] keys@[b]@,
    ensures
        r@ is Aggregate,
        lists_bulks(
            r@->Aggregate_0,
            Set::new(
                |k: Seq<u8>|
                    exists|t: int| 0 <= t < keys@.len() && matched@[t] && #[trigger] keys@[t]@ == k,
            ),
        ),
{
    let ghost s = Set::new(
        |k: Seq<u8>| exists|t: int| 0 <= t < keys@.len() && matched@[t] && #[trigger] keys@[t]@ == k,
    );
    let mut out: Vec<Resp> = Vec::new();
    let ghost mut from: Seq<int> = Seq::empty();
    let mut i: usize = 0;
    while i < keys.len()
        invariant
            matched@.len() == keys@.len(),
            0 <= i <= keys@.len(),
            out@.len() == from.len(),
            forall|j: int| 0 <= j < from.len() ==> 0 <= #[trigger] from[j] < i,
            forall|a: int, b: int| 0 <= a < b < from.len() ==> #[trigger] from[a] < #[trigger] from[b],
            forall|j: int| 0 <= j < out@.len() ==> #[trigger] out@[j]@ == Wire::Bulk(Some(keys@[from[j]]@)),
            forall|j: int| 0 <= j < out@.len() ==> #[trigger] matched@[from[j]],
            forall|t: int| 0 <= t < i && matched@[t] ==> exists|j: int|
                0 <= j < from.len() && #[trigger] from[j] == t,
        decreases keys@.len() - i,
    {
        let ghost old_from = from;
        if matched[i] {
            proof {
                from = from.push(i as int);
            }
            out.push(Resp::BulkString(Some(copy_bytes(keys[i].as_slice()))));
        }
        proof {
            assert forall|t: int| 0 <= t < i + 1 && matched@[t] implies exists|j: int|
                0 <= j < from.len() && #[trigger] from[j] == t by {
                if t == i {
                    assert(from[from.len() - 1] == t);
                } else {
                    let j = choose|j: int| 0 <= j < old_from.len() && #[trigger] old_from[j] == t;
                    assert(from[j] == t);
                }
            }
        }
        i = i + 1;
    }
    let r = Resp::Array(out);
    proof {
        lemma_wire_items(r, out@.len() as int);
        let ws = r@->Aggregate_0;
        assert forall|x: int| 0 <= x < ws.len() implies #[trigger] ws[x] is Bulk && ws[x]->Bulk_0 is Some
            && s.contains(ws[x]->Bulk_0->Some_0) by {
            assert(ws[x] == out@[x]@);
            assert(matched@[from[x]]);
        }
        assert forall|k: Seq<u8>| #[trigger] s.contains(k) implies exists|x: int|
            0 <= x < ws.len() && #[trigger] ws[x] == Wire::Bulk(Some(k)) by {
            let t = choose|t: int| 0 <= t < keys@.len() && matched@[t] && #[trigger] keys@[t]@ == k;
            let x = choose|x: int| 0 <= x < from.len() && #[trigger] from[x] == t;
            assert(ws[x] == out@[x]@);
        }
        assert forall|a: int, b: int| 0 <= a < b < ws.len() implies #[trigger] ws[a] != #[trigger] ws[b] by {
            assert(ws[a] == out@[a]@);
            assert(ws[b] == out@[b]@);
            assert(from[a] < from[b]);
        }
    }
    r
}

/// The text that INFO gives for a role.
pub open spec fn info_text(role: Role) -> Seq<u8> {
    let head = vstd::utf8::encode_utf8("# Replication\nrole:"@);
    match role {
        Role::Master(m) => head + vstd::utf8::encode_utf8("master\nmaster_replid:"@) + m.replid@
            + vstd::utf8::encode_utf8("\nmaster_repl_offset:"@) + signed_text(m.repl_offset as int)
            + seq![10u8],
        Role::Slave(_) => head + vstd::utf8::encode_utf8("slave\n"@),
    }
}

/// What INFO does: its reply `r` and the state after, from the state before.
pub open spec fn info_done(
    args: Seq<Resp>,
    pre: SharedState,
    post: SharedState,
    ctx: CommandContext,
    r: Wire,
) -> bool {
    &&& unchanged(pre, post)
    &&& args.len() > 1 ==> r == Wire::Error(err_text("INFO takes at most one argument"@))
    &&& args.len() <= 1 ==> r == Wire::Bulk(Some(info_text(ctx.server_meta_data.role)))
}

pub struct InfoCommand;

impl InfoCommand {
    pub fn name(&self) -> &'static str {
        "INFO"
    }

    /// The replication section: the role, and for a primary its id and
    /// offset. A section name, if given, is not looked at.
    pub fn execute(&self, args: &[Resp], state: &mut SharedState, ctx: &CommandContext) -> (r: Resp)
        requires
            old(state).wf(),
        ensures
            final(state).wf(),
            info_done(args@, *old(state), *final(state), *ctx, r@),
    {
        if args.len() > 1 {
            return error_reply("INFO takes at most one argument");
        }
        let mut out: Vec<u8> = Vec::new();
        push_str(&mut out, "# Replication\nrole:");
        match &ctx.server_meta_data.role {
            Role::Master(m) => {
                push_str(&mut out, "master\nmaster_replid:");
                let mut i: usize = 0;
                let ghost base = out@;
                while i < m.replid.len()
                    invariant
                        0 <= i <= m.replid@.len(),
                        out@ == base + m.replid@.subrange(0, i as int),
                    decreases m.replid@.len() - i,
                {
                    out.push(m.replid[i]);
                    i = i + 1;
                    assert(out@ =~= base + m.replid@.subrange(0, i as int));
                }
                assert(m.replid@.subrange(0, m.replid@.len() as int) =~= m.replid@);
                push_str(&mut out, "\nmaster_repl_offset:");
                push_signed(&mut out, m.repl_offset as i64);
                out.push(10u8);
            },
            Role::Slave(_) => {
                push_str(&mut out, "slave\n");
            },
        }
        assert(out@ =~= info_text(ctx.server_meta_data.role));
        Resp::BulkString(Some(out))
    }
}

} // verus!
