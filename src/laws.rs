//! Properties that relate several operations, proved from their contracts.
use crate::command::{bulk_arg, flags_of, key_of, sweep_done, wires, CommandContext, SharedState};
use crate::expiry_manager::{deadline, expired_in};
use crate::handlers::{get_done, matching_keys, set_done, ttl_of, unchanged};
use crate::registry::{kind_named, CommandKind};
use crate::resp::{Resp, Wire};
use crate::server::{clean_name, dispatch_done, unknown_text};
use vstd::prelude::*;

verus! {

/// A write of key and value whose flags were accepted.
pub open spec fn accepted_write(args: Seq<Resp>) -> bool {
    &&& args.len() >= 2
    &&& bulk_arg(args[0]@) is Some
    &&& bulk_arg(args[1]@) is Some
    &&& flags_of(wires(args.subrange(2, args.len() as int))) is Ok
}

/// The time to live that an accepted write gives.
pub open spec fn write_ttl(args: Seq<Resp>) -> Option<u64> {
    ttl_of(flags_of(wires(args.subrange(2, args.len() as int)))->Ok_0)
}

/// Lazy expiry: after a write with a time to live, a read of that key at or
/// after its deadline answers null, whether or not a sweep has run.
pub proof fn law_lazy_expiry(
    set_args: Seq<Resp>,
    get_args: Seq<Resp>,
    s0: SharedState,
    s1: SharedState,
    s2: SharedState,
    c1: CommandContext,
    c2: CommandContext,
    r1: Wire,
    r2: Wire,
    t: u64,
)
    requires
        set_done(set_args, s0, s1, c1, r1),
        accepted_write(set_args),
        write_ttl(set_args) == Some(t),
        get_done(get_args, s1, s2, c2, r2),
        get_args.len() == 1,
        bulk_arg(get_args[0]@) == bulk_arg(set_args[0]@),
        c2.now_ms >= deadline(c1.now_ms, t),
    ensures
        r2 == Wire::Bulk(None),
        !s2.memory@.contains_key(key_of(set_args, 0)),
{
    let k = key_of(set_args, 0);
    assert(key_of(get_args, 0) == k);
    assert(s1.expiry_manager@ == s0.expiry_manager@.insert(k, deadline(c1.now_ms, t)));
    assert(expired_in(s1.expiry_manager@, k, c2.now_ms));
}

/// Active expiry: a sweep at or after the deadline of a key written with a
/// time to live removes it, so that no pattern lists it any more.
pub proof fn law_sweep_expiry(
    set_args: Seq<Resp>,
    s0: SharedState,
    s1: SharedState,
    s2: SharedState,
    c1: CommandContext,
    r1: Wire,
    t: u64,
    now: u64,
    pattern: Seq<u8>,
)
    requires
        set_done(set_args, s0, s1, c1, r1),
        accepted_write(set_args),
        write_ttl(set_args) == Some(t),
        sweep_done(s1, s2, now),
        now >= deadline(c1.now_ms, t),
    ensures
        !s2.memory@.contains_key(key_of(set_args, 0)),
        !matching_keys(s2.memory@, pattern).contains(key_of(set_args, 0)),
{
    let k = key_of(set_args, 0);
    assert(s1.expiry_manager@ == s0.expiry_manager@.insert(k, deadline(c1.now_ms, t)));
    assert(expired_in(s1.expiry_manager@, k, now));
}

/// Writers of distinct keys do not disturb one another: a key written
/// without a time to live reads back its own value after a write of another
/// key.
pub proof fn law_disjoint_writes(
    a1: Seq<Resp>,
    a2: Seq<Resp>,
    g: Seq<Resp>,
    s0: SharedState,
    s1: SharedState,
    s2: SharedState,
    s3: SharedState,
    c1: CommandContext,
    c2: CommandContext,
    c3: CommandContext,
    r1: Wire,
    r2: Wire,
    r3: Wire,
)
    requires
        set_done(a1, s0, s1, c1, r1),
        accepted_write(a1),
        write_ttl(a1) is None,
        set_done(a2, s1, s2, c2, r2),
        a2.len() >= 2,
        bulk_arg(a2[0]@) is Some,
        key_of(a2, 0) != key_of(a1, 0),
        get_done(g, s2, s3, c3, r3),
        g.len() == 1,
        bulk_arg(g[0]@) == bulk_arg(a1[0]@),
    ensures
        r3 == Wire::Bulk(Some(key_of(a1, 1))),
{
    let k = key_of(a1, 0);
    assert(key_of(g, 0) == k);
    assert(s1.memory@ == s0.memory@.insert(k, key_of(a1, 1)));
    assert(s1.expiry_manager@ == s0.expiry_manager@.remove(k));
    assert(s2.memory@.contains_key(k) && s2.memory@[k] == key_of(a1, 1));
    assert(!s2.expiry_manager@.contains_key(k));
}

/// A name that no handler goes by gets an error reply that quotes it, and
/// the state is left as it was.
pub proof fn law_unknown_command(
    reg: Set<CommandKind>,
    frame: Resp,
    s0: SharedState,
    s1: SharedState,
    ctx: CommandContext,
    r: Wire,
)
    requires
        dispatch_done(reg, frame, s0, s1, ctx, r),
        frame is Array,
        frame->Array_0@.len() > 0,
        bulk_arg(frame->Array_0@[0]@) is Some,
        kind_named(key_of(frame->Array_0@, 0)) is None,
    ensures
        r == Wire::Error(unknown_text(key_of(frame->Array_0@, 0))),
        unchanged(s0, s1),
        (forall|i: int|
            0 <= i < key_of(frame->Array_0@, 0).len() ==> #[trigger] key_of(frame->Array_0@, 0)[i] != 13u8
                && key_of(frame->Array_0@, 0)[i] != 10u8) ==> clean_name(key_of(frame->Array_0@, 0))
            == key_of(frame->Array_0@, 0),
{
    let name = key_of(frame->Array_0@, 0);
    if forall|i: int| 0 <= i < name.len() ==> #[trigger] name[i] != 13u8 && name[i] != 10u8 {
        assert(clean_name(name) =~= name);
    }
}

} // verus!
