//! Serving a connection: from the bytes received so far to the next reply.
use crate::command::{bulk_arg, err_text, error_reply, key_of, push_str, CommandContext, SharedState};
use crate::handlers::unchanged;
use crate::registry::{kind_done, lookup, CommandRegistry};
use crate::resp::{decode_spec, encode_wire, parse_resp, Decoded, Parsed, Resp, Wire};
use vstd::prelude::*;

verus! {

/// A command name as an error reply may quote it: line breaks become blanks.
pub open spec fn clean_name(name: Seq<u8>) -> Seq<u8> {
    name.map_values(|b: u8| if b == 13u8 || b == 10u8 { 32u8 } else { b })
}

/// The text of the reply to a name that no handler goes by.
pub open spec fn unknown_text(name: Seq<u8>) -> Seq<u8> {
    err_text("unknown command '"@) + clean_name(name) + seq![39u8]
}

/// What serving one command frame does: an aggregate whose first element
/// names a registered handler runs it on the remaining elements.
pub open spec fn dispatch_done(
    reg: Set<crate::registry::CommandKind>,
    frame: Resp,
    pre: SharedState,
    post: SharedState,
    ctx: CommandContext,
    r: Wire,
) -> bool {
    match frame {
        Resp::Array(items) => if items@.len() > 0 && bulk_arg(items@[0]@) is Some {
            let name = key_of(items@, 0);
            let args = items@.subrange(1, items@.len() as int);
            match lookup(reg, name) {
                Some(k) => kind_done(k, args, pre, post, ctx, r),
                None => r == Wire::Error(unknown_text(name)) && unchanged(pre, post),
            }
        } else {
            r == Wire::Error(err_text("invalid command format"@)) && unchanged(pre, post)
        },
        _ => r == Wire::Error(err_text("invalid command format"@)) && unchanged(pre, post),
    }
}

fn unknown_command_reply(name: &Vec<u8>) -> (r: Resp)
    ensures
        r@ == Wire::Error(unknown_text(name@)),
{
    let mut out: Vec<u8> = Vec::new();
    out.push(69u8);
    out.push(82u8);
    out.push(82u8);
    out.push(32u8);
    push_str(&mut out, "unknown command '");
    let ghost head = out@;
    let mut i: usize = 0;
    while i < name.len()
        invariant
            0 <= i <= name@.len(),
            out@ == head + clean_name(name@.subrange(0, i as int)),
        decreases name@.len() - i,
    {
        let b = name[i];
        out.push(if b == 13u8 || b == 10u8 { 32u8 } else { b });
        i = i + 1;
        assert(out@ =~= head + clean_name(name@.subrange(0, i as int)));
    }
    assert(name@.subrange(0, name@.len() as int) =~= name@);
    out.push(39u8);
    assert(out@ =~= unknown_text(name@));
    Resp::SimpleError(out)
}

/// Serves one command frame.
pub fn dispatch(registry: &CommandRegistry, frame: &Resp, state: &mut SharedState, ctx: &CommandContext) -> (r: Resp)
    requires
        old(state).wf(),
    ensures
        final(state).wf(),
        dispatch_done(registry@, *frame, *old(state), *final(state), *ctx, r@),
{
    match frame {
        Resp::Array(items) => {
            if items.len() == 0 {
                return error_reply("invalid command format");
            }
            match &items[0] {
                Resp::BulkString(Some(name)) => {
                    let (_, args) = items.as_slice().split_at(1);
                    match registry.get_command(name.as_slice()) {
                        Some(k) => k.execute(args, state, ctx),
                        None => unknown_command_reply(name),
                    }
                },
                _ => error_reply("invalid command format"),
            }
        },
        _ => error_reply("invalid command format"),
    }
}

/// What to do with the bytes received so far.
#[derive(Debug, PartialEq, Eq)]
pub enum Step {
    /// Send these bytes, then drop the given number of bytes from the input.
    Reply(Vec<u8>, usize),
    /// Read more bytes first.
    Wait,
    /// Send these bytes, then close the connection: the input is no protocol.
    Close(Vec<u8>),
}

/// Decodes the first frame of `input`, serves it, and says what to send.
pub fn serve_input(registry: &CommandRegistry, input: &[u8], state: &mut SharedState, ctx: &CommandContext) -> (r: Step)
    requires
        old(state).wf(),
    ensures
        final(state).wf(),
        match decode_spec(input@) {
            Parsed::Incomplete => r is Wait && unchanged(*old(state), *final(state)),
            Parsed::Invalid => r matches Step::Close(b) && b@ == encode_wire(
                Wire::Error(err_text("invalid input"@)),
            ) && unchanged(*old(state), *final(state)),
            Parsed::Done(w, e) => r matches Step::Reply(b, used) && used == e && exists|
                f: Resp,
                reply: Wire,
            |
                f@ == w && b@ == encode_wire(reply) && #[trigger] dispatch_done(
                    registry@,
                    f,
                    *old(state),
                    *final(state),
                    *ctx,
                    reply,
                ),
        },
{
    match parse_resp(input) {
        Decoded::Frame(frame, used) => {
            let reply = dispatch(registry, &frame, state, ctx);
            let bytes = reply.encode();
            proof {
                assert(dispatch_done(registry@, frame, *old(state), *state, *ctx, reply@));
            }
            Step::Reply(bytes, used)
        },
        Decoded::NeedMore => Step::Wait,
        Decoded::Invalid => {
            let reply = error_reply("invalid input");
            Step::Close(reply.encode())
        },
    }
}

} // verus!
