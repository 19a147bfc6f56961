//! The command registry: command names, matched without regard to case, and
//! the handler each one runs.
use crate::bytes::{bytes_eq_ignore_case, eq_ignore_case, upper_byte};
use crate::command::{CommandContext, SharedState};
use crate::handlers::{
    del_done, echo_done, get_done, info_done, keys_done, mget_done, ping_done, set_done, DelCommand,
    EchoCommand, GetCommand, InfoCommand, KeysCommand, MgetCommand, PingCommand, SetCommand,
};
use crate::resp::{Resp, Wire};
use vstd::prelude::*;

verus! {

/// The handlers there are.
#[derive(Debug, Clone, Copy, PartialEq, Eq, Structural)]
pub enum CommandKind {
    Ping,
    Echo,
    Get,
    Mget,
    SetKey,
    Del,
    Keys,
    Info,
}

/// The name of a handler, in upper case.
pub open spec fn kind_name(k: CommandKind) -> Seq<u8> {
    match k {
        CommandKind::Ping => seq![80u8, 73u8, 78u8, 71u8],
        CommandKind::Echo => seq![69u8, 67u8, 72u8, 79u8],
        CommandKind::Get => seq![71u8, 69u8, 84u8],
        CommandKind::Mget => seq![77u8, 71u8, 69u8, 84u8],
        CommandKind::SetKey => seq![83u8, 69u8, 84u8],
        CommandKind::Del => seq![68u8, 69u8, 76u8],
        CommandKind::Keys => seq![75u8, 69u8, 89u8, 83u8],
        CommandKind::Info => seq![73u8, 78u8, 70u8, 79u8],
    }
}

/// The handler that a name denotes, whatever its case.
pub open spec fn kind_named(name: Seq<u8>) -> Option<CommandKind> {
    if eq_ignore_case(name, kind_name(CommandKind::Ping)) {
        Some(CommandKind::Ping)
    } else if eq_ignore_case(name, kind_name(CommandKind::Echo)) {
        Some(CommandKind::Echo)
    } else if eq_ignore_case(name, kind_name(CommandKind::Get)) {
        Some(CommandKind::Get)
    } else if eq_ignore_case(name, kind_name(CommandKind::Mget)) {
        Some(CommandKind::Mget)
    } else if eq_ignore_case(name, kind_name(CommandKind::SetKey)) {
        Some(CommandKind::SetKey)
    } else if eq_ignore_case(name, kind_name(CommandKind::Del)) {
        Some(CommandKind::Del)
    } else if eq_ignore_case(name, kind_name(CommandKind::Keys)) {
        Some(CommandKind::Keys)
    } else if eq_ignore_case(name, kind_name(CommandKind::Info)) {
        Some(CommandKind::Info)
    } else {
        None
    }
}

/// No name denotes two handlers.
pub proof fn lemma_kind_named(name: Seq<u8>, k: CommandKind)
    requires
        eq_ignore_case(name, kind_name(k)),
    ensures
        kind_named(name) == Some(k),
{
    let n = kind_name(k);
    assert(upper_byte(name[0]) == upper_byte(n[0]));
    assert(upper_byte(name[1]) == upper_byte(n[1]));
    assert(upper_byte(name[2]) == upper_byte(n[2]));
    if n.len() == 4 {
        assert(upper_byte(name[3]) == upper_byte(n[3]));
    }
}

/// What running handler `k` does.
pub open spec fn kind_done(
    k: CommandKind,
    args: Seq<Resp>,
    pre: SharedState,
    post: SharedState,
    ctx: CommandContext,
    r: Wire,
) -> bool {
    match k {
        CommandKind::Ping => ping_done(args, pre, post, ctx, r),
        CommandKind::Echo => echo_done(args, pre, post, ctx, r),
        CommandKind::Get => get_done(args, pre, post, ctx, r),
        CommandKind::Mget => mget_done(args, pre, post, ctx, r),
        CommandKind::SetKey => set_done(args, pre, post, ctx, r),
        CommandKind::Del => del_done(args, pre, post, ctx, r),
        CommandKind::Keys => keys_done(args, pre, post, ctx, r),
        CommandKind::Info => info_done(args, pre, post, ctx, r),
    }
}

impl CommandKind {
    /// The name the handler goes by.
    pub fn name(&self) -> &'static str {
        match self {
            CommandKind::Ping => PingCommand.name(),
            CommandKind::Echo => EchoCommand.name(),
            CommandKind::Get => GetCommand.name(),
            CommandKind::Mget => MgetCommand.name(),
            CommandKind::SetKey => SetCommand.name(),
            CommandKind::Del => DelCommand.name(),
            CommandKind::Keys => KeysCommand.name(),
            CommandKind::Info => InfoCommand.name(),
        }
    }

    fn upper_name(&self) -> (r: Vec<u8>)
        ensures
            r@ == kind_name(*self),
    {
        let r = match self {
            CommandKind::Ping => vec![80u8, 73u8, 78u8, 71u8],
            CommandKind::Echo => vec![69u8, 67u8, 72u8, 79u8],
            CommandKind::Get => vec![71u8, 69u8, 84u8],
            CommandKind::Mget => vec![77u8, 71u8, 69u8, 84u8],
            CommandKind::SetKey => vec![83u8, 69u8, 84u8],
            CommandKind::Del => vec![68u8, 69u8, 76u8],
            CommandKind::Keys => vec![75u8, 69u8, 89u8, 83u8],
            CommandKind::Info => vec![73u8, 78u8, 70u8, 79u8],
        };
        assert(r@ =~= kind_name(*self));
        r
    }

    /// Whether `name` is this handler's name, in any case.
    pub fn matches_name(&self, name: &[u8]) -> (r: bool)
        ensures
            r == eq_ignore_case(name@, kind_name(*self)),
    {
        let u = self.upper_name();
        bytes_eq_ignore_case(name, u.as_slice())
    }

    /// Runs the handler.
    pub fn execute(&self, args: &[Resp], state: &mut SharedState, ctx: &CommandContext) -> (r: Resp)
        requires
            old(state).wf(),
        ensures
            final(state).wf(),
            kind_done(*self, args@, *old(state), *final(state), *ctx, r@),
    {
        match self {
            CommandKind::Ping => PingCommand.execute(args, state, ctx),
            CommandKind::Echo => EchoCommand.execute(args, state, ctx),
            CommandKind::Get => GetCommand.execute(args, state, ctx),
            CommandKind::Mget => MgetCommand.execute(args, state, ctx),
            CommandKind::SetKey => SetCommand.execute(args, state, ctx),
            CommandKind::Del => DelCommand.execute(args, state, ctx),
            CommandKind::Keys => KeysCommand.execute(args, state, ctx),
            CommandKind::Info => InfoCommand.execute(args, state, ctx),
        }
    }
}

/// The handlers registered, each once.
pub struct CommandRegistry {
    commands: Vec<CommandKind>,
}

impl View for CommandRegistry {
    type V = Set<CommandKind>;

    closed spec fn view(&self) -> Set<CommandKind> {
        Set::new(|k: CommandKind| self.commands@.contains(k))
    }
}

/// The handler that `name` finds in a registry holding `reg`.
pub open spec fn lookup(reg: Set<CommandKind>, name: Seq<u8>) -> Option<CommandKind> {
    match kind_named(name) {
        Some(k) => if reg.contains(k) {
            Some(k)
        } else {
            None
        },
        None => None,
    }
}

impl CommandRegistry {
    /// A registry with every handler.
    pub fn new() -> (r: CommandRegistry)
        ensures
            forall|k: CommandKind| #[trigger] r@.contains(k),
    {
        let mut registry = CommandRegistry { commands: Vec::new() };
        registry.register(CommandKind::Ping);
        registry.register(CommandKind::Echo);
        registry.register(CommandKind::Get);
        registry.register(CommandKind::SetKey);
        registry.register(CommandKind::Keys);
        registry.register(CommandKind::Del);
        registry.register(CommandKind::Mget);
        registry.register(CommandKind::Info);
        assert forall|k: CommandKind| #[trigger] registry@.contains(k) by {
            match k {
                CommandKind::Ping => {},
                _ => {},
            }
        }
        registry
    }

    /// Adds a handler; one already there stays as it is.
    pub fn register(&mut self, command: CommandKind)
        ensures
            final(self)@ == old(self)@.insert(command),
    {
        let mut i: usize = 0;
        while i < self.commands.len()
            invariant
                0 <= i <= self.commands@.len(),
                forall|j: int| 0 <= j < i ==> self.commands@[j] != command,
            decreases self.commands@.len() - i,
        {
            if self.commands[i] == command {
                assert(self.commands@.contains(command));
                assert(self@.insert(command) =~= self@);
                return;
            }
            i = i + 1;
        }
        let ghost pre = self.commands@;
        self.commands.push(command);
        assert forall|k: CommandKind| self.commands@.contains(k) == (pre.contains(k) || k == command) by {
            if self.commands@.contains(k) && k != command {
                let j = choose|j: int| 0 <= j < self.commands@.len() && self.commands@[j] == k;
                assert(pre[j] == k);
            }
            if pre.contains(k) {
                let j = choose|j: int| 0 <= j < pre.len() && pre[j] == k;
                assert(self.commands@[j] == k);
            }
            if k == command {
                assert(self.commands@[pre.len() as int] == k);
            }
        }
        assert forall|k: CommandKind| self@.contains(k) == old(self)@.insert(command).contains(k) by {
            assert(self@.contains(k) == self.commands@.contains(k));
            assert(old(self)@.contains(k) == pre.contains(k));
        }
        assert(self@ =~= old(self)@.insert(command));
    }

    /// The handler registered under `name`, matched without regard to case.
    pub fn get_command(&self, name: &[u8]) -> (r: Option<CommandKind>)
        ensures
            r == lookup(self@, name@),
    {
        let mut i: usize = 0;
        while i < self.commands.len()
            invariant
                0 <= i <= self.commands@.len(),
                forall|j: int| 0 <= j < i ==> !eq_ignore_case(name@, kind_name(#[trigger] self.commands@[j])),
            decreases self.commands@.len() - i,
        {
            let k = self.commands[i];
            if k.matches_name(name) {
                proof {
                    lemma_kind_named(name@, k);
                    assert(self@.contains(k));
                }
                return Some(k);
            }
            i = i + 1;
        }
        proof {
            if let Some(k) = kind_named(name@) {
                if self@.contains(k) {
                    let j = choose|j: int| 0 <= j < self.commands@.len() && self.commands@[j] == k;
                    assert(!eq_ignore_case(name@, kind_name(self.commands@[j])));
                    assert(eq_ignore_case(name@, kind_name(k)));
                }
            }
        }
        None
    }
}

/// A registry with every handler.
pub fn create_registry() -> (r: CommandRegistry)
    ensures
        forall|k: CommandKind| #[trigger] r@.contains(k),
{
    CommandRegistry::new()
}

} // verus!
