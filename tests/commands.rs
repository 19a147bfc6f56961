use redis_server::command::{
    parse_bulk_string_arg, parse_optional_flags, CommandContext, FlagError, ServerMetaData,
    SetFlags, SharedState,
};
use redis_server::handlers::{
    select_keys, DelCommand, EchoCommand, GetCommand, InfoCommand, KeysCommand, MgetCommand, PingCommand,
    SetCommand,
};
use redis_server::resp::Resp;
use redis_server::role::{MasterProperties, Role};

fn bulk(s: &str) -> Resp {
    Resp::BulkString(Some(s.as_bytes().to_vec()))
}

fn err(s: &str) -> Resp {
    Resp::SimpleError(format!("ERR {}", s).into_bytes())
}

fn ctx_at(now_ms: u64) -> CommandContext {
    CommandContext {
        server_meta_data: ServerMetaData {
            role: Role::Master(MasterProperties { replid: b"abc".to_vec(), repl_offset: 0 }),
        },
        now_ms,
    }
}

fn set(state: &mut SharedState, args: &[Resp], now: u64) -> Resp {
    SetCommand.execute(args, state, &ctx_at(now))
}

fn get(state: &mut SharedState, key: &str, now: u64) -> Resp {
    GetCommand.execute(&[bulk(key)], state, &ctx_at(now))
}

fn sorted_keys(reply: Resp) -> Vec<Vec<u8>> {
    match reply {
        Resp::Array(items) => {
            let mut keys: Vec<Vec<u8>> = items
                .into_iter()
                .map(|i| match i {
                    Resp::BulkString(Some(k)) => k,
                    other => panic!("not a key: {:?}", other),
                })
                .collect();
            keys.sort();
            keys
        }
        other => panic!("not an array: {:?}", other),
    }
}

#[test]
fn ping_replies_pong() {
    let mut st = SharedState::new();
    assert_eq!(PingCommand.execute(&[], &mut st, &ctx_at(0)), Resp::SimpleString(b"PONG".to_vec()));
    assert_eq!(PingCommand.execute(&[bulk("x")], &mut st, &ctx_at(0)), err("PING takes no arguments"));
}

#[test]
fn echo_hands_back_its_argument() {
    let mut st = SharedState::new();
    assert_eq!(EchoCommand.execute(&[bulk("hey")], &mut st, &ctx_at(0)), bulk("hey"));
    assert_eq!(EchoCommand.execute(&[], &mut st, &ctx_at(0)), err("ECHO takes exactly one argument"));
    assert_eq!(
        EchoCommand.execute(&[Resp::Integer(1)], &mut st, &ctx_at(0)),
        err("invalid ECHO argument")
    );
}

#[test]
fn set_then_get() {
    let mut st = SharedState::new();
    assert_eq!(set(&mut st, &[bulk("a"), bulk("1")], 0), Resp::SimpleString(b"OK".to_vec()));
    assert_eq!(get(&mut st, "a", 0), bulk("1"));
    assert_eq!(get(&mut st, "b", 0), Resp::BulkString(None));
    assert_eq!(set(&mut st, &[bulk("a"), bulk("2")], 0), Resp::SimpleString(b"OK".to_vec()));
    assert_eq!(get(&mut st, "a", 0), bulk("2"));
}

#[test]
fn get_errors() {
    let mut st = SharedState::new();
    assert_eq!(GetCommand.execute(&[], &mut st, &ctx_at(0)), err("GET takes exactly one argument"));
    assert_eq!(
        GetCommand.execute(&[Resp::Integer(3)], &mut st, &ctx_at(0)),
        err("invalid GET key")
    );
}

#[test]
fn ttl_lazy_expiry() {
    let mut st = SharedState::new();
    set(&mut st, &[bulk("a"), bulk("1"), bulk("PX"), bulk("50")], 1000);
    assert_eq!(get(&mut st, "a", 1049), bulk("1"));
    assert_eq!(get(&mut st, "a", 1060), Resp::BulkString(None));
    assert_eq!(st.memory.get(b"a"), None);
}

#[test]
fn ttl_active_sweep() {
    let mut st = SharedState::new();
    set(&mut st, &[bulk("a"), bulk("1"), bulk("PX"), bulk("10")], 0);
    set(&mut st, &[bulk("b"), bulk("2")], 0);
    assert_eq!(sorted_keys(KeysCommand.execute(&[bulk("*")], &mut st, &ctx_at(5))), vec![b"a".to_vec(), b"b".to_vec()]);
    assert_eq!(st.sweep_at(5), 0);
    assert_eq!(st.sweep_at(110), 1);
    assert_eq!(sorted_keys(KeysCommand.execute(&[bulk("*")], &mut st, &ctx_at(110))), vec![b"b".to_vec()]);
}

#[test]
fn ex_counts_seconds_and_px_wins() {
    let mut st = SharedState::new();
    set(&mut st, &[bulk("a"), bulk("1"), bulk("EX"), bulk("2")], 0);
    assert_eq!(get(&mut st, "a", 1999), bulk("1"));
    assert_eq!(get(&mut st, "a", 2000), Resp::BulkString(None));
    set(&mut st, &[bulk("b"), bulk("1"), bulk("ex"), bulk("100"), bulk("px"), bulk("5")], 0);
    assert_eq!(get(&mut st, "b", 5), Resp::BulkString(None));
}

#[test]
fn set_without_flags_clears_ttl() {
    let mut st = SharedState::new();
    set(&mut st, &[bulk("a"), bulk("1"), bulk("PX"), bulk("10")], 0);
    set(&mut st, &[bulk("a"), bulk("2")], 0);
    assert_eq!(get(&mut st, "a", 100), bulk("2"));
}

#[test]
fn set_errors() {
    let mut st = SharedState::new();
    assert_eq!(set(&mut st, &[bulk("a")], 0), err("SET requires at least key and value arguments"));
    assert_eq!(set(&mut st, &[bulk("a"), Resp::Integer(1)], 0), err("invalid SET key"));
    assert_eq!(set(&mut st, &[bulk("a"), bulk("1"), bulk("PX")], 0), err("invalid flag format"));
    assert_eq!(set(&mut st, &[bulk("a"), bulk("1"), bulk("PX"), bulk("soon")], 0), err("invalid flag value"));
    assert_eq!(set(&mut st, &[bulk("a"), bulk("1"), bulk("XX"), bulk("1")], 0), err("unknown flag"));
    assert_eq!(get(&mut st, "a", 0), Resp::BulkString(None));
}

#[test]
fn flags_are_read_in_pairs() {
    assert_eq!(
        parse_optional_flags(&[bulk("px"), bulk("7"), bulk("EX"), bulk("3")]),
        Ok(SetFlags { px: Some(7), ex: Some(3) })
    );
    assert_eq!(parse_optional_flags(&[]), Ok(SetFlags { px: None, ex: None }));
    assert_eq!(parse_optional_flags(&[bulk("PX"), bulk("-1")]), Err(FlagError::Value));
    assert_eq!(parse_optional_flags(&[Resp::Integer(1), bulk("1")]), Err(FlagError::Format));
}

#[test]
fn bulk_argument_payload() {
    assert_eq!(parse_bulk_string_arg(&bulk("k")), Ok(b"k".to_vec()));
    assert!(parse_bulk_string_arg(&Resp::BulkString(None)).is_err());
}

#[test]
fn del_counts_only_existing_keys() {
    let mut st = SharedState::new();
    set(&mut st, &[bulk("a"), bulk("1")], 0);
    assert_eq!(DelCommand.execute(&[bulk("a"), bulk("b")], &mut st, &ctx_at(0)), Resp::Integer(1));
    assert_eq!(get(&mut st, "a", 0), Resp::BulkString(None));
    set(&mut st, &[bulk("c"), bulk("1")], 0);
    assert_eq!(DelCommand.execute(&[bulk("c"), bulk("c")], &mut st, &ctx_at(0)), Resp::Integer(1));
}

#[test]
fn del_errors() {
    let mut st = SharedState::new();
    set(&mut st, &[bulk("a"), bulk("1")], 0);
    assert_eq!(DelCommand.execute(&[], &mut st, &ctx_at(0)), err("DEL requires at least one argument"));
    assert_eq!(
        DelCommand.execute(&[bulk("a"), Resp::Integer(1)], &mut st, &ctx_at(0)),
        err("invalid DEL key")
    );
    assert_eq!(get(&mut st, "a", 0), bulk("1"));
}

#[test]
fn mget_preserves_order_and_nulls() {
    let mut st = SharedState::new();
    set(&mut st, &[bulk("a"), bulk("1")], 0);
    assert_eq!(
        MgetCommand.execute(&[bulk("a"), bulk("missing")], &mut st, &ctx_at(0)),
        Resp::Array(vec![bulk("1"), Resp::BulkString(None)])
    );
}

#[test]
fn mget_expires_and_goes_on() {
    let mut st = SharedState::new();
    set(&mut st, &[bulk("a"), bulk("1"), bulk("PX"), bulk("10")], 0);
    set(&mut st, &[bulk("b"), bulk("2")], 0);
    assert_eq!(
        MgetCommand.execute(&[bulk("a"), bulk("b"), bulk("a")], &mut st, &ctx_at(20)),
        Resp::Array(vec![Resp::BulkString(None), bulk("2"), Resp::BulkString(None)])
    );
    assert_eq!(st.memory.get(b"a"), None);
}

#[test]
fn mget_errors() {
    let mut st = SharedState::new();
    assert_eq!(MgetCommand.execute(&[], &mut st, &ctx_at(0)), err("MGET requires at least one argument"));
    assert_eq!(
        MgetCommand.execute(&[bulk("a"), Resp::Integer(1)], &mut st, &ctx_at(0)),
        err("invalid GET key")
    );
}

#[test]
fn keys_glob_matching() {
    let mut st = SharedState::new();
    for k in ["foo", "foobar", "bar"] {
        set(&mut st, &[bulk(k), bulk("v")], 0);
    }
    assert_eq!(
        sorted_keys(KeysCommand.execute(&[bulk("foo*")], &mut st, &ctx_at(0))),
        vec![b"foo".to_vec(), b"foobar".to_vec()]
    );
    assert_eq!(
        sorted_keys(KeysCommand.execute(&[bulk("?ar")], &mut st, &ctx_at(0))),
        vec![b"bar".to_vec()]
    );
    assert_eq!(
        sorted_keys(KeysCommand.execute(&[bulk("[bf]oo")], &mut st, &ctx_at(0))),
        vec![b"foo".to_vec()]
    );
    assert_eq!(sorted_keys(KeysCommand.execute(&[bulk("zzz")], &mut st, &ctx_at(0))), Vec::<Vec<u8>>::new());
}

#[test]
fn keys_errors() {
    let mut st = SharedState::new();
    assert_eq!(KeysCommand.execute(&[], &mut st, &ctx_at(0)), err("KEYS requires exactly one argument"));
    assert_eq!(
        KeysCommand.execute(&[Resp::BulkString(None)], &mut st, &ctx_at(0)),
        err("invalid pattern format")
    );
}

#[test]
fn info_reports_the_role() {
    let mut st = SharedState::new();
    assert_eq!(
        InfoCommand.execute(&[], &mut st, &ctx_at(0)),
        bulk("# Replication\nrole:master\nmaster_replid:abc\nmaster_repl_offset:0\n")
    );
    let follower = CommandContext {
        server_meta_data: ServerMetaData { role: Role::new(Some(b"localhost 6379".to_vec())) },
        now_ms: 0,
    };
    assert_eq!(
        InfoCommand.execute(&[bulk("replication")], &mut st, &follower),
        bulk("# Replication\nrole:slave\n")
    );
    assert_eq!(
        InfoCommand.execute(&[bulk("a"), bulk("b")], &mut st, &ctx_at(0)),
        err("INFO takes at most one argument")
    );
}

#[test]
fn concurrent_disjoint_writers_interleaved() {
    let mut st = SharedState::new();
    let n = 16;
    for i in 0..n {
        set(&mut st, &[bulk(&format!("k{}", i)), bulk(&format!("v{}", i))], 0);
    }
    for i in 0..n {
        assert_eq!(get(&mut st, &format!("k{}", i), 0), bulk(&format!("v{}", i)));
    }
}

#[test]
fn select_keys_keeps_the_matched_ones() {
    let keys = vec![b"a".to_vec(), b"b".to_vec(), b"c".to_vec()];
    assert_eq!(
        select_keys(&keys, &vec![true, false, true]),
        Resp::Array(vec![bulk("a"), bulk("c")])
    );
    assert_eq!(select_keys(&keys, &vec![false, false, false]), Resp::Array(Vec::new()));
}
