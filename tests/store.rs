use redis_server::command::{CommandContext, ServerMetaData, SharedState};
use redis_server::expiry_manager::ExpiryManager;
use redis_server::handlers::SetCommand;
use redis_server::resp::Resp;
use redis_server::memory::Memory;
use redis_server::registry::{create_registry, CommandKind, CommandRegistry};
use redis_server::role::{generate_rep_id, Role};

#[test]
fn memory_set_get_delete() {
    let mut m = Memory::new();
    m.set(b"k".to_vec(), b"v".to_vec());
    assert_eq!(m.get(b"k"), Some(b"v".to_vec()));
    m.set(b"k".to_vec(), b"w".to_vec());
    assert_eq!(m.get(b"k"), Some(b"w".to_vec()));
    assert_eq!(m.delete(b"k"), Some(b"w".to_vec()));
    assert_eq!(m.delete(b"k"), None);
    assert_eq!(m.get(b"k"), None);
}

#[test]
fn memory_lists_keys() {
    let mut m = Memory::new();
    m.set(b"a".to_vec(), b"1".to_vec());
    m.set(b"b".to_vec(), b"2".to_vec());
    m.set(b"a".to_vec(), b"3".to_vec());
    let mut keys = m.keys();
    keys.sort();
    assert_eq!(keys, vec![b"a".to_vec(), b"b".to_vec()]);
}

#[test]
fn expiry_at_given_times() {
    let mut e = ExpiryManager::new();
    e.set_expiry_at(b"a", 10, 100);
    assert!(!e.is_expired_at(b"a", 109));
    assert!(e.is_expired_at(b"a", 110));
    assert!(!e.is_expired_at(b"b", 1000));
    e.set_expiry_at(b"a", 50, 100);
    assert!(!e.is_expired_at(b"a", 110));
    e.remove_expiry(b"a");
    assert!(!e.is_expired_at(b"a", u64::MAX));
    e.set_expiry_at(b"x", u64::MAX, 5);
    assert!(!e.is_expired_at(b"x", u64::MAX - 1));
}

#[test]
fn cleanup_removes_only_due_keys() {
    let mut e = ExpiryManager::new();
    e.set_expiry_at(b"a", 10, 0);
    e.set_expiry_at(b"b", 20, 0);
    e.set_expiry_at(b"c", 5, 0);
    let mut gone = e.cleanup_expired_at(10);
    gone.sort();
    assert_eq!(gone, vec![b"a".to_vec(), b"c".to_vec()]);
    assert!(e.is_expired_at(b"b", 20));
    assert!(!e.is_expired_at(b"a", 1000));
}

#[test]
fn expiry_on_the_clock() {
    let mut e = ExpiryManager::new();
    e.set_expiry(b"long", 3_600_000);
    assert!(!e.is_expired(b"long"));
    e.set_expiry(b"now", 0);
    assert!(e.is_expired(b"now"));
    assert!(ExpiryManager::get_now_ms() > 1_600_000_000_000);
    assert_eq!(e.cleanup_expired_keys(), vec![b"now".to_vec()]);
}

#[test]
fn registry_matches_names_in_any_case() {
    let reg = create_registry();
    assert_eq!(reg.get_command(b"ping"), Some(CommandKind::Ping));
    assert_eq!(reg.get_command(b"MGet"), Some(CommandKind::Mget));
    assert_eq!(reg.get_command(b"set"), Some(CommandKind::SetKey));
    assert_eq!(reg.get_command(b"FLUSHALL"), None);
    assert_eq!(CommandKind::Mget.name(), "mget");
}

#[test]
fn registry_holds_what_was_registered() {
    let mut reg = CommandRegistry::new();
    reg.register(CommandKind::Ping);
    assert_eq!(reg.get_command(b"PING"), Some(CommandKind::Ping));
    assert_eq!(reg.get_command(b"info"), Some(CommandKind::Info));
}

#[test]
fn role_of_a_follower_and_a_primary() {
    match Role::new(Some(b"localhost 6379".to_vec())) {
        Role::Slave(addr) => assert_eq!(addr, b"localhost:6379".to_vec()),
        _ => panic!("expected a follower"),
    }
    match Role::new(None) {
        Role::Master(m) => {
            assert_eq!(m.repl_offset, 0);
            assert_eq!(m.replid.len(), 40);
        }
        _ => panic!("expected a primary"),
    }
}

#[test]
fn replication_ids_are_alphanumeric() {
    let id = generate_rep_id();
    assert_eq!(id.len(), 40);
    assert!(id.iter().all(|b| b.is_ascii_alphanumeric()));
}

#[test]
fn sweep_on_the_clock() {
    let mut st = SharedState::new();
    let ctx = CommandContext {
        server_meta_data: ServerMetaData { role: Role::new(None) },
        now_ms: ExpiryManager::get_now_ms(),
    };
    let args = [
        Resp::BulkString(Some(b"a".to_vec())),
        Resp::BulkString(Some(b"1".to_vec())),
        Resp::BulkString(Some(b"PX".to_vec())),
        Resp::BulkString(Some(b"0".to_vec())),
    ];
    SetCommand.execute(&args, &mut st, &ctx);
    SetCommand.execute(&args[..2], &mut st, &ctx);
    assert_eq!(st.sweep(), 0);
    SetCommand.execute(&args, &mut st, &ctx);
    assert_eq!(st.sweep(), 1);
    assert_eq!(st.memory.get(b"a"), None);
}
