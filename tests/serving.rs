use redis_server::command::{CommandContext, ServerMetaData, SharedState};
use redis_server::registry::create_registry;
use redis_server::resp::Resp;
use redis_server::role::Role;
use redis_server::server::{dispatch, serve_input, Step};

fn ctx() -> CommandContext {
    CommandContext { server_meta_data: ServerMetaData { role: Role::new(None) }, now_ms: 0 }
}

fn bulk(s: &str) -> Resp {
    Resp::BulkString(Some(s.as_bytes().to_vec()))
}

#[test]
fn unknown_command_keeps_the_connection() {
    let reg = create_registry();
    let mut st = SharedState::new();
    let input = b"*1\r\n$8\r\nFLUSHALL\r\n";
    match serve_input(&reg, input, &mut st, &ctx()) {
        Step::Reply(bytes, used) => {
            assert_eq!(used, input.len());
            assert_eq!(bytes, b"-ERR unknown command 'FLUSHALL'\r\n".to_vec());
        }
        other => panic!("unexpected {:?}", other),
    }
    let ping = b"*1\r\n$4\r\nPING\r\n";
    assert_eq!(
        serve_input(&reg, ping, &mut st, &ctx()),
        Step::Reply(b"+PONG\r\n".to_vec(), ping.len())
    );
}

#[test]
fn partial_input_waits_and_garbage_closes() {
    let reg = create_registry();
    let mut st = SharedState::new();
    assert_eq!(serve_input(&reg, b"*1\r\n$4\r\nPI", &mut st, &ctx()), Step::Wait);
    assert_eq!(
        serve_input(&reg, b"!!\r\n", &mut st, &ctx()),
        Step::Close(b"-ERR invalid input\r\n".to_vec())
    );
}

#[test]
fn pipelined_frames_are_served_one_at_a_time() {
    let reg = create_registry();
    let mut st = SharedState::new();
    let input = b"*3\r\n$3\r\nSET\r\n$1\r\na\r\n$1\r\n1\r\n*2\r\n$3\r\nGET\r\n$1\r\na\r\n";
    let first = match serve_input(&reg, input, &mut st, &ctx()) {
        Step::Reply(bytes, used) => {
            assert_eq!(bytes, b"+OK\r\n".to_vec());
            used
        }
        other => panic!("unexpected {:?}", other),
    };
    assert_eq!(
        serve_input(&reg, &input[first..], &mut st, &ctx()),
        Step::Reply(b"$1\r\n1\r\n".to_vec(), input.len() - first)
    );
}

#[test]
fn dispatch_rejects_frames_that_are_no_command() {
    let reg = create_registry();
    let mut st = SharedState::new();
    let bad = Resp::SimpleError(b"ERR invalid command format".to_vec());
    assert_eq!(dispatch(&reg, &Resp::Integer(1), &mut st, &ctx()), bad);
    assert_eq!(dispatch(&reg, &Resp::Array(Vec::new()), &mut st, &ctx()), bad);
    assert_eq!(dispatch(&reg, &Resp::Array(vec![Resp::Integer(1)]), &mut st, &ctx()), bad);
    assert_eq!(
        dispatch(&reg, &Resp::Array(vec![bulk("echo"), bulk("x")]), &mut st, &ctx()),
        bulk("x")
    );
}

#[test]
fn unknown_name_with_line_break_is_quoted_on_one_line() {
    let reg = create_registry();
    let mut st = SharedState::new();
    assert_eq!(
        dispatch(&reg, &Resp::Array(vec![bulk("a\r\nb")]), &mut st, &ctx()),
        Resp::SimpleError(b"ERR unknown command 'a  b'".to_vec())
    );
}
