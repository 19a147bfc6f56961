use redis_server::resp::{parse_resp, Decoded, Resp};

fn bulk(s: &str) -> Resp {
    Resp::BulkString(Some(s.as_bytes().to_vec()))
}

fn round_trip(v: Resp) {
    let bytes = v.encode();
    let n = bytes.len();
    assert_eq!(parse_resp(&bytes), Decoded::Frame(v, n));
}

#[test]
fn round_trip_of_each_kind() {
    round_trip(Resp::SimpleString(b"OK".to_vec()));
    round_trip(Resp::SimpleString(Vec::new()));
    round_trip(Resp::SimpleError(b"ERR bad".to_vec()));
    round_trip(Resp::Integer(0));
    round_trip(Resp::Integer(-42));
    round_trip(Resp::Integer(i64::MIN));
    round_trip(Resp::Integer(i64::MAX));
    round_trip(Resp::BulkString(None));
    round_trip(bulk(""));
    round_trip(Resp::BulkString(Some(b"a\r\nb\x00\xff".to_vec())));
    round_trip(Resp::Array(Vec::new()));
    round_trip(Resp::Array(vec![
        bulk("SET"),
        Resp::Array(vec![Resp::Integer(7), Resp::BulkString(None)]),
        Resp::SimpleString(b"x".to_vec()),
    ]));
}

#[test]
fn encodes_exact_bytes() {
    assert_eq!(Resp::Integer(-42).encode(), b":-42\r\n".to_vec());
    assert_eq!(bulk("foo").encode(), b"$3\r\nfoo\r\n".to_vec());
    assert_eq!(Resp::BulkString(None).encode(), b"$-1\r\n".to_vec());
    assert_eq!(Resp::SimpleString(b"PONG".to_vec()).encode(), b"+PONG\r\n".to_vec());
    assert_eq!(Resp::SimpleError(b"ERR x".to_vec()).encode(), b"-ERR x\r\n".to_vec());
    assert_eq!(
        Resp::Array(vec![bulk("a"), Resp::Integer(1)]).encode(),
        b"*2\r\n$1\r\na\r\n:1\r\n".to_vec()
    );
    assert_eq!(Resp::Integer(1234567890).encode(), b":1234567890\r\n".to_vec());
}

#[test]
fn decodes_a_command_frame() {
    let input = b"*2\r\n$4\r\nECHO\r\n$2\r\nhi\r\n";
    assert_eq!(
        parse_resp(input),
        Decoded::Frame(Resp::Array(vec![bulk("ECHO"), bulk("hi")]), input.len())
    );
}

#[test]
fn skips_leading_blanks_and_line_breaks() {
    let input = b" \r\n+OK\r\n";
    assert_eq!(
        parse_resp(input),
        Decoded::Frame(Resp::SimpleString(b"OK".to_vec()), input.len())
    );
}

#[test]
fn reports_partial_frames() {
    assert_eq!(parse_resp(b""), Decoded::NeedMore);
    assert_eq!(parse_resp(b"$5\r\nab"), Decoded::NeedMore);
    assert_eq!(parse_resp(b"*2\r\n$1\r\na\r\n"), Decoded::NeedMore);
    assert_eq!(parse_resp(b":12"), Decoded::NeedMore);
    assert_eq!(parse_resp(b"+OK\r"), Decoded::NeedMore);
}

#[test]
fn rejects_malformed_frames() {
    assert_eq!(parse_resp(b"$abc\r\nxyz\r\n"), Decoded::Invalid);
    assert_eq!(parse_resp(b"?what\r\n"), Decoded::Invalid);
    assert_eq!(parse_resp(b":12a\r\n"), Decoded::Invalid);
    assert_eq!(parse_resp(b"$-2\r\n"), Decoded::Invalid);
    assert_eq!(parse_resp(b"$2\r\nabc\r\n"), Decoded::Invalid);
    assert_eq!(parse_resp(b"+OK\rX"), Decoded::Invalid);
    assert_eq!(parse_resp(b":99999999999999999999\r\n"), Decoded::Invalid);
    assert_eq!(parse_resp(b"$999999999999\r\n"), Decoded::Invalid);
}

#[test]
fn null_aggregate_reads_as_empty() {
    assert_eq!(parse_resp(b"*-1\r\n"), Decoded::Frame(Resp::Array(Vec::new()), 5));
}

#[test]
fn decodes_one_frame_of_several() {
    let input = b"+A\r\n+B\r\n";
    assert_eq!(parse_resp(input), Decoded::Frame(Resp::SimpleString(b"A".to_vec()), 4));
    assert_eq!(
        parse_resp(&input[4..]),
        Decoded::Frame(Resp::SimpleString(b"B".to_vec()), 4)
    );
}

#[test]
fn bulk_payload_is_binary_safe() {
    let input = b"$4\r\n\r\n\r\n\r\n";
    assert_eq!(
        parse_resp(input),
        Decoded::Frame(Resp::BulkString(Some(b"\r\n\r\n".to_vec())), input.len())
    );
}

#[test]
fn integers_take_a_sign() {
    assert_eq!(parse_resp(b":+5\r\n"), Decoded::Frame(Resp::Integer(5), 5));
    assert_eq!(
        parse_resp(b":-9223372036854775808\r\n"),
        Decoded::Frame(Resp::Integer(i64::MIN), 23)
    );
    assert_eq!(parse_resp(b":9223372036854775808\r\n"), Decoded::Invalid);
}

#[test]
fn every_proper_prefix_needs_more() {
    let v = Resp::Array(vec![
        bulk("SET"),
        bulk("key"),
        Resp::Integer(-12),
        Resp::BulkString(None),
        Resp::Array(vec![Resp::SimpleString(b"ok".to_vec())]),
    ]);
    let bytes = v.encode();
    for n in 0..bytes.len() {
        assert_eq!(parse_resp(&bytes[..n]), Decoded::NeedMore, "prefix of {} bytes", n);
    }
}
