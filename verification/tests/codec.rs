use resp_client::cmd::{Arg, Cmd};
use resp_client::frame::Response;
use resp_client::resp::{DecodeResult, Value};
use resp_client::types::RedisError;

fn decode_bytes(bytes: &[u8]) -> DecodeResult {
    let mut f = Response::new();
    f.refill(bytes);
    Value::from_frame(&mut f)
}

fn decoded(bytes: &[u8]) -> Value {
    match decode_bytes(bytes) {
        DecodeResult::Complete(v) => v,
        other => panic!("expected a complete value, got {:?}", other),
    }
}

#[test]
fn encode_inline_command() {
    let cmd = Cmd::new().arg(Arg::text("SET")).arg(Arg::text("k")).arg(Arg::text("v"));
    assert_eq!(cmd.bytes(), b"SET\r\nk\r\nv\r\n".to_vec());
}

#[test]
fn encode_numeric_argument() {
    let cmd = Cmd::new().arg(Arg::text("INCRBY")).arg(Arg::text("n")).arg(Arg::num(30));
    assert_eq!(cmd.bytes(), b"INCRBY\r\nn\r\n30\r\n".to_vec());
}

#[test]
fn encode_empty_command() {
    assert_eq!(Cmd::new().bytes(), Vec::<u8>::new());
}

#[test]
fn round_trip_set_then_ok() {
    let cmd = Cmd::new().arg(Arg::text("SET")).arg(Arg::text("k")).arg(Arg::text("v"));
    assert_eq!(cmd.bytes(), b"SET\r\nk\r\nv\r\n".to_vec());
    let reply = decoded(b"+OK\r\n");
    assert_eq!(reply, Value::Okay);
    assert_eq!(reply.into_unit(), Ok(()));
}

#[test]
fn decode_simple_string_not_ok() {
    assert_eq!(decoded(b"+PONG\r\n"), Value::Data(b"PONG".to_vec()));
}

#[test]
fn decode_integer_reply() {
    let v = decoded(b":-5\r\n");
    assert_eq!(v, Value::Int(-5));
    assert_eq!(v.into_i64(), Ok(-5));
    assert_eq!(
        decoded(b":-5\r\n").into_usize(),
        Err(RedisError::ErrIllegalTypeConversion(Value::Int(-5)))
    );
    assert_eq!(decoded(b":42\r\n").into_usize(), Ok(42usize));
}

#[test]
fn decode_bulk_string_reply() {
    let v = decoded(b"$3\r\nbar\r\n");
    assert_eq!(v, Value::Data(b"bar".to_vec()));
    assert_eq!(v.into_string(), Ok(String::from("bar")));
}

#[test]
fn decode_empty_bulk_string() {
    let v = decoded(b"$0\r\n\r\n");
    assert_eq!(v, Value::Data(vec![]));
    assert_eq!(v.into_string(), Ok(String::new()));
}

#[test]
fn decode_nil_reply() {
    let v = decoded(b"$-1\r\n");
    assert_eq!(v, Value::Nil);
    assert_eq!(
        decoded(b"$-1\r\n").into_string(),
        Err(RedisError::ErrIllegalTypeConversion(Value::Nil))
    );
    assert_eq!(
        decoded(b"$-1\r\n").into_i64(),
        Err(RedisError::ErrIllegalTypeConversion(Value::Nil))
    );
    assert_eq!(
        decoded(b"$-1\r\n").into_usize(),
        Err(RedisError::ErrIllegalTypeConversion(Value::Nil))
    );
}

#[test]
fn decode_array_reply() {
    let v = decoded(b"*2\r\n$1\r\na\r\n$1\r\nb\r\n");
    assert_eq!(
        v,
        Value::Bulk(vec![Value::Data(b"a".to_vec()), Value::Data(b"b".to_vec())])
    );
    assert_eq!(
        v.into_strings(),
        Ok(vec![String::from("a"), String::from("b")])
    );
}

#[test]
fn decode_empty_and_absent_arrays() {
    assert_eq!(decoded(b"*0\r\n"), Value::Bulk(vec![]));
    assert_eq!(decoded(b"*0\r\n").into_strings(), Ok(Vec::<String>::new()));
    assert_eq!(decoded(b"*-1\r\n"), Value::Nil);
}

#[test]
fn decode_nested_array() {
    let v = decoded(b"*2\r\n*1\r\n:1\r\n:2\r\n");
    assert_eq!(
        v,
        Value::Bulk(vec![Value::Bulk(vec![Value::Int(1)]), Value::Int(2)])
    );
}

#[test]
fn error_reply_propagates_to_integer_conversion() {
    let v = decoded(b"-ERR wrong type\r\n");
    assert_eq!(v, Value::Status(String::from("ERR wrong type")));
    assert_eq!(
        v.into_i64(),
        Err(RedisError::ErrorResponse(String::from("ERR wrong type")))
    );
}

#[test]
fn fragmentation_every_split_of_an_array_reply() {
    let bytes: &[u8] = b"*2\r\n$1\r\na\r\n$1\r\nb\r\n";
    let expected = decoded(bytes);
    for cut in 0..bytes.len() {
        let mut f = Response::new();
        f.refill(&bytes[..cut]);
        assert_eq!(Value::from_frame(&mut f), DecodeResult::Incomplete);
        f.refill(&bytes[cut..]);
        match Value::from_frame(&mut f) {
            DecodeResult::Complete(v) => assert_eq!(v, expected),
            other => panic!("split at {} gave {:?}", cut, other),
        }
    }
}

#[test]
fn fragmentation_delimiter_split_across_reads() {
    let mut f = Response::new();
    f.refill(b"+OK\r");
    assert_eq!(Value::from_frame(&mut f), DecodeResult::Incomplete);
    f.refill(b"\n");
    assert_eq!(Value::from_frame(&mut f), DecodeResult::Complete(Value::Okay));
}

#[test]
fn incomplete_inputs_are_not_errors() {
    assert_eq!(decode_bytes(b""), DecodeResult::Incomplete);
    assert_eq!(decode_bytes(b":5"), DecodeResult::Incomplete);
    assert_eq!(decode_bytes(b"$3\r\nba"), DecodeResult::Incomplete);
    assert_eq!(decode_bytes(b"*1\r\n"), DecodeResult::Incomplete);
}

#[test]
fn malformed_integer_lines_fail() {
    assert_eq!(
        decode_bytes(b":abc\r\n"),
        DecodeResult::Failed(RedisError::MalformedInteger)
    );
    assert_eq!(
        decode_bytes(b":\r\n"),
        DecodeResult::Failed(RedisError::MalformedInteger)
    );
    assert_eq!(
        decode_bytes(b"$x\r\n"),
        DecodeResult::Failed(RedisError::MalformedInteger)
    );
    assert_eq!(
        decode_bytes(b"$-2\r\n"),
        DecodeResult::Failed(RedisError::MalformedInteger)
    );
    assert_eq!(
        decode_bytes(b"*-2\r\n"),
        DecodeResult::Failed(RedisError::MalformedInteger)
    );
}

#[test]
fn missing_bulk_delimiter_fails() {
    assert_eq!(
        decode_bytes(b"$3\r\nbarXY"),
        DecodeResult::Failed(RedisError::MissingDelimiter)
    );
}

#[test]
fn invalid_utf8_in_error_line_fails() {
    assert_eq!(
        decode_bytes(b"-\xff\xfe\r\n"),
        DecodeResult::Failed(RedisError::InvalidUtf8)
    );
}

#[test]
fn unsupported_reply_tags_fail() {
    assert_eq!(
        decode_bytes(b"?boo\r\n"),
        DecodeResult::Failed(RedisError::UnexpectedResponseType)
    );
    // A reserved RESP3 tag must fail explicitly, not misparse.
    assert_eq!(
        decode_bytes(b"%1\r\n"),
        DecodeResult::Failed(RedisError::UnexpectedResponseType)
    );
}

#[test]
fn invalid_utf8_bulk_data_fails_string_conversion() {
    let v = decoded(b"$2\r\n\xff\xfe\r\n");
    assert_eq!(v, Value::Data(vec![0xff, 0xfe]));
    assert_eq!(v.into_string(), Err(RedisError::InvalidUtf8));
}

#[test]
fn string_sequence_conversion_short_circuits() {
    // The second element is not bulk data: its error is the one propagated.
    let v = decoded(b"*3\r\n$1\r\na\r\n:7\r\n$1\r\nb\r\n");
    assert_eq!(
        v.into_strings(),
        Err(RedisError::ErrIllegalTypeConversion(Value::Int(7)))
    );
    // An invalid UTF-8 element propagates its own error.
    let v = decoded(b"*2\r\n$1\r\n\xff\r\n$1\r\nb\r\n");
    assert_eq!(v.into_strings(), Err(RedisError::InvalidUtf8));
}

#[test]
fn unit_conversion_always_succeeds() {
    assert_eq!(decoded(b":1\r\n").into_unit(), Ok(()));
    assert_eq!(decoded(b"$-1\r\n").into_unit(), Ok(()));
    assert_eq!(decoded(b"-ERR x\r\n").into_unit(), Ok(()));
}
