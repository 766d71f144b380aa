//! Tests of the wire codec: encoding, decoding, partial reads and the
//! round trip.

use miniredis::resp::{parse_integer, parse_message, parse_unsigned, read_until_crlf, Resp};

fn bytes(s: &str) -> Vec<u8> {
    s.as_bytes().to_vec()
}

fn bulk(s: &str) -> Resp {
    Resp::BulkString(bytes(s))
}

#[test]
fn encode_null() {
    assert_eq!(Resp::Null.encode(), bytes("$-1\r\n"));
}

#[test]
fn encode_integer() {
    assert_eq!(Resp::Integer(0).encode(), bytes(":0\r\n"));
    assert_eq!(Resp::Integer(1234).encode(), bytes(":1234\r\n"));
    assert_eq!(Resp::Integer(-42).encode(), bytes(":-42\r\n"));
    assert_eq!(
        Resp::Integer(i64::MIN).encode(),
        bytes(":-9223372036854775808\r\n")
    );
}

#[test]
fn encode_simple_string() {
    assert_eq!(Resp::SimpleString(bytes("OK")).encode(), bytes("+OK\r\n"));
}

#[test]
fn encode_error() {
    assert_eq!(Resp::Error(bytes("oops")).encode(), bytes("-oops\r\n"));
}

#[test]
fn encode_bulk_string() {
    assert_eq!(bulk("hello").encode(), bytes("$5\r\nhello\r\n"));
    assert_eq!(bulk("").encode(), bytes("$0\r\n\r\n"));
}

#[test]
fn encode_array() {
    let msg = Resp::Array(vec![bulk("get"), bulk("foo")]);
    assert_eq!(msg.encode(), bytes("*2\r\n$3\r\nget\r\n$3\r\nfoo\r\n"));
}

#[test]
fn decode_simple_string() {
    let buf = bytes("+PONG\r\n");
    assert_eq!(
        parse_message(&buf, 0),
        Ok(Some((Resp::SimpleString(bytes("PONG")), 7)))
    );
}

#[test]
fn decode_error_frame() {
    let buf = bytes("-bad thing\r\n");
    assert_eq!(
        parse_message(&buf, 0),
        Ok(Some((Resp::Error(bytes("bad thing")), 12)))
    );
}

#[test]
fn decode_integer() {
    assert_eq!(
        parse_message(&bytes(":123\r\n"), 0),
        Ok(Some((Resp::Integer(123), 6)))
    );
    assert_eq!(
        parse_message(&bytes(":-45\r\n"), 0),
        Ok(Some((Resp::Integer(-45), 6)))
    );
    assert_eq!(
        parse_message(&bytes(":+7\r\n"), 0),
        Ok(Some((Resp::Integer(7), 5)))
    );
    assert_eq!(
        parse_message(&bytes(":007\r\n"), 0),
        Ok(Some((Resp::Integer(7), 6)))
    );
}

#[test]
fn decode_integer_range() {
    assert_eq!(
        parse_message(&bytes(":9223372036854775807\r\n"), 0),
        Ok(Some((Resp::Integer(i64::MAX), 22)))
    );
    assert_eq!(
        parse_message(&bytes(":-9223372036854775808\r\n"), 0),
        Ok(Some((Resp::Integer(i64::MIN), 23)))
    );
    assert!(parse_message(&bytes(":9223372036854775808\r\n"), 0).is_err());
    assert!(parse_message(&bytes(":\r\n"), 0).is_err());
    assert!(parse_message(&bytes(":12x\r\n"), 0).is_err());
}

#[test]
fn decode_bulk_string() {
    assert_eq!(
        parse_message(&bytes("$3\r\nabc\r\n"), 0),
        Ok(Some((bulk("abc"), 9)))
    );
    assert_eq!(parse_message(&bytes("$0\r\n\r\n"), 0), Ok(Some((bulk(""), 6))));
}

#[test]
fn decode_bulk_binary_safe() {
    // The payload may contain CR and LF; the length prefix delimits it.
    let buf = bytes("$4\r\na\r\nb\r\n");
    assert_eq!(
        parse_message(&buf, 0),
        Ok(Some((Resp::BulkString(bytes("a\r\nb")), 10)))
    );
}

#[test]
fn decode_null_bulk() {
    assert_eq!(parse_message(&bytes("$-1\r\n"), 0), Ok(Some((Resp::Null, 5))));
}

#[test]
fn decode_null_array() {
    assert_eq!(parse_message(&bytes("*-1\r\n"), 0), Ok(Some((Resp::Null, 5))));
}

#[test]
fn decode_empty_array() {
    assert_eq!(
        parse_message(&bytes("*0\r\n"), 0),
        Ok(Some((Resp::Array(vec![]), 4)))
    );
}

#[test]
fn decode_nested_array() {
    let buf = bytes("*2\r\n*2\r\n:1\r\n+a\r\n$-1\r\n");
    let inner = Resp::Array(vec![Resp::Integer(1), Resp::SimpleString(bytes("a"))]);
    let outer = Resp::Array(vec![inner, Resp::Null]);
    assert_eq!(parse_message(&buf, 0), Ok(Some((outer, buf.len()))));
}

#[test]
fn decode_unknown_leading_byte() {
    assert!(parse_message(&bytes("!x\r\n"), 0).is_err());
}

#[test]
fn decode_malformed_lengths() {
    assert!(parse_message(&bytes("$2x\r\nab\r\n"), 0).is_err());
    assert!(parse_message(&bytes("$-2\r\n"), 0).is_err());
    assert!(parse_message(&bytes("*-2\r\n"), 0).is_err());
    // Over the frame caps.
    assert!(parse_message(&bytes("$536870913\r\n"), 0).is_err());
    assert!(parse_message(&bytes("*1048577\r\n"), 0).is_err());
}

#[test]
fn decode_bad_bulk_terminator() {
    assert!(parse_message(&bytes("$3\r\nabcXY"), 0).is_err());
}

#[test]
fn decode_incomplete_is_not_an_error() {
    for buf in ["", "+PON", ":12", "$3\r\nab", "*2\r\n:1\r\n", "$3\r\nabc\r"] {
        assert_eq!(parse_message(&bytes(buf), 0), Ok(None), "input {:?}", buf);
    }
}

#[test]
fn decode_pipelined_from_offset() {
    let buf = bytes("+one\r\n:2\r\n");
    let (first, used) = parse_message(&buf, 0).unwrap().unwrap();
    assert_eq!(first, Resp::SimpleString(bytes("one")));
    assert_eq!(used, 6);
    let (second, used2) = parse_message(&buf, used).unwrap().unwrap();
    assert_eq!(second, Resp::Integer(2));
    assert_eq!(used2, 4);
}

#[test]
fn round_trip_every_variant() {
    let messages = vec![
        Resp::Null,
        Resp::Integer(-7),
        Resp::SimpleString(bytes("PONG")),
        Resp::Error(bytes("unknown command")),
        bulk("some value"),
        Resp::Array(vec![
            bulk("set"),
            bulk("key"),
            Resp::Integer(12),
            Resp::Null,
            Resp::Array(vec![Resp::SimpleString(bytes("x"))]),
        ]),
    ];
    for msg in messages {
        let enc = msg.encode();
        assert_eq!(parse_message(&enc, 0), Ok(Some((msg, enc.len()))));
    }
}

#[test]
fn partial_reads_at_every_boundary() {
    let msg = Resp::Array(vec![
        bulk("get"),
        Resp::Integer(-12),
        Resp::Array(vec![Resp::Null, Resp::SimpleString(bytes("hi"))]),
    ]);
    let enc = msg.encode();
    for i in 0..enc.len() {
        let prefix = enc[..i].to_vec();
        assert_eq!(parse_message(&prefix, 0), Ok(None), "split at {}", i);
    }
    assert_eq!(parse_message(&enc, 0), Ok(Some((msg, enc.len()))));
}

#[test]
fn read_until_crlf_finds_first_terminator() {
    let buf = bytes("ab\rc\r\nrest\r\n");
    assert_eq!(read_until_crlf(&buf, 0), Some(4));
    assert_eq!(read_until_crlf(&buf, 6), Some(10));
    assert_eq!(read_until_crlf(&bytes("no terminator"), 0), None);
}

#[test]
fn parse_integer_direct() {
    let buf = bytes("123");
    assert_eq!(parse_integer(&buf, 0, 3), Ok(123));
    let buf2 = bytes("x-45y");
    assert_eq!(parse_integer(&buf2, 1, 4), Ok(-45));
    assert!(parse_integer(&buf2, 0, 5).is_err());
    assert!(parse_integer(&bytes("+"), 0, 1).is_err());
}

#[test]
fn parse_unsigned_direct() {
    assert_eq!(parse_unsigned(&bytes("007")), Ok(7));
    assert_eq!(parse_unsigned(&bytes("+5")), Ok(5));
    assert_eq!(parse_unsigned(&bytes("18446744073709551615")), Ok(u64::MAX));
    assert!(parse_unsigned(&bytes("18446744073709551616")).is_err());
    assert!(parse_unsigned(&bytes("-1")).is_err());
    assert!(parse_unsigned(&bytes("")).is_err());
    assert!(parse_unsigned(&bytes("5s")).is_err());
}

#[test]
fn to_command_splits_name_and_args() {
    let msg = Resp::Array(vec![bulk("GET"), bulk("foo")]);
    let (name, args) = msg.to_command().unwrap();
    assert_eq!(name, bytes("GET"));
    assert_eq!(args, vec![bulk("foo")]);
}

#[test]
fn to_command_rejects_non_commands() {
    assert!(Resp::Integer(1).to_command().is_err());
    assert!(Resp::Array(vec![]).to_command().is_err());
    assert!(Resp::Array(vec![Resp::Integer(1), bulk("x")]).to_command().is_err());
}
