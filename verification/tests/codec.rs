use resp_server::decimal::parse_int;
use resp_server::error::ParseError;
use resp_server::parse::{find_crlf, parse_message, read_until_crlf, ParseResult};
use resp_server::value::{Value, MAX_DEPTH};

fn bulk(s: &[u8]) -> Value {
    Value::BulkString(s.to_vec())
}

fn sample_values() -> Vec<Value> {
    vec![
        Value::SimpleString(b"OK".to_vec()),
        Value::SimpleString(Vec::new()),
        Value::SimpleString(b"tail\r".to_vec()),
        Value::Error(b"ERR something failed".to_vec()),
        Value::Integer(0),
        Value::Integer(-1),
        Value::Integer(1234567890),
        Value::Integer(i64::MAX),
        Value::Integer(i64::MIN),
        bulk(b""),
        bulk(b"hello"),
        bulk(b"a\r\nb\0c\n\r"),
        Value::NullBulkString,
        Value::NullArray,
        Value::Array(Vec::new()),
        Value::Array(vec![bulk(b"ECHO"), bulk(b"hello")]),
        Value::Array(vec![
            Value::Integer(7),
            Value::Array(vec![Value::SimpleString(b"x".to_vec()), Value::NullArray]),
            Value::NullBulkString,
            Value::Array(Vec::new()),
            Value::Error(b"bad".to_vec()),
        ]),
    ]
}

fn nested(levels: usize) -> Value {
    let mut v = Value::Integer(1);
    for _ in 0..levels {
        v = Value::Array(vec![v]);
    }
    v
}

#[test]
fn serialize_simple_string() {
    assert_eq!(Value::SimpleString(b"PONG".to_vec()).serialize(), b"+PONG\r\n".to_vec());
}

#[test]
fn serialize_error() {
    assert_eq!(Value::Error(b"ERR x".to_vec()).serialize(), b"-ERR x\r\n".to_vec());
}

#[test]
fn serialize_integer() {
    assert_eq!(Value::Integer(0).serialize(), b":0\r\n".to_vec());
    assert_eq!(Value::Integer(42).serialize(), b":42\r\n".to_vec());
    assert_eq!(Value::Integer(-17).serialize(), b":-17\r\n".to_vec());
    assert_eq!(Value::Integer(i64::MAX).serialize(), b":9223372036854775807\r\n".to_vec());
    assert_eq!(Value::Integer(i64::MIN).serialize(), b":-9223372036854775808\r\n".to_vec());
}

#[test]
fn serialize_bulk_string_uses_byte_length() {
    assert_eq!(bulk(b"hello").serialize(), b"$5\r\nhello\r\n".to_vec());
    assert_eq!(bulk(b"").serialize(), b"$0\r\n\r\n".to_vec());
    let two_chars_three_bytes = "h\u{e9}".as_bytes();
    assert_eq!(bulk(two_chars_three_bytes).serialize(), b"$3\r\nh\xc3\xa9\r\n".to_vec());
    assert_eq!(bulk(b"0123456789ab").serialize(), b"$12\r\n0123456789ab\r\n".to_vec());
}

#[test]
fn serialize_array() {
    let v = Value::Array(vec![bulk(b"ECHO"), Value::Integer(3), Value::Array(Vec::new())]);
    assert_eq!(v.serialize(), b"*3\r\n$4\r\nECHO\r\n:3\r\n*0\r\n".to_vec());
}

#[test]
fn serialize_nulls() {
    assert_eq!(Value::NullBulkString.serialize(), b"$-1\r\n".to_vec());
    assert_eq!(Value::NullArray.serialize(), b"*-1\r\n".to_vec());
}

#[test]
fn write_to_appends() {
    let mut out = b"abc".to_vec();
    Value::Integer(5).write_to(&mut out);
    assert_eq!(out, b"abc:5\r\n".to_vec());
}

#[test]
fn clone_keeps_the_value() {
    for v in sample_values() {
        assert_eq!(v.clone(), v);
        assert_eq!(v.duplicate(), v);
    }
}

#[test]
fn round_trip_of_every_kind() {
    for v in sample_values() {
        let bytes = v.clone().serialize();
        let n = bytes.len();
        assert_eq!(parse_message(&bytes), ParseResult::Parsed(v, n));
    }
}

#[test]
fn every_strict_prefix_is_incomplete() {
    for v in sample_values() {
        let bytes = v.serialize();
        for n in 0..bytes.len() {
            assert_eq!(parse_message(&bytes[..n]), ParseResult::Incomplete);
        }
    }
}

#[test]
fn bulk_string_is_binary_safe() {
    let payload = b"\r\n\0\r\0\n\xff".to_vec();
    let bytes = Value::BulkString(payload.clone()).serialize();
    assert_eq!(bytes, b"$7\r\n\r\n\0\r\0\n\xff\r\n".to_vec());
    assert_eq!(parse_message(&bytes), ParseResult::Parsed(Value::BulkString(payload), 13));
}

#[test]
fn pipelined_frames_are_parsed_one_by_one() {
    let first = Value::Array(vec![bulk(b"PING")]);
    let second = Value::Array(vec![bulk(b"ECHO"), bulk(b"hi")]);
    let mut buffer = first.clone().serialize();
    let first_len = buffer.len();
    buffer.extend_from_slice(&second.clone().serialize());
    assert_eq!(parse_message(&buffer), ParseResult::Parsed(first, first_len));
    assert_eq!(
        parse_message(&buffer[first_len..]),
        ParseResult::Parsed(second, buffer.len() - first_len)
    );
}

#[test]
fn trailing_bytes_are_left_alone() {
    assert_eq!(
        parse_message(b"+OK\r\n?garbage"),
        ParseResult::Parsed(Value::SimpleString(b"OK".to_vec()), 5)
    );
}

#[test]
fn array_waits_for_missing_element() {
    assert_eq!(parse_message(b"*2\r\n$3\r\nfoo\r\n"), ParseResult::Incomplete);
    assert_eq!(parse_message(b"*2\r\n$3\r\nfoo\r\n$3\r\nba"), ParseResult::Incomplete);
    assert_eq!(
        parse_message(b"*2\r\n$3\r\nfoo\r\n$3\r\nbar\r\n"),
        ParseResult::Parsed(Value::Array(vec![bulk(b"foo"), bulk(b"bar")]), 22)
    );
}

#[test]
fn empty_buffer_is_incomplete() {
    assert_eq!(parse_message(b""), ParseResult::Incomplete);
}

#[test]
fn missing_terminator_is_incomplete() {
    assert_eq!(parse_message(b"+OK"), ParseResult::Incomplete);
    assert_eq!(parse_message(b"+OK\r"), ParseResult::Incomplete);
    assert_eq!(parse_message(b":12"), ParseResult::Incomplete);
    assert_eq!(parse_message(b"$5\r\nhel"), ParseResult::Incomplete);
    assert_eq!(parse_message(b"$5\r\nhello\r"), ParseResult::Incomplete);
    assert_eq!(parse_message(b"$5\r\nhelloXY"), ParseResult::Malformed(ParseError::MissingTerminator));
}

#[test]
fn unknown_type_tag_is_malformed() {
    assert_eq!(parse_message(b"?3\r\n"), ParseResult::Malformed(ParseError::UnknownTypeTag));
    assert_eq!(parse_message(b"P"), ParseResult::Malformed(ParseError::UnknownTypeTag));
}

#[test]
fn non_numeric_length_is_malformed() {
    assert_eq!(parse_message(b"$abc\r\n"), ParseResult::Malformed(ParseError::InvalidNumber));
    assert_eq!(parse_message(b"*\r\n"), ParseResult::Malformed(ParseError::InvalidNumber));
    assert_eq!(parse_message(b":1x\r\n"), ParseResult::Malformed(ParseError::InvalidNumber));
    assert_eq!(
        parse_message(b":9223372036854775808\r\n"),
        ParseResult::Malformed(ParseError::InvalidNumber)
    );
}

#[test]
fn negative_length_other_than_null_is_malformed() {
    assert_eq!(parse_message(b"$-2\r\n"), ParseResult::Malformed(ParseError::InvalidLength));
    assert_eq!(parse_message(b"*-5\r\n"), ParseResult::Malformed(ParseError::InvalidLength));
}

#[test]
fn nulls_are_distinct_from_empty() {
    assert_eq!(parse_message(b"$-1\r\n"), ParseResult::Parsed(Value::NullBulkString, 5));
    assert_eq!(parse_message(b"$0\r\n\r\n"), ParseResult::Parsed(bulk(b""), 6));
    assert_eq!(parse_message(b"*-1\r\n"), ParseResult::Parsed(Value::NullArray, 5));
    assert_eq!(parse_message(b"*0\r\n"), ParseResult::Parsed(Value::Array(Vec::new()), 4));
}

#[test]
fn huge_declared_length_is_incomplete() {
    assert_eq!(parse_message(b"$9223372036854775807\r\nabc"), ParseResult::Incomplete);
    assert_eq!(parse_message(b"*9223372036854775807\r\n:1\r\n"), ParseResult::Incomplete);
}

#[test]
fn nesting_is_bounded() {
    let deepest = nested(MAX_DEPTH);
    let bytes = deepest.clone().serialize();
    let n = bytes.len();
    assert_eq!(parse_message(&bytes), ParseResult::Parsed(deepest, n));
    let too_deep = nested(MAX_DEPTH + 1).serialize();
    assert_eq!(parse_message(&too_deep), ParseResult::Malformed(ParseError::NestingTooDeep));
}

#[test]
fn malformed_element_makes_the_array_malformed() {
    assert_eq!(
        parse_message(b"*2\r\n:1\r\n!\r\n"),
        ParseResult::Malformed(ParseError::UnknownTypeTag)
    );
}

#[test]
fn parse_int_reads_decimal() {
    assert_eq!(parse_int(b"0"), Ok(0));
    assert_eq!(parse_int(b"42"), Ok(42));
    assert_eq!(parse_int(b"-42"), Ok(-42));
    assert_eq!(parse_int(b"007"), Ok(7));
    assert_eq!(parse_int(b"-0"), Ok(0));
    assert_eq!(parse_int(b"9223372036854775807"), Ok(i64::MAX));
    assert_eq!(parse_int(b"-9223372036854775808"), Ok(i64::MIN));
}

#[test]
fn parse_int_rejects_what_is_no_number() {
    assert_eq!(parse_int(b""), Err(ParseError::InvalidNumber));
    assert_eq!(parse_int(b"-"), Err(ParseError::InvalidNumber));
    assert_eq!(parse_int(b"+5"), Err(ParseError::InvalidNumber));
    assert_eq!(parse_int(b"12a"), Err(ParseError::InvalidNumber));
    assert_eq!(parse_int(b" 1"), Err(ParseError::InvalidNumber));
    assert_eq!(parse_int(b"1-"), Err(ParseError::InvalidNumber));
    assert_eq!(parse_int(b"9223372036854775808"), Err(ParseError::InvalidNumber));
    assert_eq!(parse_int(b"-9223372036854775809"), Err(ParseError::InvalidNumber));
    assert_eq!(parse_int(b"99999999999999999999999"), Err(ParseError::InvalidNumber));
}

#[test]
fn read_until_crlf_splits_the_first_line() {
    assert_eq!(read_until_crlf(b"abc\r\ndef\r\n"), Some((&b"abc"[..], 5)));
    assert_eq!(read_until_crlf(b"\r\n"), Some((&b""[..], 2)));
    assert_eq!(read_until_crlf(b"a\rb\n\r\nrest"), Some((&b"a\rb\n"[..], 6)));
    assert_eq!(read_until_crlf(b"abc\r"), None);
    assert_eq!(read_until_crlf(b"abc"), None);
    assert_eq!(read_until_crlf(b""), None);
}

#[test]
fn find_crlf_starts_where_told() {
    assert_eq!(find_crlf(b"\r\nab\r\n", 0), Some(0));
    assert_eq!(find_crlf(b"\r\nab\r\n", 1), Some(4));
    assert_eq!(find_crlf(b"\r\nab\r\n", 5), None);
    assert_eq!(find_crlf(b"\r\nab\r\n", 6), None);
}

#[test]
fn parse_errors_have_reasons() {
    assert_eq!(ParseError::UnknownTypeTag.reason(), "unknown type tag");
    assert_eq!(ParseError::InvalidNumber.reason(), "invalid number");
    assert_eq!(ParseError::InvalidLength.reason(), "invalid length");
    assert_eq!(ParseError::MissingTerminator.reason(), "missing terminator");
    assert_eq!(ParseError::NestingTooDeep.reason(), "nesting too deep");
}
