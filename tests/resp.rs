use bytes::Bytes;
use redis_starter_rust::error::Error;
use redis_starter_rust::resp::RESP;

#[test]
fn null_strings_works() {
    let src = b"$-1\r\n";
    let res = RESP::parse(src);
    assert_eq!((RESP::Null, 5), res.unwrap())
}

#[test]
fn empty_strings_works() {
    // A length of -1 alone marks a null; the trailing CRLF belongs to the next frame.
    let src = b"$-1\r\n\r\n";
    let res = RESP::parse(src);
    assert_eq!((RESP::Null, 5), res.unwrap())
}

#[test]
fn null_arrays_works() {
    let src = b"*-1\r\n";
    let res = RESP::parse(src);
    assert_eq!((RESP::Null, 5), res.unwrap())
}

#[test]
fn empty_arrays_works() {
    let src = b"*-1\r\n\r\n";
    let res = RESP::parse(src);
    assert_eq!((RESP::Null, 5), res.unwrap());
}

#[test]
fn can_parse() {
    let src =
        b"*5\r\n+simple string\r\n-simple error\r\n:-121\r\n:121\r\n$11\r\nbulk string\r\n";
    let parse_res = RESP::parse(src);
    let expected = RESP::Array(vec![
        RESP::Simple("simple string".to_string()),
        RESP::Error("simple error".to_string()),
        RESP::Integer(-121),
        RESP::Integer(121),
        RESP::Bulk(Bytes::from_static(b"bulk string")),
    ]);
    assert_eq!((expected, 66), parse_res.unwrap());
}

#[test]
fn empty_buffer_is_incomplete() {
    assert!(matches!(RESP::parse(b""), Err(Error::IncompleteRequestData)));
}

#[test]
fn unknown_tag_is_malformed() {
    assert!(matches!(RESP::parse(b"?x\r\n"), Err(Error::InvalidRequestData)));
    assert!(matches!(RESP::parse(b"?"), Err(Error::InvalidRequestData)));
}

#[test]
fn non_numeric_integer_is_malformed() {
    assert!(matches!(RESP::parse(b":12a\r\n"), Err(Error::InvalidRequestData)));
    assert!(matches!(RESP::parse(b":\r\n"), Err(Error::InvalidRequestData)));
    assert!(matches!(RESP::parse(b":9223372036854775808\r\n"), Err(Error::InvalidRequestData)));
}

#[test]
fn integer_limits_parse() {
    assert_eq!(
        RESP::parse(b":-9223372036854775808\r\n").unwrap(),
        (RESP::Integer(i64::MIN), 23)
    );
    assert_eq!(
        RESP::parse(b":9223372036854775807\r\n").unwrap(),
        (RESP::Integer(i64::MAX), 22)
    );
    assert_eq!(RESP::parse(b":+7\r\n").unwrap(), (RESP::Integer(7), 5));
}

#[test]
fn bulk_length_mismatch_is_malformed() {
    assert!(matches!(RESP::parse(b"$3\r\nabcd\r\n"), Err(Error::InvalidRequestData)));
    assert!(matches!(RESP::parse(b"$-2\r\n"), Err(Error::InvalidRequestData)));
}

#[test]
fn bulk_is_binary_safe() {
    let (frame, used) = RESP::parse(b"$4\r\na\r\nb\r\n").unwrap();
    assert_eq!(frame, RESP::Bulk(Bytes::from_static(b"a\r\nb")));
    assert_eq!(used, 10);
}

#[test]
fn short_bulk_is_incomplete() {
    assert!(matches!(RESP::parse(b"$5\r\nab"), Err(Error::IncompleteRequestData)));
    assert!(matches!(RESP::parse(b"*2\r\n:1\r\n"), Err(Error::IncompleteRequestData)));
}

#[test]
fn parse_reports_span_of_first_frame() {
    let (frame, used) = RESP::parse(b"+OK\r\n+NEXT\r\n").unwrap();
    assert_eq!(frame, RESP::Simple("OK".to_string()));
    assert_eq!(used, 5);
}

#[test]
fn serialize_scalars() {
    assert_eq!(RESP::Simple("PONG".to_string()).serialize(), Bytes::from_static(b"+PONG\r\n"));
    assert_eq!(RESP::Error("ERR x".to_string()).serialize(), Bytes::from_static(b"-ERR x\r\n"));
    assert_eq!(RESP::Integer(-42).serialize(), Bytes::from_static(b":-42\r\n"));
    assert_eq!(RESP::Integer(i64::MIN).serialize(), Bytes::from_static(b":-9223372036854775808\r\n"));
    assert_eq!(RESP::Integer(0).serialize(), Bytes::from_static(b":0\r\n"));
    assert_eq!(RESP::Bulk(Bytes::from_static(b"bar")).serialize(), Bytes::from_static(b"$3\r\nbar\r\n"));
    assert_eq!(RESP::Bulk(Bytes::new()).serialize(), Bytes::from_static(b"$0\r\n\r\n"));
    assert_eq!(RESP::Null.serialize(), Bytes::from_static(b"$-1\r\n"));
}

#[test]
fn serialize_nested_array() {
    let frame = RESP::Array(vec![
        RESP::Integer(1),
        RESP::Array(vec![RESP::Bulk(Bytes::from_static(b"x")), RESP::Null]),
    ]);
    assert_eq!(frame.serialize(), Bytes::from_static(b"*2\r\n:1\r\n*2\r\n$1\r\nx\r\n$-1\r\n"));
}

fn sample() -> RESP {
    RESP::Array(vec![
        RESP::Simple("simple string".to_string()),
        RESP::Error("simple error".to_string()),
        RESP::Integer(-121),
        RESP::Bulk(Bytes::from_static(b"bin\r\nary")),
        RESP::Null,
        RESP::Array(vec![RESP::Integer(7), RESP::Array(Vec::new())]),
    ])
}

#[test]
fn round_trip_keeps_frame_and_length() {
    let bytes = sample().serialize();
    let (frame, used) = RESP::parse(&bytes).unwrap();
    assert_eq!(frame, sample());
    assert_eq!(used, bytes.len());
}

#[test]
fn incremental_feed_waits_for_last_byte() {
    let bytes = sample().serialize();
    for k in 0..bytes.len() {
        assert!(matches!(RESP::parse(&bytes[..k]), Err(Error::IncompleteRequestData)), "prefix {k}");
    }
    assert_eq!(RESP::parse(&bytes).unwrap(), (sample(), bytes.len()));
}

#[test]
fn is_string_only_for_simple_and_bulk() {
    assert!(RESP::Simple("a".to_string()).is_string());
    assert!(RESP::Bulk(Bytes::from_static(b"a")).is_string());
    assert!(!RESP::Integer(1).is_string());
    assert!(!RESP::Null.is_string());
    assert!(!RESP::Error("a".to_string()).is_string());
    assert!(!RESP::Array(Vec::new()).is_string());
}
