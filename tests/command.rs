use bytes::Bytes;
use redis_starter_rust::command::Command;
use redis_starter_rust::db::Db;
use redis_starter_rust::error::Error;
use redis_starter_rust::resp::RESP;

fn bulk(s: &str) -> RESP {
    RESP::Bulk(Bytes::copy_from_slice(s.as_bytes()))
}

fn request(parts: &[&str]) -> RESP {
    RESP::Array(parts.iter().map(|p| bulk(p)).collect())
}

fn message(r: Result<Command, Error>) -> String {
    match r {
        Err(Error::Msg(m)) => m,
        other => panic!("expected a rejection, got {other:?}"),
    }
}

#[test]
fn echo_without_message_is_rejected() {
    assert_eq!(message(Command::try_from(request(&["ECHO"]))), "Echo command takes 1 argument");
}

#[test]
fn unknown_verb_is_rejected() {
    assert_eq!(
        message(Command::try_from(request(&["GARBLE", "x"]))),
        "Unknown or unsupported command"
    );
}

#[test]
fn empty_and_non_array_requests_are_rejected() {
    assert_eq!(message(Command::try_from(RESP::Array(Vec::new()))), "Command array is empty");
    assert_eq!(message(Command::try_from(bulk("PING"))), "Commands should be an array");
    assert_eq!(
        message(Command::try_from(RESP::Array(vec![RESP::Integer(1)]))),
        "Expected command argument to be a string"
    );
}

#[test]
fn verbs_are_case_insensitive() {
    assert!(matches!(Command::try_from(request(&["ping"])), Ok(Command::Ping { msg: None })));
    assert!(matches!(
        Command::try_from(RESP::Array(vec![RESP::Simple("pInG".to_string())])),
        Ok(Command::Ping { msg: None })
    ));
}

#[test]
fn ping_takes_an_optional_message() {
    match Command::try_from(request(&["PING", "hi"])) {
        Ok(Command::Ping { msg: Some(m) }) => assert_eq!(m, Bytes::from_static(b"hi")),
        other => panic!("{other:?}"),
    }
    match Command::try_from(RESP::Array(vec![bulk("PING"), RESP::Simple("yo".to_string())])) {
        Ok(Command::Ping { msg: Some(m) }) => assert_eq!(m, Bytes::from_static(b"yo")),
        other => panic!("{other:?}"),
    }
    assert_eq!(
        message(Command::try_from(request(&["PING", "a", "b"]))),
        "Ping command takes at most 1 argument"
    );
}

#[test]
fn echo_keeps_its_frame_and_rejects_non_strings() {
    match Command::try_from(request(&["ECHO", "hey"])) {
        Ok(Command::Echo { msg }) => assert_eq!(msg, bulk("hey")),
        other => panic!("{other:?}"),
    }
    assert_eq!(
        message(Command::try_from(RESP::Array(vec![bulk("ECHO"), RESP::Integer(3)]))),
        "Echo command only takes strings"
    );
}

#[test]
fn set_reads_key_value_and_ttl() {
    match Command::try_from(request(&["SET", "k", "v"])) {
        Ok(Command::SetValue { key, value, ttl }) => {
            assert_eq!(key, "k");
            assert_eq!(value, Bytes::from_static(b"v"));
            assert_eq!(ttl, None);
        }
        other => panic!("{other:?}"),
    }
    match Command::try_from(request(&["SET", "k", "v", "EX", "2"])) {
        Ok(Command::SetValue { ttl, .. }) => assert_eq!(ttl, Some(2000)),
        other => panic!("{other:?}"),
    }
    match Command::try_from(request(&["SET", "k", "v", "PX", "250"])) {
        Ok(Command::SetValue { ttl, .. }) => assert_eq!(ttl, Some(250)),
        other => panic!("{other:?}"),
    }
}

#[test]
fn set_rejects_bad_ttl() {
    assert_eq!(
        message(Command::try_from(request(&["SET", "k", "v", "XX", "2"]))),
        "Set command option is not supported"
    );
    assert_eq!(
        message(Command::try_from(request(&["SET", "k", "v", "EX", "soon"]))),
        "Expiration duration must be a number"
    );
    assert_eq!(
        message(Command::try_from(request(&["SET", "k", "v", "EX", "18446744073709552"]))),
        "Expiration duration is too large"
    );
    assert_eq!(
        message(Command::try_from(request(&["SET", "k", "v", "EX"]))),
        "Set command takes a key, a value and an optional expiry"
    );
    assert_eq!(
        message(Command::try_from(request(&["SET", "k"]))),
        "Set command requires a key and a value"
    );
    assert_eq!(
        message(Command::try_from(RESP::Array(vec![bulk("SET"), bulk("k"), RESP::Simple("v".to_string())]))),
        "Expected command argument to be a bulk string"
    );
}

#[test]
fn get_takes_exactly_one_key() {
    assert!(matches!(Command::try_from(request(&["GET", "k"])), Ok(Command::Get { .. })));
    assert_eq!(message(Command::try_from(request(&["GET"]))), "Get command takes 1 argument");
}

#[test]
fn execute_replies() {
    let mut db = Db::new();
    let run = |db: &mut Db, parts: &[&str], now: u64| {
        Command::try_from(request(parts)).unwrap().execute_cmd(db, now)
    };
    assert_eq!(run(&mut db, &["PING"], 0), RESP::Simple("PONG".to_string()));
    assert_eq!(run(&mut db, &["PING", "m"], 0), bulk("m"));
    assert_eq!(run(&mut db, &["ECHO", "e"], 0), bulk("e"));
    assert_eq!(run(&mut db, &["SET", "k", "v1", "PX", "50"], 0), RESP::Simple("OK".to_string()));
    assert_eq!(run(&mut db, &["GET", "k"], 50), bulk("v1"));
    assert_eq!(run(&mut db, &["GET", "k"], 51), RESP::Null);
    assert_eq!(run(&mut db, &["SET", "k", "v2"], 60), RESP::Simple("OK".to_string()));
    assert_eq!(run(&mut db, &["SET", "k", "v3"], 61), bulk("v2"));
    assert_eq!(run(&mut db, &["GET", "missing"], 62), RESP::Null);
}
