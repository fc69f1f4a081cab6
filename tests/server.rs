use bytes::Bytes;
use redis_starter_rust::connection::Connection;
use redis_starter_rust::db::Db;
use redis_starter_rust::error::Error;
use redis_starter_rust::resp::RESP;
use redis_starter_rust::server::{step, Action, Event, Phase};

/// Runs one request through the handler's decisions and the store, as the
/// server does, and gives the reply's bytes.
fn serve(conn: &mut Connection, db: &mut Db, now: u64) -> Vec<u8> {
    let frame = conn.parse_frame().unwrap().expect("a whole frame");
    let (phase, action) = step(Phase::AwaitingFrame, Event::FrameRead(frame));
    let reply = match action {
        Action::Submit(command) => {
            assert_eq!(phase, Phase::Dispatching);
            let result = command.execute_cmd(db, now);
            match step(phase, Event::Replied(result)) {
                (Phase::WritingReply, Action::Write(r)) => r,
                _ => panic!("expected a reply to write"),
            }
        }
        Action::Write(r) => {
            assert_eq!(phase, Phase::WritingReply);
            r
        }
        _ => panic!("unexpected action"),
    };
    let (next, action) = step(Phase::WritingReply, Event::Written);
    assert_eq!(next, Phase::AwaitingFrame);
    assert!(matches!(action, Action::ReadFrame));
    reply.serialize()
}

#[test]
fn end_to_end_requests() {
    let mut conn = Connection::new();
    let mut db = Db::new();
    assert!(conn.receive(b"*1\r\n$4\r\nPING\r\n").unwrap());
    assert_eq!(serve(&mut conn, &mut db, 0), Bytes::from_static(b"+PONG\r\n"));
    assert!(conn.receive(b"*3\r\n$3\r\nSET\r\n$3\r\nfoo\r\n$3\r\nbar\r\n").unwrap());
    assert_eq!(serve(&mut conn, &mut db, 1), Bytes::from_static(b"+OK\r\n"));
    assert!(conn.receive(b"*2\r\n$3\r\nGET\r\n$3\r\nfoo\r\n").unwrap());
    assert_eq!(serve(&mut conn, &mut db, 2), Bytes::from_static(b"$3\r\nbar\r\n"));
    assert!(conn.receive(b"*2\r\n$3\r\nGET\r\n$7\r\nmissing\r\n").unwrap());
    assert_eq!(serve(&mut conn, &mut db, 3), Bytes::from_static(b"$-1\r\n"));
    assert!(conn.is_empty());
}

#[test]
fn invalid_command_is_answered_and_connection_continues() {
    let mut conn = Connection::new();
    let mut db = Db::new();
    assert!(conn.receive(b"*2\r\n$6\r\nGARBLE\r\n$1\r\nx\r\n*1\r\n$4\r\nPING\r\n").unwrap());
    assert_eq!(serve(&mut conn, &mut db, 0), Bytes::from_static(b"-ERR Unknown or unsupported command\r\n"));
    assert_eq!(serve(&mut conn, &mut db, 0), Bytes::from_static(b"+PONG\r\n"));
}

#[test]
fn unreachable_executor_gets_an_error_reply() {
    match step(Phase::Dispatching, Event::Unreachable) {
        (Phase::WritingReply, Action::Write(r)) => {
            assert_eq!(r, RESP::Error("ERR the executor is unreachable".to_string()))
        }
        _ => panic!("expected an error reply"),
    }
}

#[test]
fn close_and_failure_stop_the_handler() {
    assert!(matches!(step(Phase::AwaitingFrame, Event::PeerClosed), (Phase::Closed, Action::Stop)));
    assert!(matches!(step(Phase::AwaitingFrame, Event::ReadFailed), (Phase::Closed, Action::Stop)));
    assert!(matches!(step(Phase::WritingReply, Event::PeerClosed), (Phase::Closed, Action::Stop)));
}

#[test]
fn partial_reads_are_buffered() {
    let mut conn = Connection::new();
    let bytes = b"*1\r\n$4\r\nPING\r\n";
    for (i, b) in bytes.iter().enumerate() {
        assert!(conn.parse_frame().unwrap().is_none(), "byte {i}");
        assert!(conn.receive(&[*b]).unwrap());
    }
    let frame = conn.parse_frame().unwrap().unwrap();
    assert_eq!(frame, RESP::Array(vec![RESP::Bulk(Bytes::from_static(b"PING"))]));
    assert!(conn.is_empty());
}

#[test]
fn peer_close_is_clean_only_without_pending_bytes() {
    let mut conn = Connection::new();
    assert!(!conn.receive(b"").unwrap());
    assert!(conn.receive(b"*1\r\n").unwrap());
    assert!(conn.parse_frame().unwrap().is_none());
    assert!(matches!(conn.receive(b""), Err(Error::ConnectionClosed)));
}

#[test]
fn malformed_buffer_is_an_error() {
    let mut conn = Connection::new();
    assert!(conn.receive(b"!oops\r\n").unwrap());
    assert!(matches!(conn.parse_frame(), Err(Error::InvalidRequestData)));
}
