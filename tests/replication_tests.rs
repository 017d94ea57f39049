use bytes::BytesMut;
use redis_starter_rust::config::parse_args;
use redis_starter_rust::master::{follow_up, replicated_command, snapshot_transfer, FollowUp};
use redis_starter_rust::parser::{parse_redis_value, RedisValue};
use redis_starter_rust::request::{Request, RequestHandler};
use redis_starter_rust::slave::{
    apply_from_master, check_response, decode_snapshot, handshake_command, make_command,
    next_step, Applied, HandshakeStep, SnapshotFrame,
};
use redis_starter_rust::store::Store;

const PAYLOAD_HEX: &str = "524544495330303131fa0972656469732d76657205372e322e30fa0a72656469732d62697473c040fa056374696d65c26d08bc65fa08757365642d6d656dc2b0c41000fa08616f662d62617365c000fff06e3bfec0ff5aa2";

#[test]
fn snapshot_is_framed_without_trailing_crlf() {
    let wire = snapshot_transfer();
    let payload = hex::decode(PAYLOAD_HEX).unwrap();
    let mut expected = format!("${}\r\n", payload.len()).into_bytes();
    expected.extend_from_slice(&payload);
    assert_eq!(wire, expected);
    assert!(wire.starts_with(b"$88\r\nREDIS0011"));
    assert_eq!(decode_snapshot(&wire), SnapshotFrame::Complete(wire.len()));
}

#[test]
fn snapshot_frame_edges() {
    assert_eq!(decode_snapshot(b""), SnapshotFrame::NeedMore);
    assert_eq!(decode_snapshot(b"$5\r\nab"), SnapshotFrame::NeedMore);
    assert_eq!(decode_snapshot(b"$5"), SnapshotFrame::NeedMore);
    assert_eq!(decode_snapshot(b"$2\r\nab*1\r\n"), SnapshotFrame::Complete(6));
    assert_eq!(decode_snapshot(b"+OK\r\n"), SnapshotFrame::Invalid);
    assert_eq!(decode_snapshot(b"$-1\r\n"), SnapshotFrame::Invalid);
}

#[test]
fn writes_are_forwarded_as_plain_set() {
    let req = Request::SET("k".into(), "v".into(), Some(10));
    let frame = replicated_command(&req).unwrap();
    assert_eq!(frame.serialize(), b"*3\r\n$3\r\nSET\r\n$1\r\nk\r\n$1\r\nv\r\n".to_vec());
    assert!(replicated_command(&Request::Ping).is_none());
    assert!(matches!(follow_up(&req, true), FollowUp::Publish(_)));
    assert!(matches!(follow_up(&req, false), FollowUp::Nothing));
    assert!(matches!(follow_up(&Request::PSYNC(vec![]), true), FollowUp::FeedReplica));
    assert!(matches!(follow_up(&Request::INFO, true), FollowUp::Nothing));
}

#[test]
fn handshake_commands_on_the_wire() {
    assert_eq!(handshake_command(HandshakeStep::Ping, "6380").serialize(), b"*1\r\n$4\r\nPING\r\n".to_vec());
    assert_eq!(
        handshake_command(HandshakeStep::ListeningPort, "6380").serialize(),
        b"*3\r\n$8\r\nREPLCONF\r\n$14\r\nlistening-port\r\n$4\r\n6380\r\n".to_vec()
    );
    assert_eq!(
        handshake_command(HandshakeStep::Capabilities, "6380").serialize(),
        b"*3\r\n$8\r\nREPLCONF\r\n$4\r\ncapa\r\n$6\r\npsync2\r\n".to_vec()
    );
    assert_eq!(
        handshake_command(HandshakeStep::PSync, "6380").serialize(),
        b"*3\r\n$5\r\nPSYNC\r\n$1\r\n?\r\n$2\r\n-1\r\n".to_vec()
    );
    assert_eq!(make_command(vec!["A", "b"]).serialize(), b"*2\r\n$1\r\nA\r\n$1\r\nb\r\n".to_vec());
}

#[test]
fn handshake_response_checks() {
    let simple = |s: &str| RedisValue::SimpleString(s.to_owned());
    assert!(check_response(HandshakeStep::Ping, &simple("PONG")));
    assert!(!check_response(HandshakeStep::Ping, &simple("OK")));
    assert!(check_response(HandshakeStep::ListeningPort, &simple("OK")));
    assert!(check_response(HandshakeStep::Capabilities, &simple("OK")));
    assert!(!check_response(HandshakeStep::Capabilities, &RedisValue::BulkString("OK".into())));
    assert!(check_response(HandshakeStep::PSync, &simple("FULLRESYNC 75cd7bc10c49047e0d163660f3b90625b1af31dc 0")));
    assert!(!check_response(HandshakeStep::PSync, &simple("FULLRESYNC")));
    assert!(!check_response(HandshakeStep::PSync, &simple("CONTINUE")));
    assert_eq!(next_step(HandshakeStep::Ping), Some(HandshakeStep::ListeningPort));
    assert_eq!(next_step(HandshakeStep::PSync), None);
}

/// The replica's side of a whole exchange, with the master's bytes given by hand.
#[test]
fn replica_handshake_then_applies_stream() {
    let config = parse_args(
        ["exec", "--port", "6380", "--replicaof", "127.0.0.1 6379"]
            .iter()
            .map(|s| s.to_string())
            .collect(),
    )
    .unwrap();
    let own_port = config.get_port();
    let replies = ["+PONG\r\n", "+OK\r\n", "+OK\r\n"];
    let mut step = Some(HandshakeStep::Ping);
    let mut sent = Vec::new();
    let mut i = 0;
    while let Some(s) = step {
        sent.extend(handshake_command(s, &own_port).serialize());
        let mut reply = if i < 3 {
            BytesMut::from(replies[i])
        } else {
            let mut b = BytesMut::from("+FULLRESYNC 0bc2cc0c5c37aee9000f72bdbb894c472a444051 0\r\n");
            b.extend_from_slice(&snapshot_transfer());
            b.extend_from_slice(b"*3\r\n$3\r\nSET\r\n$1\r\nk\r\n$1\r\nv\r\n");
            b
        };
        let value = parse_redis_value(&mut reply).unwrap();
        assert!(check_response(s, &value));
        step = next_step(s);
        i += 1;
        if step.is_none() {
            // the snapshot, then the stream
            match decode_snapshot(&reply) {
                SnapshotFrame::Complete(n) => {
                    let _ = reply.split_to(n);
                }
                _ => panic!("expected the snapshot"),
            }
            let handler = RequestHandler::new(config.clone());
            let mut store = Store::new();
            assert!(matches!(
                apply_from_master(&handler, &mut store, &mut reply, 0),
                Applied::Applied(None)
            ));
            assert_eq!(store.get(&"k".to_owned(), 0), Some("v".to_owned()));
            assert!(matches!(
                apply_from_master(&handler, &mut store, &mut reply, 0),
                Applied::NeedMore
            ));
        }
    }
    assert!(sent.starts_with(b"*1\r\n$4\r\nPING\r\n*3\r\n$8\r\nREPLCONF\r\n$14\r\nlistening-port\r\n$4\r\n6380\r\n"));
}

#[test]
fn replica_stops_on_a_frame_that_is_no_command() {
    let handler = RequestHandler::new(parse_args(vec!["exec".to_owned()]).unwrap());
    let mut store = Store::new();
    let mut buf = BytesMut::from("+PING\r\n");
    assert!(matches!(apply_from_master(&handler, &mut store, &mut buf, 0), Applied::Stop));
    let mut error = BytesMut::from("-ERR no\r\n");
    assert!(matches!(apply_from_master(&handler, &mut store, &mut error, 0), Applied::Stop));
    let mut garbage = BytesMut::from("!\r\n");
    assert!(matches!(apply_from_master(&handler, &mut store, &mut garbage, 0), Applied::Stop));
}
