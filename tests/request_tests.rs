use bytes::BytesMut;
use redis_starter_rust::config::parse_args;
use redis_starter_rust::connection::{serve_frame, Served};
use redis_starter_rust::master::FollowUp;
use redis_starter_rust::parser::{parse_redis_value, RedisValue};
use redis_starter_rust::request::{
    get_request, make_config_request, make_set_request, request_from_parts, CommandError,
    Request, RequestHandler,
};
use redis_starter_rust::store::Store;

fn args(words: &[&str]) -> Vec<String> {
    words.iter().map(|w| w.to_string()).collect()
}

/// Runs one command given on the wire at time `now`, and gives the reply on the wire.
fn run(handler: &RequestHandler, store: &mut Store, wire: &str, now: u64) -> Vec<u8> {
    let mut buf = BytesMut::from(wire);
    let value = parse_redis_value(&mut buf).unwrap();
    assert!(buf.is_empty());
    match get_request(value) {
        Ok(req) => handler.handle_request(store, req, now).0.serialize(),
        Err(e) => RedisValue::Error(e.message().to_owned()).serialize(),
    }
}

fn master() -> RequestHandler {
    RequestHandler::new(parse_args(args(&["exec"])).unwrap())
}

#[test]
fn ping_and_echo() {
    let h = master();
    let mut store = Store::new();
    assert_eq!(run(&h, &mut store, "*1\r\n$4\r\nPING\r\n", 0), b"+PONG\r\n".to_vec());
    assert_eq!(run(&h, &mut store, "*2\r\n$4\r\nECHO\r\n$3\r\nhey\r\n", 0), b"$3\r\nhey\r\n".to_vec());
}

#[test]
fn set_and_get_without_ttl() {
    let h = master();
    let mut store = Store::new();
    assert_eq!(run(&h, &mut store, "*3\r\n$3\r\nSET\r\n$3\r\nfoo\r\n$3\r\nbar\r\n", 0), b"+OK\r\n".to_vec());
    assert_eq!(run(&h, &mut store, "*2\r\n$3\r\nGET\r\n$3\r\nfoo\r\n", 0), b"$3\r\nbar\r\n".to_vec());
    assert_eq!(run(&h, &mut store, "*2\r\n$3\r\nGET\r\n$3\r\nzap\r\n", 0), b"$-1\r\n".to_vec());
}

#[test]
fn two_sets_both_reply_ok() {
    let h = master();
    let mut store = Store::new();
    let set = "*3\r\n$3\r\nSET\r\n$1\r\nk\r\n$1\r\nv\r\n";
    assert_eq!(run(&h, &mut store, set, 0), b"+OK\r\n".to_vec());
    assert_eq!(run(&h, &mut store, set, 0), b"+OK\r\n".to_vec());
}

#[test]
fn set_with_px_expires() {
    let h = master();
    let mut store = Store::new();
    let set = "*5\r\n$3\r\nSET\r\n$1\r\nk\r\n$1\r\nv\r\n$2\r\nPX\r\n$2\r\n50\r\n";
    assert_eq!(run(&h, &mut store, set, 0), b"+OK\r\n".to_vec());
    let get = "*2\r\n$3\r\nGET\r\n$1\r\nk\r\n";
    assert_eq!(run(&h, &mut store, get, 10), b"$1\r\nv\r\n".to_vec());
    assert_eq!(run(&h, &mut store, get, 100), b"$-1\r\n".to_vec());
}

#[test]
fn set_with_px_hands_out_a_ticket() {
    let h = master();
    let mut store = Store::new();
    let req = get_request(
        parse_redis_value(&mut BytesMut::from(
            "*5\r\n$3\r\nset\r\n$1\r\nk\r\n$1\r\nv\r\n$2\r\npx\r\n$3\r\n+50\r\n",
        ))
        .unwrap(),
    )
    .unwrap();
    let (reply, ticket) = h.handle_request(&mut store, req, 7);
    assert_eq!(reply, RedisValue::SimpleString("OK".into()));
    let ticket = ticket.unwrap();
    assert_eq!((ticket.key.as_str(), ticket.delay_ms), ("k", 50));
}

#[test]
fn config_get_dir() {
    let h = RequestHandler::new(
        parse_args(args(&["exec", "--dir", "/tmp", "--dbfilename", "d.rdb"])).unwrap(),
    );
    let mut store = Store::new();
    assert_eq!(
        run(&h, &mut store, "*3\r\n$6\r\nCONFIG\r\n$3\r\nGET\r\n$3\r\ndir\r\n", 0),
        b"*2\r\n$3\r\ndir\r\n$4\r\n/tmp\r\n".to_vec()
    );
    assert_eq!(
        run(&h, &mut store, "*3\r\n$6\r\nconfig\r\n$3\r\nget\r\n$4\r\nport\r\n", 0),
        b"*2\r\n$4\r\nport\r\n$-1\r\n".to_vec()
    );
}

#[test]
fn config_get_dir_unset_is_empty() {
    let h = master();
    let mut store = Store::new();
    assert_eq!(
        run(&h, &mut store, "*3\r\n$6\r\nCONFIG\r\n$3\r\nGET\r\n$3\r\ndir\r\n", 0),
        b"*2\r\n$3\r\ndir\r\n$-1\r\n".to_vec()
    );
}

#[test]
fn info_on_master() {
    let h = master();
    let mut store = Store::new();
    let reply = run(&h, &mut store, "*1\r\n$4\r\nINFO\r\n", 0);
    let text = "role:master\nmaster_replid:0bc2cc0c5c37aee9000f72bdbb894c472a444051\nmaster_repl_offset:0";
    assert_eq!(reply, format!("${}\r\n{}\r\n", text.len(), text).into_bytes());
}

#[test]
fn keys_star_and_other_patterns() {
    let h = master();
    let mut store = Store::new();
    run(&h, &mut store, "*3\r\n$3\r\nSET\r\n$1\r\na\r\n$1\r\n1\r\n", 0);
    assert_eq!(run(&h, &mut store, "*2\r\n$4\r\nKEYS\r\n$1\r\n*\r\n", 0), b"*1\r\n$1\r\na\r\n".to_vec());
    let other = run(&h, &mut store, "*2\r\n$4\r\nKEYS\r\n$2\r\na*\r\n", 0);
    assert_eq!(other[0], b'-');
}

#[test]
fn replconf_and_psync_replies() {
    let h = master();
    let mut store = Store::new();
    assert_eq!(
        run(&h, &mut store, "*3\r\n$8\r\nREPLCONF\r\n$4\r\ncapa\r\n$6\r\npsync2\r\n", 0),
        b"+OK\r\n".to_vec()
    );
    assert_eq!(
        run(&h, &mut store, "*3\r\n$5\r\nPSYNC\r\n$1\r\n?\r\n$2\r\n-1\r\n", 0),
        b"+FULLRESYNC 0bc2cc0c5c37aee9000f72bdbb894c472a444051 0\r\n".to_vec()
    );
}

#[test]
fn command_errors() {
    let frame = |wire: &str| parse_redis_value(&mut BytesMut::from(wire)).unwrap();
    let err = |wire: &str| get_request(frame(wire)).err().unwrap();
    assert_eq!(err("+PING\r\n"), CommandError::NotArray);
    assert_eq!(err("*1\r\n+PING\r\n"), CommandError::NotBulkString);
    assert_eq!(err("*0\r\n"), CommandError::EmptyCommand);
    assert_eq!(err("*1\r\n$4\r\nNOPE\r\n"), CommandError::UnknownCommand);
    assert_eq!(err("*1\r\n$4\r\nECHO\r\n"), CommandError::WrongArity);
    assert_eq!(err("*3\r\n$3\r\nGET\r\n$1\r\na\r\n$1\r\nb\r\n"), CommandError::WrongArity);
    assert_eq!(make_set_request(args(&["k", "v", "px"])).err(), Some(CommandError::WrongArity));
    assert_eq!(make_set_request(args(&["k", "v", "EX", "5"])).err(), Some(CommandError::InvalidOption));
    assert_eq!(make_set_request(args(&["k", "v", "PX", "soon"])).err(), Some(CommandError::InvalidExpiry));
    assert_eq!(make_set_request(args(&["k", "v", "PX", "0"])).err(), Some(CommandError::InvalidExpiry));
    assert_eq!(make_set_request(args(&["k", "v", "PX", "-5"])).err(), Some(CommandError::InvalidExpiry));
    assert_eq!(make_config_request(args(&["SET", "dir"])).err(), Some(CommandError::InvalidOption));
    assert_eq!(make_config_request(args(&[])).err(), Some(CommandError::WrongArity));
    assert_eq!(make_config_request(args(&["GET"])).err(), Some(CommandError::WrongArity));
    assert!(!CommandError::WrongArity.message().is_empty());
}

#[test]
fn command_names_ignore_case() {
    assert!(matches!(request_from_parts("ping", args(&[])), Ok(Request::Ping)));
    assert!(matches!(request_from_parts("PING", args(&[])), Err(CommandError::UnknownCommand)));
    let frame = parse_redis_value(&mut BytesMut::from("*1\r\n$4\r\nPiNg\r\n")).unwrap();
    assert!(matches!(get_request(frame), Ok(Request::Ping)));
    match make_set_request(args(&["k", "v", "pX", "50"])) {
        Ok(Request::SET(k, v, Some(50))) => assert_eq!((k.as_str(), v.as_str()), ("k", "v")),
        _ => panic!("expected SET with PX"),
    }
    match make_config_request(args(&["GeT", "dbfilename"])) {
        Ok(Request::ConfigGet(name)) => assert_eq!(name, "dbfilename"),
        _ => panic!("expected CONFIG GET"),
    }
}

#[test]
fn serve_frame_answers_pipelined_commands() {
    let h = master();
    let mut store = Store::new();
    let mut buf = BytesMut::from(
        "*3\r\n$3\r\nSET\r\n$1\r\nk\r\n$1\r\nv\r\n*2\r\n$3\r\nGET\r\n$1\r\nk\r\n*1\r\n$4\r\nNOPE\r\n*1\r\n",
    );
    match serve_frame(&h, &mut store, &mut buf, 0, true) {
        Served::Answered { reply, ticket, next } => {
            assert_eq!(reply.serialize(), b"+OK\r\n".to_vec());
            assert!(ticket.is_none());
            match next {
                FollowUp::Publish(f) => assert_eq!(f.serialize(), b"*3\r\n$3\r\nSET\r\n$1\r\nk\r\n$1\r\nv\r\n".to_vec()),
                _ => panic!("a write is published"),
            }
        }
        Served::NeedMore => panic!("a whole frame was there"),
    }
    match serve_frame(&h, &mut store, &mut buf, 0, true) {
        Served::Answered { reply, next, .. } => {
            assert_eq!(reply.serialize(), b"$1\r\nv\r\n".to_vec());
            assert!(matches!(next, FollowUp::Nothing));
        }
        Served::NeedMore => panic!("a whole frame was there"),
    }
    match serve_frame(&h, &mut store, &mut buf, 0, true) {
        Served::Answered { reply, .. } => assert_eq!(reply, RedisValue::Error("ERR unknown command".into())),
        Served::NeedMore => panic!("a whole frame was there"),
    }
    assert!(matches!(serve_frame(&h, &mut store, &mut buf, 0, true), Served::NeedMore));
    assert_eq!(&buf[..], b"*1\r\n");
}

#[test]
fn serve_frame_drops_garbage() {
    let h = master();
    let mut store = Store::new();
    let mut buf = BytesMut::from("hello\r\n*1\r\n$4\r\nPING\r\n");
    match serve_frame(&h, &mut store, &mut buf, 0, true) {
        Served::Answered { reply, .. } => assert_eq!(reply.serialize(), b"-ERR protocol error\r\n".to_vec()),
        Served::NeedMore => panic!("garbage is answered"),
    }
    assert!(buf.is_empty());
}

#[test]
fn psync_turns_connection_into_feed() {
    let h = master();
    let mut store = Store::new();
    let mut buf = BytesMut::from("*3\r\n$5\r\nPSYNC\r\n$1\r\n?\r\n$2\r\n-1\r\n");
    match serve_frame(&h, &mut store, &mut buf, 0, true) {
        Served::Answered { next, .. } => assert!(matches!(next, FollowUp::FeedReplica)),
        Served::NeedMore => panic!("a whole frame was there"),
    }
}

#[test]
fn config_get_reads_first_name_only() {
    match make_config_request(args(&["GET", "dir", "dbfilename"])) {
        Ok(Request::ConfigGet(name)) => assert_eq!(name, "dir"),
        _ => panic!("expected CONFIG GET dir"),
    }
    let h = RequestHandler::new(
        parse_args(args(&["exec", "--dir", "/tmp", "--dbfilename", "d.rdb"])).unwrap(),
    );
    let mut store = Store::new();
    assert_eq!(
        run(&h, &mut store, "*4\r\n$6\r\nCONFIG\r\n$3\r\nGET\r\n$3\r\ndir\r\n$10\r\ndbfilename\r\n", 0),
        b"*2\r\n$3\r\ndir\r\n$4\r\n/tmp\r\n".to_vec()
    );
}
