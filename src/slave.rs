use crate::parser::{
    find_crlf, lemma_find_crlf_bounds, lemma_views_of, parse_length, spec_find_crlf,
    spec_parse_length, views_of, Frame, Length, RedisValue,
};
use crate::parser::{buffer_bytes, parse_redis_value, spec_decode, Decoded, RespError};
use crate::request::{
    get_request, spec_get_request, spec_next_store, spec_request_from, spec_words, ticket_matches,
    CommandError, RequestHandler, RequestView,
};
use crate::store::{spec_get, ExpiryTicket, Store, StoreView};
use crate::text::text_eq;
use bytes::BytesMut;
use vstd::prelude::*;

verus! {

/// A command frame: an array of bulk strings.
pub fn make_command(commands: Vec<&str>) -> (r: RedisValue)
    ensures
        r@ == Frame::Array(commands@.map_values(|c: &str| Frame::Bulk(c@))),
{
    let mut items: Vec<RedisValue> = Vec::new();
    let mut i: usize = 0;
    while i < commands.len()
        invariant
            i <= commands.len(),
            items@.len() == i,
            forall|j: int| 0 <= j < i ==> #[trigger] items@[j]@ == Frame::Bulk(commands@[j]@),
        decreases commands.len() - i,
    {
        items.push(RedisValue::BulkString(commands[i].to_owned()));
        i = i + 1;
    }
    proof {
        lemma_views_of(items@);
        assert(views_of(items@) =~= commands@.map_values(|c: &str| Frame::Bulk(c@)));
    }
    RedisValue::Array(items)
}

/// The steps of the handshake that a replica makes with its master, in order.
#[derive(PartialEq, Eq, Structural, Debug, Clone, Copy)]
pub enum HandshakeStep {
    Ping,
    ListeningPort,
    Capabilities,
    PSync,
}

/// What the replica sends at a step; `port` is the port it listens on.
pub open spec fn spec_handshake_command(step: HandshakeStep, port: Seq<char>) -> Frame {
    match step {
        HandshakeStep::Ping => Frame::Array(seq![Frame::Bulk("PING"@)]),
        HandshakeStep::ListeningPort => Frame::Array(
            seq![Frame::Bulk("REPLCONF"@), Frame::Bulk("listening-port"@), Frame::Bulk(port)],
        ),
        HandshakeStep::Capabilities => Frame::Array(
            seq![Frame::Bulk("REPLCONF"@), Frame::Bulk("capa"@), Frame::Bulk("psync2"@)],
        ),
        HandshakeStep::PSync => Frame::Array(
            seq![Frame::Bulk("PSYNC"@), Frame::Bulk("?"@), Frame::Bulk("-1"@)],
        ),
    }
}

/// Whether the master's reply lets the handshake go on: `PONG`, then `OK` twice, then a simple
/// string that starts with `FULLRESYNC `.
pub open spec fn spec_response_ok(step: HandshakeStep, f: Frame) -> bool {
    match step {
        HandshakeStep::Ping => f == Frame::Simple("PONG"@),
        HandshakeStep::ListeningPort => f == Frame::Simple("OK"@),
        HandshakeStep::Capabilities => f == Frame::Simple("OK"@),
        HandshakeStep::PSync => f matches Frame::Simple(t) && t.len() >= 11 && t.subrange(0, 11)
            == "FULLRESYNC "@,
    }
}

pub fn handshake_command(step: HandshakeStep, own_port: &str) -> (r: RedisValue)
    ensures
        r@ == spec_handshake_command(step, own_port@),
{
    let words = match step {
        HandshakeStep::Ping => vec!["PING"],
        HandshakeStep::ListeningPort => vec!["REPLCONF", "listening-port", own_port],
        HandshakeStep::Capabilities => vec!["REPLCONF", "capa", "psync2"],
        HandshakeStep::PSync => vec!["PSYNC", "?", "-1"],
    };
    let ghost ws = words@;
    let r = make_command(words);
    proof {
        let fs = ws.map_values(|c: &str| Frame::Bulk(c@));
        let expected = spec_handshake_command(step, own_port@)->Array_0;
        assert(fs.len() == expected.len());
        assert(forall|i: int| 0 <= i < fs.len() ==> fs[i] == expected[i]);
        assert(fs =~= expected);
    }
    r
}

/// Checks the master's reply at a step.
pub fn check_response(step: HandshakeStep, response: &RedisValue) -> (r: bool)
    ensures
        r == spec_response_ok(step, response@),
{
    match response {
        RedisValue::SimpleString(t) => match step {
            HandshakeStep::Ping => text_eq(t.as_str(), "PONG"),
            HandshakeStep::ListeningPort => text_eq(t.as_str(), "OK"),
            HandshakeStep::Capabilities => text_eq(t.as_str(), "OK"),
            HandshakeStep::PSync => {
                let s = t.as_str();
                s.unicode_len() >= 11 && text_eq(s.substring_char(0, 11), "FULLRESYNC ")
            },
        },
        _ => false,
    }
}

/// The step after `step`; none after the last.
pub fn next_step(step: HandshakeStep) -> (r: Option<HandshakeStep>)
    ensures
        r == match step {
            HandshakeStep::Ping => Some(HandshakeStep::ListeningPort),
            HandshakeStep::ListeningPort => Some(HandshakeStep::Capabilities),
            HandshakeStep::Capabilities => Some(HandshakeStep::PSync),
            HandshakeStep::PSync => None::<HandshakeStep>,
        },
{
    match step {
        HandshakeStep::Ping => Some(HandshakeStep::ListeningPort),
        HandshakeStep::ListeningPort => Some(HandshakeStep::Capabilities),
        HandshakeStep::Capabilities => Some(HandshakeStep::PSync),
        HandshakeStep::PSync => None,
    }
}

/// What the start of a buffer holds of the snapshot that follows `FULLRESYNC`.
#[derive(PartialEq, Eq, Structural, Debug, Clone, Copy)]
pub enum SnapshotFrame {
    /// The whole snapshot, which takes this many bytes.
    Complete(usize),
    NeedMore,
    Invalid,
}

/// The snapshot at the start of `b`: `$`, a length `n`, CR LF, then `n` bytes and nothing after
/// them. Gives the number of bytes it takes.
pub open spec fn spec_snapshot_frame(b: Seq<u8>) -> Option<Option<int>> {
    if b.len() == 0 {
        Some(None)
    } else if b[0] != 36u8 {
        None
    } else {
        match spec_find_crlf(b, 1) {
            None => Some(None),
            Some(e) => match spec_parse_length(b.subrange(1, e)) {
                Some(n) => if n < 0 {
                    None
                } else if b.len() < e + 2 + n {
                    Some(None)
                } else {
                    Some(Some(e + 2 + n))
                },
                None => None,
            },
        }
    }
}

pub fn decode_snapshot(buf: &[u8]) -> (r: SnapshotFrame)
    ensures
        spec_snapshot_frame(buf@) == match r {
            SnapshotFrame::Complete(n) => Some(Some(n as int)),
            SnapshotFrame::NeedMore => Some(None::<int>),
            SnapshotFrame::Invalid => None::<Option<int>>,
        },
{
    if buf.len() == 0 {
        return SnapshotFrame::NeedMore;
    }
    if buf[0] != 36 {
        return SnapshotFrame::Invalid;
    }
    let e = match find_crlf(buf, 1) {
        None => {
            return SnapshotFrame::NeedMore;
        },
        Some(e) => e,
    };
    proof {
        lemma_find_crlf_bounds(buf@, 1);
    }
    match parse_length(&buf[1..e]) {
        Some(Length::Count(n)) => {
            let avail = buf.len() - (e + 2);
            if n > avail as u64 {
                SnapshotFrame::NeedMore
            } else {
                SnapshotFrame::Complete(e + 2 + n as usize)
            }
        },
        _ => SnapshotFrame::Invalid,
    }
}

/// What a replica makes of the start of the stream from its master.
pub enum Applied {
    /// The buffer holds no whole frame yet: read more.
    NeedMore,
    /// A command was taken off the buffer and carried out; this is the deletion it armed.
    Applied(Option<ExpiryTicket>),
    /// The master sent something that is not a command: replication ends.
    Stop,
}

/// Carries out the command at the start of the stream from the master, at time `now_ms`, without
/// a reply.
pub fn apply_from_master(
    handler: &RequestHandler,
    store: &mut Store,
    buffer: &mut BytesMut,
    now_ms: u64,
) -> (r: Applied)
    requires
        old(store).wf(),
    ensures
        final(store).wf(),
        match spec_decode(buffer_bytes(*old(buffer))) {
            Decoded::NeedMore => r is NeedMore && final(store)@ == old(store)@,
            Decoded::Invalid => r is Stop && final(store)@ == old(store)@,
            Decoded::Complete(f, n) => {
                &&& buffer_bytes(*final(buffer)) == buffer_bytes(*old(buffer)).subrange(
                    n as int,
                    buffer_bytes(*old(buffer)).len() as int,
                )
                &&& match spec_get_request(f) {
                    Err(_) => r is Stop && final(store)@ == old(store)@,
                    Ok(q) => {
                        &&& final(store)@ == spec_next_store(old(store)@, q, now_ms)
                        &&& r matches Applied::Applied(t)
                        &&& ticket_matches(t, old(store)@, q)
                    },
                }
            },
        },
{
    match parse_redis_value(buffer) {
        Err(RespError::Incomplete) => Applied::NeedMore,
        Err(RespError::Invalid) => Applied::Stop,
        Ok(value) => match get_request(value) {
            Err(_) => Applied::Stop,
            Ok(req) => {
                let (_, ticket) = handler.handle_request(store, req, now_ms);
                Applied::Applied(ticket)
            },
        },
    }
}

/// What a master forwards for a write, `SET key value` as bulk strings, reaches a replica as the
/// words `SET`, the key and the value. With the command name read as `set`, the words make that
/// write, and afterwards the replica's store reads the key back as the value. (That `SET` reads as
/// `set` rests on `str::to_lowercase`, whose result this library only names.)
pub proof fn lemma_forwarded_set(s: StoreView, k: Seq<char>, v: Seq<char>, now: u64)
    ensures
        spec_words(Frame::Array(seq![Frame::Bulk("SET"@), Frame::Bulk(k), Frame::Bulk(v)]))
            == Ok::<Seq<Seq<char>>, CommandError>(seq!["SET"@, k, v]),
        spec_request_from("set"@, seq![k, v]) == Ok::<RequestView, CommandError>(
            RequestView::SetKey(k, v, None),
        ),
        spec_get(spec_next_store(s, RequestView::SetKey(k, v, None), now), k, now) == Some(v),
{
    let items = seq![Frame::Bulk("SET"@), Frame::Bulk(k), Frame::Bulk(v)];
    assert(items.map_values(|x: Frame| x->Bulk_0) =~= seq!["SET"@, k, v]);
    reveal_strlit("set");
    reveal_strlit("ping");
    reveal_strlit("echo");
    assert("set"@ =~= seq!['s', 'e', 't']);
    assert("ping"@ =~= seq!['p', 'i', 'n', 'g']);
    assert("echo"@ =~= seq!['e', 'c', 'h', 'o']);
}

} // verus!
