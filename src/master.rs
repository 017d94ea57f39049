use crate::parser::{
    crlf, decimal, lemma_views_of, push_bytes, push_crlf, push_decimal, views_of, Frame, RedisValue,
};
use crate::request::{Request, RequestView};
use vstd::prelude::*;
use vstd::utf8::encode_utf8;

verus! {

/// The empty snapshot that a master hands to a replica, in hexadecimal.
pub const EMPTY_SNAPSHOT_HEX: &'static str = "524544495330303131fa0972656469732d76657205372e322e30fa0a72656469732d62697473c040fa056374696d65c26d08bc65fa08757365642d6d656dc2b0c41000fa08616f662d62617365c000fff06e3bfec0ff5aa2";

pub open spec fn is_hex_digit(b: u8) -> bool {
    (48 <= b <= 57) || (97 <= b <= 102) || (65 <= b <= 70)
}

pub open spec fn hex_digit_value(b: u8) -> nat {
    if 48 <= b <= 57 {
        (b - 48) as nat
    } else if 97 <= b <= 102 {
        (b - 87) as nat
    } else {
        (b - 55) as nat
    }
}

/// Hexadecimal text: an even number of digits, in either case.
pub open spec fn hex_valid(s: Seq<u8>) -> bool {
    s.len() % 2 == 0 && forall|i: int| 0 <= i < s.len() ==> is_hex_digit(#[trigger] s[i])
}

/// The bytes that hexadecimal text spells, two digits each, the high half first.
pub open spec fn hex_bytes(s: Seq<u8>) -> Seq<u8> {
    Seq::new(
        s.len() / 2,
        |i: int| (hex_digit_value(s[2 * i]) * 16 + hex_digit_value(s[2 * i + 1])) as u8,
    )
}

/// Relies on `hex::decode`: it fails on an odd length or a byte that is no hex digit, and
/// otherwise turns each pair of digits into the byte they spell.
#[verifier::external_body]
fn hex_decode(data: &[u8]) -> (r: Option<Vec<u8>>)
    ensures
        r is Some <==> hex_valid(data@),
        r matches Some(v) ==> v@ == hex_bytes(data@),
{
    hex::decode(data).ok()
}

/// The bytes of the empty snapshot.
pub open spec fn snapshot_payload() -> Seq<u8> {
    hex_bytes(encode_utf8(EMPTY_SNAPSHOT_HEX@))
}

/// What a master sends a replica after `+FULLRESYNC`: `$`, the length, CR LF and the snapshot,
/// with no CR LF after it.
pub open spec fn spec_snapshot_transfer() -> Seq<u8> {
    seq![36u8] + decimal(snapshot_payload().len()) + crlf() + snapshot_payload()
}

pub fn snapshot_transfer() -> (r: Vec<u8>)
    ensures
        r@ == spec_snapshot_transfer(),
{
    let text = EMPTY_SNAPSHOT_HEX.as_bytes();
    proof {
        reveal_strlit("524544495330303131fa0972656469732d76657205372e322e30fa0a72656469732d62697473c040fa056374696d65c26d08bc65fa08757365642d6d656dc2b0c41000fa08616f662d62617365c000fff06e3bfec0ff5aa2");
        vstd::utf8::is_ascii_chars_encode_utf8(EMPTY_SNAPSHOT_HEX@);
        assert(hex_valid(text@));
    }
    let payload = match hex_decode(text) {
        Some(p) => p,
        None => Vec::new(),
    };
    let mut out: Vec<u8> = Vec::new();
    out.push(36);
    push_decimal(&mut out, payload.len() as u64);
    push_crlf(&mut out);
    push_bytes(&mut out, payload.as_slice());
    assert(out@ =~= spec_snapshot_transfer());
    out
}

/// The frame that a replica is sent for a command that changes the store: `SET key value`.
/// The time to live is not sent on.
pub fn replicated_command(req: &Request) -> (r: Option<RedisValue>)
    ensures
        match req@ {
            RequestView::SetKey(k, v, _) => r matches Some(f) && f@ == Frame::Array(
                seq![Frame::Bulk("SET"@), Frame::Bulk(k), Frame::Bulk(v)],
            ),
            _ => r is None,
        },
{
    match req {
        Request::SET(key, value, _) => {
            let items = vec![
                RedisValue::BulkString("SET".to_owned()),
                RedisValue::BulkString(key.clone()),
                RedisValue::BulkString(value.clone()),
            ];
            proof {
                lemma_views_of(items@);
                assert(views_of(items@) =~= seq![items@[0]@, items@[1]@, items@[2]@]);
            }
            Some(RedisValue::Array(items))
        },
        _ => None,
    }
}

/// What a connection does after it has answered a command.
pub enum FollowUp {
    Nothing,
    /// Hand the frame to the replicas.
    Publish(RedisValue),
    /// Send the snapshot, then the stream of writes, from now on.
    FeedReplica,
}

/// What follows a command: on a master, a write goes out to the replicas as a plain SET and PSYNC
/// turns the connection into a replica feed; on a replica, nothing.
pub open spec fn follow_up_matches(r: FollowUp, req: RequestView, is_master: bool) -> bool {
    if !is_master {
        r is Nothing
    } else {
        match req {
            RequestView::SetKey(k, v, _) => r matches FollowUp::Publish(f) && f@ == Frame::Array(
                seq![Frame::Bulk("SET"@), Frame::Bulk(k), Frame::Bulk(v)],
            ),
            RequestView::PSync(_) => r is FeedReplica,
            _ => r is Nothing,
        }
    }
}

/// What follows a command: on a master, a write goes out to the replicas and PSYNC turns the
/// connection into a replica feed; on a replica, nothing.
pub fn follow_up(req: &Request, is_master: bool) -> (r: FollowUp)
    ensures
        follow_up_matches(r, req@, is_master),
{
    if !is_master {
        return FollowUp::Nothing;
    }
    match req {
        Request::PSYNC(_) => FollowUp::FeedReplica,
        _ => match replicated_command(req) {
            Some(f) => FollowUp::Publish(f),
            None => FollowUp::Nothing,
        },
    }
}

} // verus!
