use crate::master::{follow_up, follow_up_matches, FollowUp};
use crate::parser::{
    buffer_advance, buffer_bytes, buffer_slice, parse_redis_value, spec_decode, Decoded, Frame,
    RedisValue, RespError,
};
use crate::request::{
    get_request, reply_matches, spec_get_request, spec_next_store, ticket_matches,
    RequestHandler,
};
use crate::store::{ExpiryTicket, Store};
use bytes::BytesMut;
use vstd::prelude::*;

verus! {

/// The reply to bytes that do not start with a frame.
pub const PROTOCOL_ERROR: &'static str = "ERR protocol error";

/// What serving the start of a connection's buffer comes to.
pub enum Served {
    /// The buffer holds no whole frame yet: read more.
    NeedMore,
    /// The answer to the frame at the start of the buffer, which is gone from it; or, when the
    /// buffer did not start with a frame, an error, and the buffer is emptied.
    Answered { reply: RedisValue, ticket: Option<ExpiryTicket>, next: FollowUp },
}

/// Serves the frame at the start of `buffer` at time `now_ms`: decodes it, reads it as a command,
/// carries the command out and says what follows.
pub fn serve_frame(
    handler: &RequestHandler,
    store: &mut Store,
    buffer: &mut BytesMut,
    now_ms: u64,
    is_master: bool,
) -> (r: Served)
    requires
        old(store).wf(),
    ensures
        final(store).wf(),
        match spec_decode(buffer_bytes(*old(buffer))) {
            Decoded::NeedMore => {
                &&& r is NeedMore
                &&& final(store)@ == old(store)@
                &&& buffer_bytes(*final(buffer)) == buffer_bytes(*old(buffer))
            },
            Decoded::Invalid => {
                &&& r matches Served::Answered { reply, ticket, next }
                &&& reply@ == Frame::Error(PROTOCOL_ERROR@)
                &&& ticket is None
                &&& next is Nothing
                &&& final(store)@ == old(store)@
                &&& buffer_bytes(*final(buffer)) == Seq::<u8>::empty()
            },
            Decoded::Complete(f, n) => {
                &&& buffer_bytes(*final(buffer)) == buffer_bytes(*old(buffer)).subrange(
                    n as int,
                    buffer_bytes(*old(buffer)).len() as int,
                )
                &&& r matches Served::Answered { reply, ticket, next }
                &&& match spec_get_request(f) {
                    Err(e) => {
                        &&& reply@ == Frame::Error(e.spec_message())
                        &&& ticket is None
                        &&& next is Nothing
                        &&& final(store)@ == old(store)@
                    },
                    Ok(q) => {
                        &&& final(store)@ == spec_next_store(old(store)@, q, now_ms)
                        &&& reply_matches(reply@, old(store)@, handler.config(), q, now_ms)
                        &&& ticket_matches(ticket, old(store)@, q)
                        &&& follow_up_matches(next, q, is_master)
                    },
                }
            },
        },
{
    match parse_redis_value(buffer) {
        Err(RespError::Incomplete) => Served::NeedMore,
        Err(RespError::Invalid) => {
            let len = buffer_slice(buffer).len();
            buffer_advance(buffer, len);
            assert(buffer_bytes(*buffer) =~= Seq::<u8>::empty());
            Served::Answered {
                reply: RedisValue::Error(PROTOCOL_ERROR.to_owned()),
                ticket: None,
                next: FollowUp::Nothing,
            }
        },
        Ok(value) => match get_request(value) {
            Err(e) => Served::Answered {
                reply: RedisValue::Error(e.message().to_owned()),
                ticket: None,
                next: FollowUp::Nothing,
            },
            Ok(req) => {
                let next = follow_up(&req, is_master);
                let (reply, ticket) = handler.handle_request(store, req, now_ms);
                Served::Answered { reply, ticket, next }
            },
        },
    }
}

} // verus!
