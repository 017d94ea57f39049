use vstd::prelude::*;
use crate::text::text_from_utf8;
use bytes::{Buf, BytesMut};
use vstd::utf8::{
    decode_utf8, encode_scalar, encode_utf8, encode_utf8_decode_utf8, encode_utf8_valid_utf8,
    has_width_1_encoding, valid_utf8,
};

verus! {

/// A RESP value.
#[derive(PartialEq, Eq, Debug)]
pub enum RedisValue {
    SimpleString(String),
    BulkString(String),
    /// An error reply: a server sends it, and the decoder does not accept it.
    Error(String),
    Array(Vec<RedisValue>),
}

/// The mathematical form of a RESP value.
pub enum Frame {
    Simple(Seq<char>),
    Bulk(Seq<char>),
    Error(Seq<char>),
    Array(Seq<Frame>),
}

impl RedisValue {
    pub open spec fn view(self) -> Frame
        decreases self,
    {
        match self {
            RedisValue::SimpleString(s) => Frame::Simple(s@),
            RedisValue::BulkString(s) => Frame::Bulk(s@),
            RedisValue::Error(s) => Frame::Error(s@),
            RedisValue::Array(vals) => Frame::Array(views_of(vals@)),
        }
    }

    /// The text of a bulk string, or `None` for any other kind of value.
    pub fn get_bulk_string(&self) -> (r: Option<String>)
        ensures
            match self {
                RedisValue::BulkString(s) => r == Some(*s),
                _ => r is None,
            },
    {
        match self {
            RedisValue::BulkString(s) => Some(s.clone()),
            _ => None,
        }
    }
}

/// The frames of a sequence of values, element by element.
pub open spec fn views_of(s: Seq<RedisValue>) -> Seq<Frame>
    decreases s,
{
    if s.len() == 0 {
        Seq::empty()
    } else {
        seq![s[0].view()] + views_of(s.subrange(1, s.len() as int))
    }
}

pub open spec fn crlf() -> Seq<u8> {
    seq![13u8, 10u8]
}

/// The decimal digits of `n`, most significant first.
pub open spec fn decimal(n: nat) -> Seq<u8>
    decreases n,
{
    if n < 10 {
        seq![(48 + n) as u8]
    } else {
        decimal(n / 10).push((48 + n % 10) as u8)
    }
}

pub open spec fn is_digit(c: u8) -> bool {
    48 <= c <= 57
}

pub open spec fn all_digits(s: Seq<u8>) -> bool {
    forall|i: int| 0 <= i < s.len() ==> is_digit(#[trigger] s[i])
}

/// The number that a run of decimal digits denotes.
pub open spec fn digits_value(s: Seq<u8>) -> nat
    decreases s.len(),
{
    if s.len() == 0 {
        0
    } else {
        digits_value(s.drop_last()) * 10 + (s.last() - 48) as nat
    }
}

/// The length on a `$` or `*` header line: `-1`, or decimal digits whose value fits in a `u64`.
pub open spec fn spec_parse_length(line: Seq<u8>) -> Option<int> {
    if line =~= seq![45u8, 49u8] {
        Some(-1)
    } else if line.len() > 0 && all_digits(line) && digits_value(line) <= u64::MAX {
        Some(digits_value(line) as int)
    } else {
        None
    }
}

/// The position of the first CR LF pair that starts at or after `from`.
pub open spec fn spec_find_crlf(b: Seq<u8>, from: int) -> Option<int>
    decreases b.len() - from,
{
    if from < 0 || from + 1 >= b.len() {
        None
    } else if b[from] == 13 && b[from + 1] == 10 {
        Some(from)
    } else {
        spec_find_crlf(b, from + 1)
    }
}

pub proof fn lemma_find_crlf_bounds(b: Seq<u8>, from: int)
    ensures
        spec_find_crlf(b, from) matches Some(e) ==> from <= e && e + 2 <= b.len() && b[e] == 13u8
            && b[e + 1] == 10u8,
    decreases b.len() - from,
{
    if !(from < 0 || from + 1 >= b.len()) && !(b[from] == 13 && b[from + 1] == 10) {
        lemma_find_crlf_bounds(b, from + 1);
    }
}

/// The wire form of a bulk string; the empty text goes out as the null bulk string.
pub open spec fn spec_encode_bulk(t: Seq<char>) -> Seq<u8> {
    if t.len() == 0 {
        seq![36u8, 45u8, 49u8] + crlf()
    } else {
        seq![36u8] + decimal(encode_utf8(t).len()) + crlf() + encode_utf8(t) + crlf()
    }
}

/// The wire form of a frame.
pub open spec fn spec_encode(f: Frame) -> Seq<u8>
    decreases f,
{
    match f {
        Frame::Simple(t) => seq![43u8] + encode_utf8(t) + crlf(),
        Frame::Error(t) => seq![45u8] + encode_utf8(t) + crlf(),
        Frame::Bulk(t) => spec_encode_bulk(t),
        Frame::Array(items) => seq![42u8] + decimal(items.len()) + crlf() + spec_encode_items(
            items,
        ),
    }
}

/// The wire forms of a sequence of frames, one after the other.
pub open spec fn spec_encode_items(items: Seq<Frame>) -> Seq<u8>
    decreases items,
{
    if items.len() == 0 {
        Seq::empty()
    } else {
        spec_encode(items[0]) + spec_encode_items(items.subrange(1, items.len() as int))
    }
}

/// What decoding the start of a buffer gives.
pub enum Decoded {
    /// A frame, and the number of bytes it took.
    Complete(Frame, nat),
    NeedMore,
    Invalid,
}

/// What decoding a given number of frames, one after the other, gives.
pub enum DecodedItems {
    Complete(Seq<Frame>, nat),
    NeedMore,
    Invalid,
}

/// The bytes that can start a frame: `+`, `$` and `*`.
pub open spec fn is_frame_tag(c: u8) -> bool {
    c == 43u8 || c == 36u8 || c == 42u8
}

/// Decoding of the frame at the start of `b`.
pub open spec fn spec_decode(b: Seq<u8>) -> Decoded
    decreases b.len(), 0int,
{
    if b.len() == 0 {
        Decoded::NeedMore
    } else if !is_frame_tag(b[0]) {
        Decoded::Invalid
    } else {
        match spec_find_crlf(b, 1) {
            None => Decoded::NeedMore,
            Some(e) => {
                let line = b.subrange(1, e);
                let start = e + 2;
                if b[0] == 43u8 {
                    if !valid_utf8(line) {
                        Decoded::Invalid
                    } else {
                        Decoded::Complete(Frame::Simple(decode_utf8(line)), start as nat)
                    }
                } else {
                    match spec_parse_length(line) {
                        None => Decoded::Invalid,
                        Some(n) => {
                            if n == -1 {
                                if b[0] == 36u8 {
                                    Decoded::Complete(Frame::Bulk(Seq::empty()), start as nat)
                                } else {
                                    Decoded::Invalid
                                }
                            } else if b[0] == 36u8 {
                                if b.len() < start + n + 2 {
                                    Decoded::NeedMore
                                } else if b[start + n] != 13u8 || b[start + n + 1] != 10u8 {
                                    Decoded::Invalid
                                } else if !valid_utf8(b.subrange(start, start + n)) {
                                    Decoded::Invalid
                                } else {
                                    Decoded::Complete(
                                        Frame::Bulk(decode_utf8(b.subrange(start, start + n))),
                                        (start + n + 2) as nat,
                                    )
                                }
                            } else {
                                proof {
                                    lemma_find_crlf_bounds(b, 1);
                                }
                                match spec_decode_items(b.subrange(start, b.len() as int), n as nat) {
                                    DecodedItems::Complete(items, used) => Decoded::Complete(
                                        Frame::Array(items),
                                        (start + used) as nat,
                                    ),
                                    DecodedItems::NeedMore => Decoded::NeedMore,
                                    DecodedItems::Invalid => Decoded::Invalid,
                                }
                            }
                        },
                    }
                }
            },
        }
    }
}

/// Decoding of `count` frames, one after the other, at the start of `b`.
pub open spec fn spec_decode_items(b: Seq<u8>, count: nat) -> DecodedItems
    decreases b.len(), 1int,
{
    if count == 0 {
        DecodedItems::Complete(Seq::empty(), 0)
    } else {
        match spec_decode(b) {
            Decoded::Complete(f, used) => {
                if 0 < used <= b.len() {
                    match spec_decode_items(b.subrange(used as int, b.len() as int), (count - 1) as nat) {
                        DecodedItems::Complete(fs, more) => DecodedItems::Complete(
                            seq![f] + fs,
                            used + more,
                        ),
                        DecodedItems::NeedMore => DecodedItems::NeedMore,
                        DecodedItems::Invalid => DecodedItems::Invalid,
                    }
                } else {
                    DecodedItems::Invalid
                }
            },
            Decoded::NeedMore => DecodedItems::NeedMore,
            Decoded::Invalid => DecodedItems::Invalid,
        }
    }
}


/// The length on a header line.
pub enum Length {
    /// `-1`, the null bulk string.
    Null,
    Count(u64),
}

/// The outcome of decoding the frame at the start of a buffer.
pub enum DecodeResult {
    /// A frame, and the number of bytes it took.
    Complete(RedisValue, usize),
    /// The buffer holds the start of a frame but not all of it.
    NeedMore,
    /// The buffer does not start with a frame.
    Invalid,
}

impl DecodeResult {
    pub open spec fn view(self) -> Decoded {
        match self {
            DecodeResult::Complete(v, n) => Decoded::Complete(v@, n as nat),
            DecodeResult::NeedMore => Decoded::NeedMore,
            DecodeResult::Invalid => Decoded::Invalid,
        }
    }
}

enum ItemsResult {
    Complete(Vec<RedisValue>, usize),
    NeedMore,
    Invalid,
}

impl ItemsResult {
    spec fn view(self) -> DecodedItems {
        match self {
            ItemsResult::Complete(vs, n) => DecodedItems::Complete(views_of(vs@), n as nat),
            ItemsResult::NeedMore => DecodedItems::NeedMore,
            ItemsResult::Invalid => DecodedItems::Invalid,
        }
    }
}

/// The position of the first CR LF pair at or after `from`.
pub(crate) fn find_crlf(buf: &[u8], from: usize) -> (r: Option<usize>)
    ensures
        match r {
            Some(e) => spec_find_crlf(buf@, from as int) == Some(e as int),
            None => spec_find_crlf(buf@, from as int) is None,
        },
{
    if from >= buf.len() {
        return None;
    }
    let mut i: usize = from;
    while buf.len() - i >= 2
        invariant
            from <= i <= buf.len(),
            spec_find_crlf(buf@, from as int) == spec_find_crlf(buf@, i as int),
        decreases buf.len() - i,
    {
        if buf[i] == 13 && buf[i + 1] == 10 {
            return Some(i);
        }
        i = i + 1;
    }
    None
}

proof fn lemma_digits_prefix(s: Seq<u8>, k: int)
    requires
        all_digits(s),
        0 <= k <= s.len(),
    ensures
        digits_value(s) >= digits_value(s.subrange(0, k)),
    decreases s.len(),
{
    if k == s.len() {
        assert(s.subrange(0, k) =~= s);
    } else {
        let t = s.drop_last();
        assert(all_digits(t));
        lemma_digits_prefix(t, k);
        assert(t.subrange(0, k) =~= s.subrange(0, k));
    }
}

/// Reads the length on a `$` or `*` header line.
pub(crate) fn parse_length(line: &[u8]) -> (r: Option<Length>)
    ensures
        spec_parse_length(line@) == match r {
            None => None,
            Some(Length::Null) => Some(-1int),
            Some(Length::Count(n)) => Some(n as int),
        },
{
    if line.len() == 2 && line[0] == 45 && line[1] == 49 {
        assert(line@ =~= seq![45u8, 49u8]);
        return Some(Length::Null);
    }
    if line.len() == 0 {
        return None;
    }
    let mut acc: u64 = 0;
    let mut i: usize = 0;
    while i < line.len()
        invariant
            0 <= i <= line.len(),
            line.len() > 0,
            !(line@ =~= seq![45u8, 49u8]),
            all_digits(line@.subrange(0, i as int)),
            acc == digits_value(line@.subrange(0, i as int)),
        decreases line.len() - i,
    {
        let c = line[i];
        if c < 48 || c > 57 {
            assert(!is_digit(line@[i as int]));
            return None;
        }
        let d = (c - 48) as u64;
        let ghost next = line@.subrange(0, i + 1);
        assert(next.drop_last() =~= line@.subrange(0, i as int));
        assert(all_digits(next));
        if acc > (u64::MAX - d) / 10 {
            assert(acc * 10 + d > u64::MAX) by (nonlinear_arith)
                requires
                    acc > (u64::MAX - d) / 10,
                    d <= 9,
            ;
            proof {
                if all_digits(line@) {
                    lemma_digits_prefix(line@, i + 1);
                }
            }
            return None;
        }
        assert(acc * 10 + d <= u64::MAX) by (nonlinear_arith)
            requires
                acc <= (u64::MAX - d) / 10,
                d <= 9,
        ;
        acc = acc * 10 + d;
        i = i + 1;
    }
    assert(line@.subrange(0, line.len() as int) =~= line@);
    Some(Length::Count(acc))
}

/// Decodes the frame at the start of `buf`.
pub fn decode(buf: &[u8]) -> (r: DecodeResult)
    ensures
        r@ == spec_decode(buf@),
        r matches DecodeResult::Complete(_, n) ==> 0 < n <= buf@.len(),
    decreases buf@.len(), 0int,
{
    if buf.len() == 0 {
        return DecodeResult::NeedMore;
    }
    let tag = buf[0];
    if !(tag == 43 || tag == 36 || tag == 42) {
        return DecodeResult::Invalid;
    }
    let e = match find_crlf(buf, 1) {
        None => {
            return DecodeResult::NeedMore;
        },
        Some(e) => e,
    };
    proof {
        lemma_find_crlf_bounds(buf@, 1);
    }
    let line = &buf[1..e];
    let start = e + 2;
    if tag == 43 {
        match text_from_utf8(line) {
            None => DecodeResult::Invalid,
            Some(t) => DecodeResult::Complete(RedisValue::SimpleString(t), start),
        }
    } else {
        match parse_length(line) {
            None => DecodeResult::Invalid,
            Some(Length::Null) => {
                if tag == 36 {
                    let t = String::new();
                    DecodeResult::Complete(RedisValue::BulkString(t), start)
                } else {
                    DecodeResult::Invalid
                }
            },
            Some(Length::Count(n)) => {
                if tag == 36 {
                    let avail = buf.len() - start;
                    if n > avail as u64 || (avail as u64) - n < 2 {
                        return DecodeResult::NeedMore;
                    }
                    let m = n as usize;
                    if buf[start + m] != 13 || buf[start + m + 1] != 10 {
                        return DecodeResult::Invalid;
                    }
                    match text_from_utf8(&buf[start..start + m]) {
                        None => DecodeResult::Invalid,
                        Some(t) => DecodeResult::Complete(RedisValue::BulkString(t), start + m + 2),
                    }
                } else {
                    let rest = &buf[start..buf.len()];
                    match decode_items(rest, n) {
                        ItemsResult::Complete(items, used) => DecodeResult::Complete(
                            RedisValue::Array(items),
                            start + used,
                        ),
                        ItemsResult::NeedMore => DecodeResult::NeedMore,
                        ItemsResult::Invalid => DecodeResult::Invalid,
                    }
                }
            },
        }
    }
}

/// Decodes `count` frames, one after the other, at the start of `buf`.
fn decode_items(buf: &[u8], count: u64) -> (r: ItemsResult)
    ensures
        r@ == spec_decode_items(buf@, count as nat),
        r matches ItemsResult::Complete(_, n) ==> n <= buf@.len(),
    decreases buf@.len(), 1int,
{
    if count == 0 {
        let none: Vec<RedisValue> = Vec::new();
        assert(views_of(none@) =~= Seq::<Frame>::empty());
        return ItemsResult::Complete(none, 0);
    }
    match decode(buf) {
        DecodeResult::NeedMore => ItemsResult::NeedMore,
        DecodeResult::Invalid => ItemsResult::Invalid,
        DecodeResult::Complete(f, used) => {
            let rest = &buf[used..buf.len()];
            match decode_items(rest, count - 1) {
                ItemsResult::Complete(fs, more) => {
                    let ghost tail = fs@;
                    let mut fs = fs;
                    fs.insert(0, f);
                    assert(fs@.subrange(1, fs@.len() as int) =~= tail);
                    ItemsResult::Complete(fs, used + more)
                },
                ItemsResult::NeedMore => ItemsResult::NeedMore,
                ItemsResult::Invalid => ItemsResult::Invalid,
            }
        },
    }
}

pub proof fn lemma_views_of(s: Seq<RedisValue>)
    ensures
        views_of(s).len() == s.len(),
        forall|i: int| 0 <= i < s.len() ==> #[trigger] views_of(s)[i] == s[i]@,
    decreases s.len(),
{
    if s.len() > 0 {
        let t = s.subrange(1, s.len() as int);
        lemma_views_of(t);
        assert forall|i: int| 0 <= i < s.len() implies #[trigger] views_of(s)[i] == s[i]@ by {
            if i > 0 {
                assert(views_of(s)[i] == views_of(t)[i - 1]);
                assert(t[i - 1] == s[i]);
            }
        }
    }
}

pub proof fn lemma_encode_items_append(a: Seq<Frame>, b: Seq<Frame>)
    ensures
        spec_encode_items(a + b) == spec_encode_items(a) + spec_encode_items(b),
    decreases a.len(),
{
    if a.len() == 0 {
        assert(a + b =~= b);
        assert(spec_encode_items(a) =~= Seq::<u8>::empty());
        assert(spec_encode_items(a) + spec_encode_items(b) =~= spec_encode_items(b));
    } else {
        let a1 = a.subrange(1, a.len() as int);
        lemma_encode_items_append(a1, b);
        assert((a + b).subrange(1, (a + b).len() as int) =~= a1 + b);
        assert((a + b)[0] == a[0]);
        assert(spec_encode_items(a + b) =~= spec_encode(a[0]) + spec_encode_items(a1 + b));
        assert(spec_encode_items(a) + spec_encode_items(b) =~= spec_encode(a[0]) + (
        spec_encode_items(a1) + spec_encode_items(b)));
    }
}

proof fn lemma_encode_items_single(f: Frame)
    ensures
        spec_encode_items(seq![f]) == spec_encode(f),
{
    let s = seq![f];
    assert(s.subrange(1, 1) =~= Seq::<Frame>::empty());
    assert(spec_encode_items(s.subrange(1, 1)) == Seq::<u8>::empty());
    assert(spec_encode(f) + Seq::<u8>::empty() =~= spec_encode(f));
}

pub(crate) fn push_bytes(out: &mut Vec<u8>, bytes: &[u8])
    ensures
        final(out)@ == old(out)@ + bytes@,
{
    let mut i: usize = 0;
    while i < bytes.len()
        invariant
            0 <= i <= bytes.len(),
            out@ == old(out)@ + bytes@.subrange(0, i as int),
        decreases bytes.len() - i,
    {
        out.push(bytes[i]);
        i = i + 1;
        assert(out@ =~= old(out)@ + bytes@.subrange(0, i as int));
    }
    assert(bytes@.subrange(0, bytes.len() as int) =~= bytes@);
}

pub(crate) fn push_decimal(out: &mut Vec<u8>, n: u64)
    ensures
        final(out)@ == old(out)@ + decimal(n as nat),
    decreases n,
{
    if n >= 10 {
        push_decimal(out, n / 10);
    }
    out.push((48 + n % 10) as u8);
    assert(out@ =~= old(out)@ + decimal(n as nat));
}

pub(crate) fn push_crlf(out: &mut Vec<u8>)
    ensures
        final(out)@ == old(out)@ + crlf(),
{
    out.push(13);
    out.push(10);
    assert(out@ =~= old(out)@ + crlf());
}

impl RedisValue {
    fn write_to(&self, out: &mut Vec<u8>)
        ensures
            final(out)@ == old(out)@ + spec_encode(self@),
        decreases self,
    {
        match self {
            RedisValue::SimpleString(s) | RedisValue::Error(s) => {
                let tag: u8 = if let RedisValue::SimpleString(_) = self {
                    43
                } else {
                    45
                };
                out.push(tag);
                push_bytes(out, s.as_str().as_bytes());
                push_crlf(out);
                assert(out@ =~= old(out)@ + spec_encode(self@));
            },
            RedisValue::BulkString(s) => {
                if s.as_str().is_empty() {
                    out.push(36);
                    out.push(45);
                    out.push(49);
                    push_crlf(out);
                } else {
                    let bytes = s.as_str().as_bytes();
                    out.push(36);
                    push_decimal(out, bytes.len() as u64);
                    push_crlf(out);
                    push_bytes(out, bytes);
                    push_crlf(out);
                }
                assert(out@ =~= old(out)@ + spec_encode(self@));
            },
            RedisValue::Array(vals) => {
                out.push(42);
                push_decimal(out, vals.len() as u64);
                push_crlf(out);
                let ghost head = out@;
                let ghost items = views_of(vals@);
                proof {
                    lemma_views_of(vals@);
                }
                let mut i: usize = 0;
                while i < vals.len()
                    invariant
                        0 <= i <= vals.len(),
                        *self == RedisValue::Array(*vals),
                        items == views_of(vals@),
                        items.len() == vals@.len(),
                        forall|j: int| 0 <= j < vals@.len() ==> #[trigger] items[j] == vals@[j]@,
                        out@ == head + spec_encode_items(items.subrange(0, i as int)),
                    decreases vals.len() - i,
                {
                    proof {
                        lemma_encode_items_append(
                            items.subrange(0, i as int),
                            seq![items[i as int]],
                        );
                        assert(items.subrange(0, i as int) + seq![items[i as int]] =~= items.subrange(
                            0,
                            i + 1,
                        ));
                        lemma_encode_items_single(items[i as int]);
                        assert(decreases_to!(*self => (*self)->Array_0));
                        assert(decreases_to!(*vals => vals[i as int]));
                        assert(decreases_to!(*self => vals[i as int]));
                    }
                    vals[i].write_to(out);
                    i = i + 1;
                }
                assert(items.subrange(0, vals.len() as int) =~= items);
                assert(out@ =~= old(out)@ + spec_encode(self@));
            },
        }
    }

    /// The wire form of this value.
    pub fn serialize(&self) -> (r: Vec<u8>)
        ensures
            r@ == spec_encode(self@),
    {
        let mut out: Vec<u8> = Vec::new();
        self.write_to(&mut out);
        assert(out@ =~= spec_encode(self@));
        out
    }
}

#[verifier::external_type_specification]
#[verifier::external_body]
pub struct ExBytesMut(BytesMut);

/// The bytes that a `BytesMut` buffer holds.
pub uninterp spec fn buffer_bytes(b: BytesMut) -> Seq<u8>;

/// Relies on `BytesMut`'s `Deref<Target = [u8]>`: the slice is the buffer's contents.
#[verifier::external_body]
pub(crate) fn buffer_slice(b: &BytesMut) -> (r: &[u8])
    ensures
        r@ == buffer_bytes(*b),
{
    &b[..]
}

/// Relies on `bytes::Buf::advance` for `BytesMut`: it drops the first `n` bytes, and panics
/// when fewer are held.
#[verifier::external_body]
pub(crate) fn buffer_advance(b: &mut BytesMut, n: usize)
    requires
        n <= buffer_bytes(*old(b)).len(),
    ensures
        buffer_bytes(*final(b)) == buffer_bytes(*old(b)).subrange(
            n as int,
            buffer_bytes(*old(b)).len() as int,
        ),
{
    b.advance(n)
}

/// Why no value could be taken from a buffer.
#[derive(PartialEq, Eq, Debug, Clone, Copy)]
pub enum RespError {
    /// The buffer holds the start of a frame but not all of it.
    Incomplete,
    /// The buffer does not start with a frame.
    Invalid,
}

/// Takes the frame at the start of `buffer` off it. When the buffer holds no whole frame, the
/// buffer is left as it was.
pub fn parse_redis_value(buffer: &mut BytesMut) -> (r: Result<RedisValue, RespError>)
    ensures
        match spec_decode(buffer_bytes(*old(buffer))) {
            Decoded::Complete(f, n) => {
                &&& r matches Ok(v) && v@ == f
                &&& buffer_bytes(*final(buffer)) == buffer_bytes(*old(buffer)).subrange(
                    n as int,
                    buffer_bytes(*old(buffer)).len() as int,
                )
            },
            Decoded::NeedMore => r == Err::<RedisValue, RespError>(RespError::Incomplete)
                && buffer_bytes(*final(buffer)) == buffer_bytes(*old(buffer)),
            Decoded::Invalid => r == Err::<RedisValue, RespError>(RespError::Invalid)
                && buffer_bytes(*final(buffer)) == buffer_bytes(*old(buffer)),
        },
{
    let decoded = decode(buffer_slice(buffer));
    match decoded {
        DecodeResult::Complete(v, n) => {
            buffer_advance(buffer, n);
            Ok(v)
        },
        DecodeResult::NeedMore => Err(RespError::Incomplete),
        DecodeResult::Invalid => Err(RespError::Invalid),
    }
}

/// A frame that can be read back: no error frame, which only a server sends; a simple string
/// holds no CR or LF; and every length fits in a `u64`.
pub open spec fn frame_wf(f: Frame) -> bool
    decreases f,
{
    match f {
        Frame::Simple(t) => line_text_wf(t),
        Frame::Error(_) => false,
        Frame::Bulk(t) => encode_utf8(t).len() <= u64::MAX,
        Frame::Array(items) => items.len() <= u64::MAX && forall|i: int|
            0 <= i < items.len() ==> frame_wf(#[trigger] items[i]),
    }
}

pub open spec fn line_text_wf(t: Seq<char>) -> bool {
    forall|i: int| 0 <= i < t.len() ==> #[trigger] t[i] != '\r' && t[i] != '\n'
}

proof fn lemma_or_high_bit(x: u8, y: u8)
    requires
        x >= 0x80,
    ensures
        (x | y) >= 0x80,
{
    assert(x >= 0x80 ==> (x | y) >= 0x80) by (bit_vector);
}

proof fn lemma_low_seven_bits(v: u32)
    requires
        v <= 0x7f,
    ensures
        (v & 0x7f) == v,
{
    assert(v <= 0x7f ==> (v & 0x7f) == v) by (bit_vector);
}

/// No byte of the UTF-8 form of a character other than CR is a CR.
proof fn lemma_scalar_not_cr(c: char)
    requires
        c != '\r',
    ensures
        forall|j: int|
            0 <= j < encode_scalar(c as u32).len() ==> #[trigger] encode_scalar(c as u32)[j] != 13u8,
{
    let v = c as u32;
    if has_width_1_encoding(v) {
        lemma_low_seven_bits(v);
    } else {
        lemma_or_high_bit(0xC0u8, ((v >> 6) & 0x1F) as u8);
        lemma_or_high_bit(0xE0u8, ((v >> 12) & 0x0F) as u8);
        lemma_or_high_bit(0xF0u8, ((v >> 18) & 0x7) as u8);
        lemma_or_high_bit(0x80u8, (v & 0x3F) as u8);
        lemma_or_high_bit(0x80u8, ((v >> 6) & 0x3F) as u8);
        lemma_or_high_bit(0x80u8, ((v >> 12) & 0x3F) as u8);
    }
}

proof fn lemma_text_not_cr(t: Seq<char>)
    requires
        forall|i: int| 0 <= i < t.len() ==> #[trigger] t[i] != '\r',
    ensures
        forall|j: int| 0 <= j < encode_utf8(t).len() ==> #[trigger] encode_utf8(t)[j] != 13u8,
    decreases t.len(),
{
    if t.len() > 0 {
        lemma_scalar_not_cr(t[0]);
        let rest = t.drop_first();
        assert forall|i: int| 0 <= i < rest.len() implies #[trigger] rest[i] != '\r' by {
            assert(rest[i] == t[i + 1]);
        }
        lemma_text_not_cr(rest);
        let first = encode_scalar(t[0] as u32);
        assert(encode_utf8(t) == first + encode_utf8(rest));
        assert forall|j: int| 0 <= j < encode_utf8(t).len() implies #[trigger] encode_utf8(t)[j]
            != 13u8 by {
            if j >= first.len() {
                assert(encode_utf8(t)[j] == encode_utf8(rest)[j - first.len()]);
            } else {
                assert(encode_utf8(t)[j] == first[j]);
            }
        }
    }
}

pub proof fn lemma_decimal(n: nat)
    ensures
        decimal(n).len() >= 1,
        all_digits(decimal(n)),
        digits_value(decimal(n)) == n,
    decreases n,
{
    let d = decimal(n);
    if n >= 10 {
        lemma_decimal(n / 10);
        assert(d.drop_last() =~= decimal(n / 10));
        assert(d.last() == (48 + n % 10) as u8);
        assert(digits_value(d) == digits_value(decimal(n / 10)) * 10 + n % 10);
        assert(forall|i: int| 0 <= i < d.len() - 1 ==> d[i] == #[trigger] decimal(n / 10)[i]);
    } else {
        assert(d.drop_last() =~= Seq::<u8>::empty());
        assert(digits_value(d) == digits_value(Seq::<u8>::empty()) * 10 + n);
    }
}

proof fn lemma_find_crlf_at(b: Seq<u8>, from: int, k: int)
    requires
        0 <= from <= k,
        k + 1 < b.len(),
        b[k] == 13u8,
        b[k + 1] == 10u8,
        forall|i: int| from <= i < k ==> b[i] != 13u8,
    ensures
        spec_find_crlf(b, from) == Some(k),
    decreases k - from,
{
    if from < k {
        lemma_find_crlf_at(b, from + 1, k);
    }
}

/// The length line of a bulk string or array: the decoder finds its end and reads `n` back.
proof fn lemma_length_line(b: Seq<u8>, n: nat, tail: Seq<u8>)
    requires
        n <= u64::MAX,
        b == seq![b[0]] + decimal(n) + crlf() + tail,
    ensures
        spec_find_crlf(b, 1) == Some(1 + decimal(n).len() as int),
        b.subrange(1, 1 + decimal(n).len() as int) == decimal(n),
        spec_parse_length(decimal(n)) == Some(n as int),
{
    lemma_decimal(n);
    let d = decimal(n);
    let dl = d.len() as int;
    assert(b.subrange(1, 1 + dl) =~= d);
    assert forall|i: int| 1 <= i < 1 + dl implies b[i] != 13u8 by {
        assert(b[i] == d[i - 1]);
        assert(is_digit(d[i - 1]));
    }
    assert(b[1 + dl] == 13u8);
    assert(b[2 + dl] == 10u8);
    lemma_find_crlf_at(b, 1, 1 + dl);
    assert(is_digit(d[0]));
}

/// Decoding the wire form of a well-formed frame, whatever bytes follow it, gives back that frame
/// and the length of its wire form.
pub proof fn lemma_decode_encode(f: Frame, rest: Seq<u8>)
    requires
        frame_wf(f),
    ensures
        spec_decode(spec_encode(f) + rest) == Decoded::Complete(f, spec_encode(f).len()),
    decreases f,
{
    let b = spec_encode(f) + rest;
    match f {
        Frame::Simple(t) => {
            assert(spec_encode(f) == seq![43u8] + encode_utf8(t) + crlf());
            assert(b =~= seq![43u8] + encode_utf8(t) + crlf() + rest);
            lemma_line_frame(t, rest);
        },
        Frame::Error(_) => {},
        Frame::Bulk(t) => {
            lemma_bulk_frame(t, rest);
        },
        Frame::Array(items) => {
            let m = items.len();
            let d = decimal(m);
            let tail = spec_encode_items(items) + rest;
            assert(b =~= seq![b[0]] + d + crlf() + tail);
            lemma_length_line(b, m, tail);
            let start = 3 + d.len() as int;
            assert(b.subrange(start, b.len() as int) =~= tail);
            lemma_decode_items_encode(items, rest);
        },
    }
}

proof fn lemma_bulk_frame(t: Seq<char>, rest: Seq<u8>)
    requires
        encode_utf8(t).len() <= u64::MAX,
    ensures
        spec_decode(spec_encode_bulk(t) + rest) == Decoded::Complete(
            Frame::Bulk(t),
            spec_encode_bulk(t).len(),
        ),
{
    let b = spec_encode_bulk(t) + rest;
    if t.len() == 0 {
        assert(b =~= seq![36u8] + seq![45u8, 49u8] + crlf() + rest);
        lemma_find_crlf_at(b, 1, 3);
        assert(b.subrange(1, 3) =~= seq![45u8, 49u8]);
        assert(t =~= Seq::<char>::empty());
    } else {
        let e = encode_utf8(t);
        let n = e.len();
        let ni = n as int;
        let d = decimal(n);
        let tail = e + crlf() + rest;
        assert(b =~= seq![b[0]] + d + crlf() + tail);
        lemma_length_line(b, n, tail);
        let start = 3 + d.len() as int;
        assert(b.subrange(start, start + ni) =~= e);
        assert(b[start + ni] == 13u8);
        assert(b[start + ni + 1] == 10u8);
        encode_utf8_valid_utf8(t);
        encode_utf8_decode_utf8(t);
    }
}

proof fn lemma_line_frame(t: Seq<char>, rest: Seq<u8>)
    requires
        line_text_wf(t),
    ensures
        spec_decode(seq![43u8] + encode_utf8(t) + crlf() + rest) == Decoded::Complete(
            Frame::Simple(t),
            (encode_utf8(t).len() + 3) as nat,
        ),
{
    let e = encode_utf8(t);
    let el = e.len() as int;
    let b = seq![43u8] + e + crlf() + rest;
    lemma_text_not_cr(t);
    assert forall|i: int| 1 <= i < 1 + el implies b[i] != 13u8 by {
        assert(b[i] == e[i - 1]);
    }
    lemma_find_crlf_at(b, 1, 1 + el);
    assert(b.subrange(1, 1 + el) =~= e);
    encode_utf8_valid_utf8(t);
    encode_utf8_decode_utf8(t);
}

/// Decoding the wire forms of well-formed frames, one after the other, gives them back.
pub proof fn lemma_decode_items_encode(items: Seq<Frame>, rest: Seq<u8>)
    requires
        forall|i: int| 0 <= i < items.len() ==> frame_wf(#[trigger] items[i]),
    ensures
        spec_decode_items(spec_encode_items(items) + rest, items.len()) == DecodedItems::Complete(
            items,
            spec_encode_items(items).len(),
        ),
    decreases items,
{
    if items.len() == 0 {
        assert(spec_encode_items(items) =~= Seq::<u8>::empty());
        assert(items =~= Seq::<Frame>::empty());
    } else {
        let tl = items.subrange(1, items.len() as int);
        let first = spec_encode(items[0]);
        let b = spec_encode_items(items) + rest;
        assert(frame_wf(items[0]));
        lemma_decode_encode(items[0], spec_encode_items(tl) + rest);
        assert(b =~= first + (spec_encode_items(tl) + rest));
        lemma_encode_nonempty(items[0]);
        assert(b.subrange(first.len() as int, b.len() as int) =~= spec_encode_items(tl) + rest);
        assert forall|i: int| 0 <= i < tl.len() implies frame_wf(#[trigger] tl[i]) by {
            assert(tl[i] == items[i + 1]);
        }
        lemma_decode_items_encode(tl, rest);
        assert(seq![items[0]] + tl =~= items);
        assert(spec_encode_items(items) == first + spec_encode_items(tl));
        assert(spec_decode_items(b, items.len()) == DecodedItems::Complete(
            items,
            spec_encode_items(items).len(),
        ));
    }
}

proof fn lemma_encode_nonempty(f: Frame)
    ensures
        spec_encode(f).len() > 0,
{
}

} // verus!
