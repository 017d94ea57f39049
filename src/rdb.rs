use crate::parser::is_digit;
use crate::store::{durations_view, pairs_view};
use crate::text::text_from_utf8;
use vstd::prelude::*;
use vstd::utf8::{decode_utf8, valid_utf8};

verus! {

/// The opcode that comes just before the sizes of the key space.
pub const RESIZE_DB: u8 = 0xfb;

/// The opcode of an expiry in milliseconds, eight bytes.
pub const EXPIRE_MS: u8 = 0xfc;

/// The opcode of an expiry in seconds, four bytes.
pub const EXPIRE_S: u8 = 0xfd;

/// The value type of a string.
pub const STRING_VALUE: u8 = 0;

/// Why a snapshot could not be read.
#[derive(PartialEq, Eq, Structural, Debug, Clone, Copy)]
pub enum RdbError {
    /// The data ends where more was expected.
    UnexpectedEnd,
    /// The data does not start with `REDIS`.
    WrongMagic,
    /// The four bytes of the version are not all decimal digits.
    BadVersion,
    /// A value of a type other than string.
    UnsupportedValueType,
    /// A key or a value is not valid UTF-8.
    InvalidUtf8,
}

/// The strings of a snapshot: each key once, with its value, and, for the keys that expire, how
/// many milliseconds each has left.
#[derive(Debug, PartialEq)]
pub struct RdbFile {
    pub key_vals: Vec<(String, String)>,
    pub key_expires: Vec<(String, u64)>,
}

pub struct RdbView {
    pub key_vals: Seq<(Seq<char>, Seq<char>)>,
    pub key_expires: Seq<(Seq<char>, u64)>,
}

impl RdbFile {
    pub open spec fn view(&self) -> RdbView {
        RdbView { key_vals: pairs_view(self.key_vals@), key_expires: durations_view(self.key_expires@) }
    }
}

/// One record of the key space.
pub struct RecordView {
    pub key: Seq<char>,
    pub value: Seq<char>,
    /// When the key expires, in milliseconds since the Unix epoch.
    pub expiry: Option<u64>,
}

/// `REDIS`.
pub open spec fn rdb_magic() -> Seq<u8> {
    seq![82u8, 69u8, 68u8, 73u8, 83u8]
}

pub open spec fn spec_check_magic(b: Seq<u8>) -> Result<(), RdbError> {
    if b.len() < 5 {
        Err(RdbError::UnexpectedEnd)
    } else if b.subrange(0, 5) != rdb_magic() {
        Err(RdbError::WrongMagic)
    } else {
        Ok(())
    }
}

/// The version: the four bytes after the magic, decimal digits.
pub open spec fn spec_check_version(b: Seq<u8>) -> Result<(), RdbError> {
    if b.len() < 9 {
        Err(RdbError::UnexpectedEnd)
    } else if !(forall|i: int| 5 <= i < 9 ==> is_digit(#[trigger] b[i])) {
        Err(RdbError::BadVersion)
    } else {
        Ok(())
    }
}

pub open spec fn spec_read_header(b: Seq<u8>) -> Result<(), RdbError> {
    match spec_check_magic(b) {
        Err(e) => Err(e),
        Ok(_) => spec_check_version(b),
    }
}

/// The position of the first byte `x` at or after `from`.
pub open spec fn spec_find_byte(b: Seq<u8>, from: int, x: u8) -> Option<int>
    decreases b.len() - from,
{
    if from >= b.len() {
        None
    } else if b[from] == x {
        Some(from)
    } else {
        spec_find_byte(b, from + 1, x)
    }
}

/// The number that bytes spell, least significant first.
pub open spec fn le_value(s: Seq<u8>) -> nat
    decreases s.len(),
{
    if s.len() == 0 {
        0
    } else {
        s[0] as nat + 256 * le_value(s.drop_first())
    }
}

/// The expiry that may open a record at `pos`, and the position of the value type after it.
pub open spec fn spec_expiry_prefix(b: Seq<u8>, pos: int) -> Result<(Option<u64>, int), RdbError> {
    if pos >= b.len() {
        Err(RdbError::UnexpectedEnd)
    } else if b[pos] == EXPIRE_MS {
        if pos + 9 > b.len() {
            Err(RdbError::UnexpectedEnd)
        } else {
            Ok((Some(le_value(b.subrange(pos + 1, pos + 9)) as u64), pos + 9))
        }
    } else if b[pos] == EXPIRE_S {
        if pos + 5 > b.len() {
            Err(RdbError::UnexpectedEnd)
        } else {
            Ok((Some((le_value(b.subrange(pos + 1, pos + 5)) * 1000) as u64), pos + 5))
        }
    } else {
        Ok((None, pos))
    }
}

/// The record at `pos` and the position after it: an optional expiry, the value type, then the
/// key and the value, each a one-byte length and that many bytes.
pub open spec fn spec_read_record(b: Seq<u8>, pos: int) -> Result<(RecordView, int), RdbError> {
    match spec_expiry_prefix(b, pos) {
        Err(e) => Err(e),
        Ok((expiry, t)) => {
            if t >= b.len() {
                Err(RdbError::UnexpectedEnd)
            } else if b[t] != STRING_VALUE {
                Err(RdbError::UnsupportedValueType)
            } else if t + 1 >= b.len() {
                Err(RdbError::UnexpectedEnd)
            } else {
                let ks = t + 2;
                let kl = b[t + 1] as int;
                if ks + kl >= b.len() {
                    Err(RdbError::UnexpectedEnd)
                } else {
                    let vs = ks + kl + 1;
                    let vl = b[ks + kl] as int;
                    if vs + vl > b.len() {
                        Err(RdbError::UnexpectedEnd)
                    } else if !valid_utf8(b.subrange(ks, ks + kl)) || !valid_utf8(
                        b.subrange(vs, vs + vl),
                    ) {
                        Err(RdbError::InvalidUtf8)
                    } else {
                        Ok(
                            (
                                RecordView {
                                    key: decode_utf8(b.subrange(ks, ks + kl)),
                                    value: decode_utf8(b.subrange(vs, vs + vl)),
                                    expiry,
                                },
                                vs + vl,
                            ),
                        )
                    }
                }
            }
        },
    }
}

/// The keys of a sequence of pairs.
pub open spec fn keys_of<V>(s: Seq<(Seq<char>, V)>) -> Seq<Seq<char>> {
    s.map_values(|p: (Seq<char>, V)| p.0)
}

/// The position of the last `k` in `keys`, or -1 when there is none.
pub open spec fn key_index(keys: Seq<Seq<char>>, k: Seq<char>) -> int
    decreases keys.len(),
{
    if keys.len() == 0 {
        -1
    } else if keys.last() == k {
        keys.len() - 1
    } else {
        key_index(keys.drop_last(), k)
    }
}

/// `s` with `k` paired with `v`: in the place of the pair of `k`, or at the end.
pub open spec fn put_pair<V>(s: Seq<(Seq<char>, V)>, k: Seq<char>, v: V) -> Seq<(Seq<char>, V)> {
    let i = key_index(keys_of(s), k);
    if i < 0 {
        s.push((k, v))
    } else {
        s.update(i, (k, v))
    }
}

/// `s` without the pair of `k`.
pub open spec fn drop_pair<V>(s: Seq<(Seq<char>, V)>, k: Seq<char>) -> Seq<(Seq<char>, V)> {
    let i = key_index(keys_of(s), k);
    if i < 0 {
        s
    } else {
        s.remove(i)
    }
}

/// What a record does to the key space read so far, at time `now`: nothing when its expiry has
/// passed; else it sets the value of its key and, in place of any earlier one, the time left when
/// it expires. So the last record kept for a key decides its value and its expiry.
pub open spec fn keep_record(r: RecordView, now: u64, kv: Seq<(Seq<char>, Seq<char>)>, ke: Seq<
    (Seq<char>, u64),
>) -> (Seq<(Seq<char>, Seq<char>)>, Seq<(Seq<char>, u64)>) {
    match r.expiry {
        None => (put_pair(kv, r.key, r.value), drop_pair(ke, r.key)),
        Some(e) => if now < e {
            (put_pair(kv, r.key, r.value), put_pair(ke, r.key, (e - now) as u64))
        } else {
            (kv, ke)
        },
    }
}

proof fn lemma_key_index(keys: Seq<Seq<char>>, k: Seq<char>)
    ensures
        -1 <= key_index(keys, k) < keys.len(),
        key_index(keys, k) >= 0 ==> keys[key_index(keys, k)] == k,
        key_index(keys, k) < 0 ==> !keys.contains(k),
    decreases keys.len(),
{
    if keys.len() > 0 && keys.last() != k {
        lemma_key_index(keys.drop_last(), k);
        if key_index(keys, k) < 0 {
            assert forall|j: int| 0 <= j < keys.len() implies keys[j] != k by {
                if j < keys.len() - 1 {
                    assert(keys.drop_last()[j] == keys[j]);
                }
            }
        }
    }
}

/// Putting or dropping a pair keeps the keys free of repeats.
proof fn lemma_pairs_distinct<V>(s: Seq<(Seq<char>, V)>, k: Seq<char>, v: V)
    requires
        keys_of(s).no_duplicates(),
    ensures
        keys_of(put_pair(s, k, v)).no_duplicates(),
        keys_of(drop_pair(s, k)).no_duplicates(),
{
    let keys = keys_of(s);
    lemma_key_index(keys, k);
    let i = key_index(keys, k);
    if i < 0 {
        assert(keys_of(put_pair(s, k, v)) =~= keys.push(k));
        assert forall|a: int, b: int|
            0 <= a < keys.len() + 1 && 0 <= b < keys.len() + 1 && a != b implies keys.push(k)[a]
            != keys.push(k)[b] by {
            if a == keys.len() {
                assert(keys[b] != k);
            } else if b == keys.len() {
                assert(keys[a] != k);
            }
        }
    } else {
        assert(keys_of(put_pair(s, k, v)) =~= keys);
        let r = keys_of(drop_pair(s, k));
        assert(r =~= keys.remove(i));
        assert forall|a: int, b: int| 0 <= a < r.len() && 0 <= b < r.len() && a != b implies r[a]
            != r[b] by {
            let a1 = if a < i {
                a
            } else {
                a + 1
            };
            let b1 = if b < i {
                b
            } else {
                b + 1
            };
            assert(r[a] == keys[a1] && r[b] == keys[b1]);
        }
    }
}

/// The keys of a vector of pairs, as texts.
pub open spec fn texts_of_keys<V>(v: Seq<(String, V)>) -> Seq<Seq<char>> {
    v.map_values(|p: (String, V)| p.0@)
}

/// The position of the last pair of `k`.
fn key_position<V>(v: &Vec<(String, V)>, k: &String) -> (r: Option<usize>)
    ensures
        match r {
            Some(i) => i < v@.len() && key_index(texts_of_keys(v@), k@) == i as int,
            None => key_index(texts_of_keys(v@), k@) == -1,
        },
{
    let ghost keys = texts_of_keys(v@);
    let mut j = v.len();
    assert(keys.subrange(0, j as int) =~= keys);
    while j > 0
        invariant
            j <= v@.len(),
            keys == texts_of_keys(v@),
            key_index(keys, k@) == key_index(keys.subrange(0, j as int), k@),
        decreases j,
    {
        assert(keys.subrange(0, j as int).drop_last() =~= keys.subrange(0, j - 1));
        if v[j - 1].0 == *k {
            return Some(j - 1);
        }
        j = j - 1;
    }
    None
}

/// Sets the value of `key`, in the place of its pair or at the end.
fn put_key_val(kv: &mut Vec<(String, String)>, key: String, value: String)
    ensures
        pairs_view(final(kv)@) == put_pair(pairs_view(old(kv)@), key@, value@),
{
    let ghost before = pairs_view(kv@);
    assert(keys_of(before) =~= texts_of_keys(kv@));
    match key_position(kv, &key) {
        Some(i) => {
            kv.set(i, (key, value));
            assert(pairs_view(kv@) =~= before.update(i as int, (key@, value@)));
        },
        None => {
            kv.push((key, value));
            assert(pairs_view(kv@) =~= before.push((key@, value@)));
        },
    }
}

/// Sets the time left of `key`, in the place of its pair or at the end.
fn put_key_expire(ke: &mut Vec<(String, u64)>, key: String, left: u64)
    ensures
        durations_view(final(ke)@) == put_pair(durations_view(old(ke)@), key@, left),
{
    let ghost before = durations_view(ke@);
    assert(keys_of(before) =~= texts_of_keys(ke@));
    match key_position(ke, &key) {
        Some(i) => {
            ke.set(i, (key, left));
            assert(durations_view(ke@) =~= before.update(i as int, (key@, left)));
        },
        None => {
            ke.push((key, left));
            assert(durations_view(ke@) =~= before.push((key@, left)));
        },
    }
}

/// Drops the time left of `key`, if it has one.
fn drop_key_expire(ke: &mut Vec<(String, u64)>, key: &String)
    ensures
        durations_view(final(ke)@) == drop_pair(durations_view(old(ke)@), key@),
{
    let ghost before = durations_view(ke@);
    assert(keys_of(before) =~= texts_of_keys(ke@));
    match key_position(ke, key) {
        Some(i) => {
            ke.remove(i);
            assert(durations_view(ke@) =~= before.remove(i as int));
        },
        None => {},
    }
}

/// The key space after reading `remaining` more records from `pos`.
pub open spec fn spec_read_records(
    b: Seq<u8>,
    pos: int,
    remaining: nat,
    now: u64,
    kv: Seq<(Seq<char>, Seq<char>)>,
    ke: Seq<(Seq<char>, u64)>,
) -> Result<RdbView, RdbError>
    decreases remaining,
{
    if remaining == 0 {
        Ok(RdbView { key_vals: kv, key_expires: ke })
    } else {
        match spec_read_record(b, pos) {
            Err(e) => Err(e),
            Ok((r, next)) => {
                let (kv2, ke2) = keep_record(r, now, kv, ke);
                spec_read_records(b, next, (remaining - 1) as nat, now, kv2, ke2)
            },
        }
    }
}

/// A whole snapshot, read at time `now` (milliseconds since the Unix epoch): the header, then
/// whatever comes before the resize opcode, the two sizes, and as many records as the first size
/// says.
pub open spec fn spec_parse(b: Seq<u8>, now: u64) -> Result<RdbView, RdbError> {
    match spec_read_header(b) {
        Err(e) => Err(e),
        Ok(_) => match spec_find_byte(b, 9, RESIZE_DB) {
            None => Err(RdbError::UnexpectedEnd),
            Some(j) => if j + 3 > b.len() {
                Err(RdbError::UnexpectedEnd)
            } else {
                spec_read_records(b, j + 3, b[j + 1] as nat, now, Seq::empty(), Seq::empty())
            },
        },
    }
}

pub fn check_magic(data: &[u8]) -> (r: Result<(), RdbError>)
    ensures
        r == spec_check_magic(data@),
{
    if data.len() < 5 {
        return Err(RdbError::UnexpectedEnd);
    }
    if data[0] == 82 && data[1] == 69 && data[2] == 68 && data[3] == 73 && data[4] == 83 {
        assert(data@.subrange(0, 5) =~= rdb_magic());
        Ok(())
    } else {
        assert(data@.subrange(0, 5) != rdb_magic()) by {
            if data@.subrange(0, 5) == rdb_magic() {
                assert(data@.subrange(0, 5)[0] == data@[0]);
            }
        }
        Err(RdbError::WrongMagic)
    }
}

pub fn check_version(data: &[u8]) -> (r: Result<(), RdbError>)
    ensures
        r == spec_check_version(data@),
{
    if data.len() < 9 {
        return Err(RdbError::UnexpectedEnd);
    }
    let mut i: usize = 5;
    while i < 9
        invariant
            5 <= i <= 9,
            data.len() >= 9,
            forall|j: int| 5 <= j < i ==> is_digit(#[trigger] data@[j]),
        decreases 9 - i,
    {
        if data[i] < 48 || data[i] > 57 {
            return Err(RdbError::BadVersion);
        }
        i = i + 1;
    }
    Ok(())
}

/// Checks the magic and the version, the first nine bytes.
pub fn read_header(data: &[u8]) -> (r: Result<(), RdbError>)
    ensures
        r == spec_read_header(data@),
{
    check_magic(data)?;
    check_version(data)
}

/// `256` to the power `n`.
pub open spec fn pow256(n: nat) -> nat
    decreases n,
{
    if n == 0 {
        1
    } else {
        256 * pow256((n - 1) as nat)
    }
}

/// Reads the `n` bytes at `pos` as a number, least significant byte first.
fn read_le(data: &[u8], pos: usize, n: usize) -> (r: u64)
    requires
        n <= 8,
        pos + n <= data@.len(),
    ensures
        r == le_value(data@.subrange(pos as int, pos + n)),
{
    let ghost s = data@.subrange(pos as int, pos + n);
    assert(pow256(8) == 0x1_0000_0000_0000_0000) by {
        reveal_with_fuel(pow256, 9);
    }
    let mut acc: u64 = 0;
    let mut j: usize = n;
    assert(s.subrange(n as int, n as int) =~= Seq::<u8>::empty());
    while j > 0
        invariant
            j <= n <= 8,
            pos + n <= data.len(),
            s == data@.subrange(pos as int, pos + n),
            acc == le_value(s.subrange(j as int, n as int)),
            acc < pow256((n - j) as nat),
            pow256(8) == 0x1_0000_0000_0000_0000,
        decreases j,
    {
        j = j - 1;
        let b = data[pos + j];
        let ghost k = (n - j - 1) as nat;
        proof {
            assert(pow256(k + 1) == 256 * pow256(k));
            lemma_pow256_mono(k + 1, 8);
            assert(acc * 256 + b < 256 * pow256(k)) by (nonlinear_arith)
                requires
                    acc < pow256(k),
                    b < 256,
            ;
            assert(s.subrange(j as int, n as int).drop_first() =~= s.subrange(j + 1, n as int));
            assert(s.subrange(j as int, n as int)[0] == b);
        }
        acc = b as u64 + 256 * acc;
    }
    assert(s.subrange(0, n as int) =~= s);
    acc
}

proof fn lemma_pow256_mono(a: nat, b: nat)
    requires
        a <= b,
    ensures
        pow256(a) <= pow256(b),
    decreases b,
{
    if a < b {
        lemma_pow256_mono(a, (b - 1) as nat);
    }
}

/// The position of the first byte `x` at or after `from`.
fn find_byte(data: &[u8], from: usize, x: u8) -> (r: Option<usize>)
    ensures
        match r {
            Some(j) => j < data.len() && spec_find_byte(data@, from as int, x) == Some(j as int),
            None => spec_find_byte(data@, from as int, x) is None,
        },
{
    let mut j = from;
    while j < data.len()
        invariant
            from <= j,
            spec_find_byte(data@, from as int, x) == spec_find_byte(data@, j as int, x),
        decreases data.len() - j,
    {
        if data[j] == x {
            return Some(j);
        }
        j = j + 1;
    }
    None
}

/// The size of the key space, at `pos`; the size of its expiring part, which follows, is passed
/// over. Also the position after both.
pub fn read_hash_size(data: &[u8], pos: usize) -> (r: Result<(u8, usize), RdbError>)
    ensures
        match r {
            Ok((size, next)) => pos + 2 <= data@.len() && size == data@[pos as int] && next == pos
                + 2,
            Err(e) => pos + 2 > data@.len() && e == RdbError::UnexpectedEnd,
        },
{
    if pos >= data.len() || data.len() - pos < 2 {
        return Err(RdbError::UnexpectedEnd);
    }
    Ok((data[pos], pos + 2))
}

/// The record at `pos`: key, value, expiry, and the position after it.
pub fn read_string_key_value(data: &[u8], pos: usize) -> (r: Result<
    (String, String, Option<u64>, usize),
    RdbError,
>)
    ensures
        match r {
            Ok((k, v, e, next)) => spec_read_record(data@, pos as int) == Ok::<
                (RecordView, int),
                RdbError,
            >((RecordView { key: k@, value: v@, expiry: e }, next as int)),
            Err(x) => spec_read_record(data@, pos as int) == Err::<(RecordView, int), RdbError>(x),
        },
{
    let len = data.len();
    if pos >= len {
        return Err(RdbError::UnexpectedEnd);
    }
    let (expiry, t) = if data[pos] == EXPIRE_MS {
        if len - pos < 9 {
            return Err(RdbError::UnexpectedEnd);
        }
        (Some(read_le(data, pos + 1, 8)), pos + 9)
    } else if data[pos] == EXPIRE_S {
        if len - pos < 5 {
            return Err(RdbError::UnexpectedEnd);
        }
        let secs = read_le(data, pos + 1, 4);
        proof {
            lemma_le_bound(data@.subrange(pos + 1, pos + 5));
            assert(pow256(4) == 0x1_0000_0000) by {
                reveal_with_fuel(pow256, 5);
            }
        }
        (Some(secs * 1000), pos + 5)
    } else {
        (None, pos)
    };
    assert(spec_expiry_prefix(data@, pos as int) == Ok::<(Option<u64>, int), RdbError>(
        (expiry, t as int),
    ));
    if t >= len {
        return Err(RdbError::UnexpectedEnd);
    }
    if data[t] != STRING_VALUE {
        return Err(RdbError::UnsupportedValueType);
    }
    if t + 1 >= len {
        return Err(RdbError::UnexpectedEnd);
    }
    let ks = t + 2;
    let kl = data[t + 1] as usize;
    if ks >= len || len - ks <= kl {
        return Err(RdbError::UnexpectedEnd);
    }
    let vs = ks + kl + 1;
    let vl = data[ks + kl] as usize;
    if vs > len || len - vs < vl {
        return Err(RdbError::UnexpectedEnd);
    }
    let key = match text_from_utf8(&data[ks..ks + kl]) {
        Some(k) => k,
        None => {
            return Err(RdbError::InvalidUtf8);
        },
    };
    let value = match text_from_utf8(&data[vs..vs + vl]) {
        Some(v) => v,
        None => {
            return Err(RdbError::InvalidUtf8);
        },
    };
    Ok((key, value, expiry, vs + vl))
}

proof fn lemma_le_bound(s: Seq<u8>)
    ensures
        le_value(s) < pow256(s.len()),
    decreases s.len(),
{
    if s.len() > 0 {
        lemma_le_bound(s.drop_first());
        let r = le_value(s.drop_first());
        let p = pow256(s.drop_first().len());
        assert(s[0] as nat + 256 * r < 256 * p) by (nonlinear_arith)
            requires
                r < p,
                s[0] < 256,
        ;
    }
}

/// Reads a snapshot at time `now_ms`, in milliseconds since the Unix epoch. A key whose expiry
/// has passed is left out; for the others that expire, the time left is given.
pub fn parse(data: &[u8], now_ms: u64) -> (r: Result<RdbFile, RdbError>)
    ensures
        match r {
            Ok(f) => {
                &&& spec_parse(data@, now_ms) == Ok::<RdbView, RdbError>(f@)
                &&& keys_of(f@.key_vals).no_duplicates()
                &&& keys_of(f@.key_expires).no_duplicates()
            },
            Err(e) => spec_parse(data@, now_ms) == Err::<RdbView, RdbError>(e),
        },
{
    read_header(data)?;
    let j = match find_byte(data, 9, RESIZE_DB) {
        Some(j) => j,
        None => {
            return Err(RdbError::UnexpectedEnd);
        },
    };
    let (hash_size, start) = read_hash_size(data, j + 1)?;
    let mut key_vals: Vec<(String, String)> = Vec::new();
    let mut key_expires: Vec<(String, u64)> = Vec::new();
    let mut pos = start;
    let mut i: u8 = 0;
    assert(pairs_view(key_vals@) =~= Seq::<(Seq<char>, Seq<char>)>::empty());
    assert(durations_view(key_expires@) =~= Seq::<(Seq<char>, u64)>::empty());
    assert(keys_of(pairs_view(key_vals@)) =~= Seq::<Seq<char>>::empty());
    assert(keys_of(durations_view(key_expires@)) =~= Seq::<Seq<char>>::empty());
    while i < hash_size
        invariant
            i <= hash_size,
            spec_parse(data@, now_ms) == spec_read_records(
                data@,
                pos as int,
                (hash_size - i) as nat,
                now_ms,
                pairs_view(key_vals@),
                durations_view(key_expires@),
            ),
            keys_of(pairs_view(key_vals@)).no_duplicates(),
            keys_of(durations_view(key_expires@)).no_duplicates(),
        decreases hash_size - i,
    {
        let (key, value, expiry, next) = read_string_key_value(data, pos)?;
        proof {
            lemma_pairs_distinct(pairs_view(key_vals@), key@, value@);
            lemma_pairs_distinct(durations_view(key_expires@), key@, 0u64);
            if let Some(e) = expiry {
                if now_ms < e {
                    lemma_pairs_distinct(durations_view(key_expires@), key@, (e - now_ms) as u64);
                }
            }
        }
        match expiry {
            None => {
                drop_key_expire(&mut key_expires, &key);
                put_key_val(&mut key_vals, key, value);
            },
            Some(e) => {
                if now_ms < e {
                    put_key_expire(&mut key_expires, key.clone(), e - now_ms);
                    put_key_val(&mut key_vals, key, value);
                }
            },
        }
        pos = next;
        i = i + 1;
    }
    Ok(RdbFile { key_vals, key_expires })
}

} // verus!
