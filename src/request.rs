use crate::config::{spec_config_value, SystemConfig};
use crate::parser::{lemma_views_of, spec_encode, views_of, Frame, RedisValue};
use crate::store::{
    live_keys, spec_get, spec_set, spec_set_with_expire, ExpiryTicket, Store, StoreView,
};
use crate::text::text_eq;
use vstd::prelude::*;
use vstd::utf8::{encode_utf8, is_ascii_chars_encode_utf8};

verus! {

/// The text that `str::to_lowercase` gives for a text.
pub uninterp spec fn lower_of(s: Seq<char>) -> Seq<char>;

/// Relies on `str::to_lowercase`: the result depends on the characters alone.
#[verifier::external_body]
fn lowercase(s: &str) -> (r: String)
    ensures
        r@ == lower_of(s@),
{
    s.to_lowercase()
}

/// The number that a run of ASCII digits denotes.
pub open spec fn char_digits_value(s: Seq<char>) -> nat
    decreases s.len(),
{
    if s.len() == 0 {
        0
    } else {
        char_digits_value(s.drop_last()) * 10 + (s.last() as nat - 48) as nat
    }
}

pub open spec fn all_ascii_digits(d: Seq<char>) -> bool {
    forall|i: int| 0 <= i < d.len() ==> '0' <= #[trigger] d[i] <= '9'
}

/// The digits of a number text: all of it, but for a leading `+`.
pub open spec fn unsigned_digits(s: Seq<char>) -> Seq<char> {
    if s.len() > 0 && s[0] == '+' {
        s.drop_first()
    } else {
        s
    }
}

/// What `str::parse::<u64>` accepts: an optional `+`, then one or more ASCII digits whose value
/// fits in a `u64`.
pub open spec fn spec_parse_u64(s: Seq<char>) -> Option<u64> {
    let d = unsigned_digits(s);
    if d.len() > 0 && all_ascii_digits(d) && char_digits_value(d) <= u64::MAX {
        Some(char_digits_value(d) as u64)
    } else {
        None
    }
}

proof fn lemma_char_digits_prefix(s: Seq<char>, k: int)
    requires
        all_ascii_digits(s),
        0 <= k <= s.len(),
    ensures
        char_digits_value(s) >= char_digits_value(s.subrange(0, k)),
    decreases s.len(),
{
    if k == s.len() {
        assert(s.subrange(0, k) =~= s);
    } else {
        let t = s.drop_last();
        lemma_char_digits_prefix(t, k);
        assert(t.subrange(0, k) =~= s.subrange(0, k));
    }
}

/// Reads a time to live the way `str::parse::<u64>` does: an optional `+`, then one or more
/// ASCII digits whose value fits in a `u64`.
fn parse_u64(s: &str) -> (r: Option<u64>)
    ensures
        r == spec_parse_u64(s@),
{
    let len = s.unicode_len();
    let start: usize = if len > 0 && s.get_char(0) == '+' {
        1
    } else {
        0
    };
    let ghost d = unsigned_digits(s@);
    assert(d =~= s@.subrange(start as int, len as int));
    if start == len {
        return None;
    }
    let mut acc: u64 = 0;
    let mut i: usize = start;
    assert(s@.subrange(start as int, start as int) =~= Seq::<char>::empty());
    while i < len
        invariant
            start <= i <= len,
            start < len,
            len == s@.len(),
            d == s@.subrange(start as int, len as int),
            d == unsigned_digits(s@),
            forall|j: int| start <= j < i ==> '0' <= #[trigger] s@[j] <= '9',
            acc == char_digits_value(s@.subrange(start as int, i as int)),
        decreases len - i,
    {
        let c = s.get_char(i);
        if c < '0' || c > '9' {
            assert(d[i - start] == c);
            assert(!all_ascii_digits(d));
            return None;
        }
        let digit = (c as u32 - 48) as u64;
        let ghost next = s@.subrange(start as int, i + 1);
        assert(next.drop_last() =~= s@.subrange(start as int, i as int));
        if acc > (u64::MAX - digit) / 10 {
            assert(acc * 10 + digit > u64::MAX) by (nonlinear_arith)
                requires
                    acc > (u64::MAX - digit) / 10,
                    digit <= 9,
            ;
            proof {
                if all_ascii_digits(d) {
                    lemma_char_digits_prefix(d, i + 1 - start);
                    assert(d.subrange(0, i + 1 - start) =~= next);
                }
            }
            return None;
        }
        assert(acc * 10 + digit <= u64::MAX) by (nonlinear_arith)
            requires
                acc <= (u64::MAX - digit) / 10,
                digit <= 9,
        ;
        acc = acc * 10 + digit;
        i = i + 1;
    }
    assert(all_ascii_digits(d)) by {
        assert(forall|j: int| 0 <= j < d.len() ==> d[j] == s@[j + start]);
    }
    Some(acc)
}

/// A command, as a client sends it.
pub enum Request {
    Ping,
    Echo(String),
    /// Key, value and, in milliseconds, the time to live.
    SET(String, String, Option<u64>),
    Get(String),
    ConfigGet(String),
    KEYS(String),
    INFO,
    REPLCONF(Vec<String>),
    PSYNC(Vec<String>),
}

/// A command, as plain values.
pub enum RequestView {
    Ping,
    Echo(Seq<char>),
    SetKey(Seq<char>, Seq<char>, Option<u64>),
    Get(Seq<char>),
    ConfigGet(Seq<char>),
    Keys(Seq<char>),
    Info,
    ReplConf(Seq<Seq<char>>),
    PSync(Seq<Seq<char>>),
}

pub open spec fn texts(v: Seq<String>) -> Seq<Seq<char>> {
    v.map_values(|s: String| s@)
}

impl Request {
    pub open spec fn view(&self) -> RequestView {
        match self {
            Request::Ping => RequestView::Ping,
            Request::Echo(s) => RequestView::Echo(s@),
            Request::SET(k, v, t) => RequestView::SetKey(k@, v@, *t),
            Request::Get(k) => RequestView::Get(k@),
            Request::ConfigGet(k) => RequestView::ConfigGet(k@),
            Request::KEYS(p) => RequestView::Keys(p@),
            Request::INFO => RequestView::Info,
            Request::REPLCONF(a) => RequestView::ReplConf(texts(a@)),
            Request::PSYNC(a) => RequestView::PSync(texts(a@)),
        }
    }
}

/// Why a frame is not a command.
#[derive(PartialEq, Eq, Structural, Debug, Clone, Copy)]
pub enum CommandError {
    /// The frame is not an array.
    NotArray,
    /// An element of the array is not a bulk string.
    NotBulkString,
    /// The array is empty.
    EmptyCommand,
    UnknownCommand,
    WrongArity,
    /// An option that the command does not know.
    InvalidOption,
    /// A time to live that is not a positive whole number of milliseconds.
    InvalidExpiry,
}

impl CommandError {
    pub open spec fn spec_message(self) -> Seq<char> {
        match self {
            CommandError::NotArray => "ERR protocol error: a command is an array"@,
            CommandError::NotBulkString => "ERR protocol error: a command holds bulk strings"@,
            CommandError::EmptyCommand => "ERR protocol error: empty command"@,
            CommandError::UnknownCommand => "ERR unknown command"@,
            CommandError::WrongArity => "ERR wrong number of arguments"@,
            CommandError::InvalidOption => "ERR syntax error"@,
            CommandError::InvalidExpiry => "ERR invalid expire time"@,
        }
    }

    /// The text of the error reply.
    pub fn message(&self) -> (r: &'static str)
        ensures
            r@ == self.spec_message(),
    {
        match self {
            CommandError::NotArray => "ERR protocol error: a command is an array",
            CommandError::NotBulkString => "ERR protocol error: a command holds bulk strings",
            CommandError::EmptyCommand => "ERR protocol error: empty command",
            CommandError::UnknownCommand => "ERR unknown command",
            CommandError::WrongArity => "ERR wrong number of arguments",
            CommandError::InvalidOption => "ERR syntax error",
            CommandError::InvalidExpiry => "ERR invalid expire time",
        }
    }
}

pub open spec fn spec_result(r: Result<Request, CommandError>) -> Result<RequestView, CommandError> {
    match r {
        Ok(q) => Ok(q@),
        Err(e) => Err(e),
    }
}

/// The command that a SET with an option makes, given the option already in lower case.
pub open spec fn spec_set_with_option(
    key: Seq<char>,
    value: Seq<char>,
    option: Seq<char>,
    ms: Seq<char>,
) -> Result<RequestView, CommandError> {
    if option == "px"@ {
        match spec_parse_u64(ms) {
            Some(n) => if n > 0 {
                Ok(RequestView::SetKey(key, value, Some(n)))
            } else {
                Err(CommandError::InvalidExpiry)
            },
            None => Err(CommandError::InvalidExpiry),
        }
    } else {
        Err(CommandError::InvalidOption)
    }
}

/// The command that the arguments of SET make.
pub open spec fn spec_set_request(args: Seq<Seq<char>>) -> Result<RequestView, CommandError> {
    if args.len() == 2 {
        Ok(RequestView::SetKey(args[0], args[1], None))
    } else if args.len() == 4 {
        spec_set_with_option(args[0], args[1], lower_of(args[2]), args[3])
    } else {
        Err(CommandError::WrongArity)
    }
}

/// The command that CONFIG makes, given its subcommand already in lower case and the rest: GET
/// reads the first name after it; words after that name are passed over.
pub open spec fn spec_config_with_subcommand(sub: Seq<char>, rest: Seq<Seq<char>>) -> Result<
    RequestView,
    CommandError,
> {
    if sub == "get"@ {
        if rest.len() >= 1 {
            Ok(RequestView::ConfigGet(rest[0]))
        } else {
            Err(CommandError::WrongArity)
        }
    } else {
        Err(CommandError::InvalidOption)
    }
}

/// The command that the arguments of CONFIG make.
pub open spec fn spec_config_request(args: Seq<Seq<char>>) -> Result<RequestView, CommandError> {
    if args.len() == 0 {
        Err(CommandError::WrongArity)
    } else {
        spec_config_with_subcommand(lower_of(args[0]), args.drop_first())
    }
}

/// The command that a command name, already in lower case, and its arguments make.
pub open spec fn spec_request_from(command: Seq<char>, args: Seq<Seq<char>>) -> Result<
    RequestView,
    CommandError,
> {
    if command == "ping"@ {
        Ok(RequestView::Ping)
    } else if command == "echo"@ {
        if args.len() == 1 {
            Ok(RequestView::Echo(args[0]))
        } else {
            Err(CommandError::WrongArity)
        }
    } else if command == "set"@ {
        spec_set_request(args)
    } else if command == "get"@ {
        if args.len() == 1 {
            Ok(RequestView::Get(args[0]))
        } else {
            Err(CommandError::WrongArity)
        }
    } else if command == "config"@ {
        spec_config_request(args)
    } else if command == "keys"@ {
        if args.len() == 1 {
            Ok(RequestView::Keys(args[0]))
        } else {
            Err(CommandError::WrongArity)
        }
    } else if command == "info"@ {
        Ok(RequestView::Info)
    } else if command == "replconf"@ {
        Ok(RequestView::ReplConf(args))
    } else if command == "psync"@ {
        Ok(RequestView::PSync(args))
    } else {
        Err(CommandError::UnknownCommand)
    }
}

/// The words of a command frame: an array of bulk strings, at least one.
pub open spec fn spec_words(f: Frame) -> Result<Seq<Seq<char>>, CommandError> {
    match f {
        Frame::Array(items) => if !(forall|i: int| 0 <= i < items.len() ==> #[trigger] items[i] is Bulk) {
            Err(CommandError::NotBulkString)
        } else if items.len() == 0 {
            Err(CommandError::EmptyCommand)
        } else {
            Ok(items.map_values(|x: Frame| x->Bulk_0))
        },
        _ => Err(CommandError::NotArray),
    }
}

/// The command that a frame makes; the command name is read without regard to case.
pub open spec fn spec_get_request(f: Frame) -> Result<RequestView, CommandError> {
    match spec_words(f) {
        Ok(words) => spec_request_from(lower_of(words[0]), words.drop_first()),
        Err(e) => Err(e),
    }
}

/// A SET with an option, given the option already in lower case.
pub fn set_request_with_option(key: String, value: String, option: &str, ms: &str) -> (r: Result<
    Request,
    CommandError,
>)
    ensures
        spec_result(r) == spec_set_with_option(key@, value@, option@, ms@),
{
    if text_eq(option, "px") {
        match parse_u64(ms) {
            Some(n) => {
                if n > 0 {
                    Ok(Request::SET(key, value, Some(n)))
                } else {
                    Err(CommandError::InvalidExpiry)
                }
            },
            None => Err(CommandError::InvalidExpiry),
        }
    } else {
        Err(CommandError::InvalidOption)
    }
}

pub fn make_set_request(args: Vec<String>) -> (r: Result<Request, CommandError>)
    ensures
        spec_result(r) == spec_set_request(texts(args@)),
{
    if args.len() == 2 {
        Ok(Request::SET(args[0].clone(), args[1].clone(), None))
    } else if args.len() == 4 {
        let option = lowercase(args[2].as_str());
        set_request_with_option(args[0].clone(), args[1].clone(), option.as_str(), args[3].as_str())
    } else {
        Err(CommandError::WrongArity)
    }
}

/// A CONFIG command, given its subcommand already in lower case and the words after it.
pub fn config_request_with_subcommand(sub: &str, rest: &[String]) -> (r: Result<
    Request,
    CommandError,
>)
    ensures
        spec_result(r) == spec_config_with_subcommand(sub@, texts(rest@)),
{
    if text_eq(sub, "get") {
        if rest.len() >= 1 {
            Ok(Request::ConfigGet(rest[0].clone()))
        } else {
            Err(CommandError::WrongArity)
        }
    } else {
        Err(CommandError::InvalidOption)
    }
}

pub fn make_config_request(args: Vec<String>) -> (r: Result<Request, CommandError>)
    ensures
        spec_result(r) == spec_config_request(texts(args@)),
{
    if args.len() == 0 {
        return Err(CommandError::WrongArity);
    }
    let sub = lowercase(args[0].as_str());
    let rest = slice_from_one(&args);
    assert(texts(rest@) =~= texts(args@).drop_first());
    config_request_with_subcommand(sub.as_str(), rest)
}

fn slice_from_one(v: &Vec<String>) -> (r: &[String])
    requires
        v.len() >= 1,
    ensures
        r@ == v@.drop_first(),
{
    let r = &v.as_slice()[1..v.len()];
    assert(r@ =~= v@.drop_first());
    r
}

/// The command that a command name, already in lower case, and its arguments make.
pub fn request_from_parts(command: &str, args: Vec<String>) -> (r: Result<Request, CommandError>)
    ensures
        spec_result(r) == spec_request_from(command@, texts(args@)),
{
    if text_eq(command, "ping") {
        Ok(Request::Ping)
    } else if text_eq(command, "echo") {
        if args.len() == 1 {
            Ok(Request::Echo(args[0].clone()))
        } else {
            Err(CommandError::WrongArity)
        }
    } else if text_eq(command, "set") {
        make_set_request(args)
    } else if text_eq(command, "get") {
        if args.len() == 1 {
            Ok(Request::Get(args[0].clone()))
        } else {
            Err(CommandError::WrongArity)
        }
    } else if text_eq(command, "config") {
        make_config_request(args)
    } else if text_eq(command, "keys") {
        if args.len() == 1 {
            Ok(Request::KEYS(args[0].clone()))
        } else {
            Err(CommandError::WrongArity)
        }
    } else if text_eq(command, "info") {
        Ok(Request::INFO)
    } else if text_eq(command, "replconf") {
        Ok(Request::REPLCONF(args))
    } else if text_eq(command, "psync") {
        Ok(Request::PSYNC(args))
    } else {
        Err(CommandError::UnknownCommand)
    }
}

/// The command name, in lower case, and the arguments of a command frame.
pub fn get_command_and_args(value: RedisValue) -> (r: Result<(String, Vec<String>), CommandError>)
    ensures
        match r {
            Ok((c, a)) => spec_words(value@) matches Ok(words) && c@ == lower_of(words[0]) && texts(
                a@,
            ) == words.drop_first(),
            Err(e) => spec_words(value@) == Err::<Seq<Seq<char>>, CommandError>(e),
        },
{
    let ghost whole = value@;
    match value {
        RedisValue::Array(vals) => {
            let ghost items = whole->Array_0;
            proof {
                crate::parser::lemma_views_of(vals@);
            }
            let mut words: Vec<String> = Vec::new();
            let mut i: usize = 0;
            while i < vals.len()
                invariant
                    i <= vals.len(),
                    whole == Frame::Array(items),
                    whole == value@,
                    items == crate::parser::views_of(vals@),
                    items.len() == vals@.len(),
                    forall|j: int| 0 <= j < vals@.len() ==> #[trigger] items[j] == vals@[j]@,
                    words@.len() == i,
                    forall|j: int| 0 <= j < i ==> #[trigger] items[j] is Bulk,
                    forall|j: int| 0 <= j < i ==> #[trigger] words@[j]@ == items[j]->Bulk_0,
                decreases vals.len() - i,
            {
                match vals[i].get_bulk_string() {
                    Some(s) => {
                        words.push(s);
                    },
                    None => {
                        assert(!(items[i as int] is Bulk));
                        return Err(CommandError::NotBulkString);
                    },
                }
                i = i + 1;
            }
            if words.len() == 0 {
                return Err(CommandError::EmptyCommand);
            }
            let command = lowercase(words[0].as_str());
            let first = words.remove(0);
            proof {
                let ws = items.map_values(|x: Frame| x->Bulk_0);
                assert(texts(words@) =~= ws.drop_first());
            }
            Ok((command, words))
        },
        _ => Err(CommandError::NotArray),
    }
}

/// The command that a frame makes; the command name is read without regard to case.
pub fn get_request(value: RedisValue) -> (r: Result<Request, CommandError>)
    ensures
        spec_result(r) == spec_get_request(value@),
{
    match get_command_and_args(value) {
        Ok((command, args)) => request_from_parts(command.as_str(), args),
        Err(e) => Err(e),
    }
}

/// The texts of a sequence of bulk strings.
pub open spec fn bulk_texts(items: Seq<Frame>) -> Seq<Seq<char>> {
    items.map_values(|f: Frame| f->Bulk_0)
}

/// A reply that lists, once each and in any order, the keys of a set.
pub open spec fn lists_keys(f: Frame, keys: Set<Seq<char>>) -> bool {
    &&& f matches Frame::Array(items)
    &&& forall|i: int| 0 <= i < items.len() ==> #[trigger] items[i] is Bulk
    &&& bulk_texts(items).no_duplicates()
    &&& bulk_texts(items).to_set() == keys
}

/// The text a missing value reads as.
pub open spec fn or_empty(o: Option<Seq<char>>) -> Seq<char> {
    match o {
        Some(v) => v,
        None => Seq::empty(),
    }
}

/// The store after a command at time `now`.
pub open spec fn spec_next_store(s: StoreView, req: RequestView, now: u64) -> StoreView {
    match req {
        RequestView::SetKey(k, v, None) => spec_set(s, k, v),
        RequestView::SetKey(k, v, Some(d)) => spec_set_with_expire(s, k, v, d, now),
        _ => s,
    }
}

/// The reply to a command at time `now`, on a server with configuration `c`. The reply to
/// `KEYS *` lists the live keys in no set order (see `lists_keys`), so it is not given here.
pub open spec fn spec_reply(s: StoreView, c: SystemConfig, req: RequestView, now: u64) -> Frame {
    match req {
        RequestView::Ping => Frame::Simple("PONG"@),
        RequestView::Echo(x) => Frame::Bulk(x),
        RequestView::SetKey(_, _, _) => Frame::Simple("OK"@),
        RequestView::Get(k) => Frame::Bulk(or_empty(spec_get(s, k, now))),
        RequestView::ConfigGet(name) => Frame::Array(
            seq![Frame::Bulk(name), Frame::Bulk(or_empty(spec_config_value(c@, name)))],
        ),
        RequestView::Keys(_) => Frame::Error("ERR only the pattern * is supported"@),
        RequestView::Info => Frame::Bulk(c.replication_config.spec_info()),
        RequestView::ReplConf(_) => Frame::Simple("OK"@),
        RequestView::PSync(_) => Frame::Simple(
            "FULLRESYNC "@ + c.replication_config.id@ + " 0"@,
        ),
    }
}

/// The reply to a command: `spec_reply`, or for `KEYS *` a list of the live keys.
pub open spec fn reply_matches(
    reply: Frame,
    s: StoreView,
    c: SystemConfig,
    req: RequestView,
    now: u64,
) -> bool {
    if req matches RequestView::Keys(p) && p == "*"@ {
        lists_keys(reply, live_keys(s, now))
    } else {
        reply == spec_reply(s, c, req, now)
    }
}

/// The deletion that a command arms: one for a write with a time to live, under the generation
/// that the write takes; none for any other command.
pub open spec fn ticket_matches(t: Option<ExpiryTicket>, s: StoreView, req: RequestView) -> bool {
    match req {
        RequestView::SetKey(k, _, Some(d)) => t matches Some(x) && x@ == (k, s.next_generation, d),
        _ => t is None,
    }
}

/// `CONFIG GET dir` is answered with `dir` and the configured directory, or the empty text when
/// none is configured.
pub proof fn lemma_config_get_dir(s: StoreView, c: SystemConfig, now: u64)
    ensures
        spec_reply(s, c, RequestView::ConfigGet("dir"@), now) == Frame::Array(
            seq![Frame::Bulk("dir"@), Frame::Bulk(or_empty(c@.dir))],
        ),
{
}

/// Two `SET k v` in a row are both answered `+OK`, on the wire.
pub proof fn lemma_set_twice_ok(
    s: StoreView,
    c: SystemConfig,
    k: Seq<char>,
    v: Seq<char>,
    first: u64,
    second: u64,
)
    ensures
        spec_encode(spec_reply(s, c, RequestView::SetKey(k, v, None), first)) == seq![
            43u8,
            79u8,
            75u8,
            13u8,
            10u8,
        ],
        spec_encode(
            spec_reply(
                spec_next_store(s, RequestView::SetKey(k, v, None), first),
                c,
                RequestView::SetKey(k, v, None),
                second,
            ),
        ) == seq![43u8, 79u8, 75u8, 13u8, 10u8],
{
    reveal_strlit("OK");
    is_ascii_chars_encode_utf8("OK"@);
    assert(encode_utf8("OK"@) =~= seq![79u8, 75u8]);
    assert(spec_encode(Frame::Simple("OK"@)) =~= seq![43u8, 79u8, 75u8, 13u8, 10u8]);
}

/// Answers commands against a store, for a server with a given configuration.
pub struct RequestHandler {
    config: SystemConfig,
}

impl RequestHandler {
    pub closed spec fn config(&self) -> SystemConfig {
        self.config
    }

    pub fn new(config: SystemConfig) -> (r: Self)
        ensures
            r.config() == config,
    {
        RequestHandler { config }
    }

    /// Carries out a command at time `now_ms`: the reply, and the deletion that a write with a time
    /// to live arms.
    pub fn handle_request(&self, store: &mut Store, req: Request, now_ms: u64) -> (r: (
        RedisValue,
        Option<ExpiryTicket>,
    ))
        requires
            old(store).wf(),
        ensures
            final(store).wf(),
            final(store)@ == spec_next_store(old(store)@, req@, now_ms),
            ticket_matches(r.1, old(store)@, req@),
            reply_matches(r.0@, old(store)@, self.config(), req@, now_ms),
    {
        match req {
            Request::Ping => (RedisValue::SimpleString("PONG".to_owned()), None),
            Request::Echo(s) => (RedisValue::BulkString(s), None),
            Request::SET(key, value, None) => {
                store.set(key, value);
                (RedisValue::SimpleString("OK".to_owned()), None)
            },
            Request::SET(key, value, Some(expire)) => {
                let ticket = store.set_with_expire(key, value, expire, now_ms);
                (RedisValue::SimpleString("OK".to_owned()), Some(ticket))
            },
            Request::Get(key) => {
                let val = match store.get(&key, now_ms) {
                    Some(v) => v,
                    None => String::new(),
                };
                (RedisValue::BulkString(val), None)
            },
            Request::ConfigGet(key) => {
                let val = match self.config.get_config(&key) {
                    Some(v) => v,
                    None => String::new(),
                };
                let items = vec![RedisValue::BulkString(key), RedisValue::BulkString(val)];
                proof {
                    lemma_views_of(items@);
                    assert(views_of(items@) =~= seq![items@[0]@, items@[1]@]);
                }
                (RedisValue::Array(items), None)
            },
            Request::KEYS(pattern) => {
                if text_eq(pattern.as_str(), "*") {
                    let keys = store.get_matching_keys(pattern, now_ms);
                    let ghost ks = keys@;
                    let reply = keys_reply(keys);
                    assert(bulk_texts(reply@->Array_0) =~= ks.map_values(|k: String| k@));
                    (reply, None)
                } else {
                    (RedisValue::Error("ERR only the pattern * is supported".to_owned()), None)
                }
            },
            Request::INFO => (RedisValue::BulkString(self.config.replication_config.info()), None),
            Request::REPLCONF(_) => (RedisValue::SimpleString("OK".to_owned()), None),
            Request::PSYNC(_) => {
                let text = "FULLRESYNC ".to_owned().concat(
                    self.config.replication_config.id.as_str(),
                ).concat(" 0");
                (RedisValue::SimpleString(text), None)
            },
        }
    }
}

/// An array of bulk strings, one for each key.
fn keys_reply(keys: Vec<String>) -> (r: RedisValue)
    ensures
        r@ matches Frame::Array(items),
        r@->Array_0.len() == keys@.len(),
        forall|i: int| 0 <= i < keys@.len() ==> #[trigger] r@->Array_0[i] == Frame::Bulk(keys@[i]@),
{
    let mut out: Vec<RedisValue> = Vec::new();
    let mut i: usize = 0;
    while i < keys.len()
        invariant
            i <= keys.len(),
            out@.len() == i,
            forall|j: int| 0 <= j < i ==> #[trigger] out@[j]@ == Frame::Bulk(keys@[j]@),
        decreases keys.len() - i,
    {
        out.push(RedisValue::BulkString(keys[i].clone()));
        i = i + 1;
    }
    proof {
        lemma_views_of(out@);
    }
    RedisValue::Array(out)
}

} // verus!
