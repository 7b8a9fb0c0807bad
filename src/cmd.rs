//! Requests: how a frame names a command, how the command runs against the
//! keyspace and the hub, and which commands change the keyspace.
use crate::db::{
    bytes_of, entry_model, hash_of, lemma_store_at, lemma_store_reaped, lemma_store_remove,
    list_of, live_model, reap_model, reaped, set_of, store_model, text_set, texts_of, value_type,
    Db, EntryModel, ValueModel,
};
use crate::glob::glob_matches;
use crate::frame::{
    copy_bytes, decimal_value, lemma_models_index, models, parse_decimal, utf8_string, Frame,
    FrameModel,
};
use vstd::utf8::encode_utf8_decode_utf8;
use crate::pubsub::PubSub;
use vstd::prelude::*;
use vstd::string::{StrSliceExecFns, StringExecFns};
use vstd::utf8::{decode_utf8, encode_utf8, valid_utf8};

verus! {

/// A parsed request.
pub enum Command {
    Ping(Option<Vec<u8>>),
    SetValue { key: String, value: Vec<u8>, expire_secs: Option<u64> },
    Get { key: String },
    Echo { message: Vec<u8> },
    Del { keys: Vec<String> },
    Exists { key: String },
    Type { key: String },
    DbSize,
    FlushDb,
    Keys { pattern: String },
    LPush { key: String, values: Vec<Vec<u8>> },
    RPush { key: String, values: Vec<Vec<u8>> },
    LPop { key: String },
    RPop { key: String },
    LRange { key: String, start: i64, stop: i64 },
    LLen { key: String },
    SAdd { key: String, members: Vec<String> },
    SRem { key: String, members: Vec<String> },
    SMembers { key: String },
    SIsMember { key: String, member: String },
    SCard { key: String },
    HSet { key: String, field: String, value: Vec<u8> },
    HGet { key: String, field: String },
    HGetAll { key: String },
    HDel { key: String, fields: Vec<String> },
    HExists { key: String, field: String },
    HLen { key: String },
    Publish { channel: String, message: Vec<u8> },
    Unknown(String),
}

/// What a command says, independent of how it is held.
pub enum CommandModel {
    Ping(Option<Seq<u8>>),
    SetValue { key: Seq<char>, value: Seq<u8>, expire_secs: Option<u64> },
    Get { key: Seq<char> },
    Echo { message: Seq<u8> },
    Del { keys: Seq<Seq<char>> },
    Exists { key: Seq<char> },
    Type { key: Seq<char> },
    DbSize,
    FlushDb,
    Keys { pattern: Seq<char> },
    LPush { key: Seq<char>, values: Seq<Seq<u8>> },
    RPush { key: Seq<char>, values: Seq<Seq<u8>> },
    LPop { key: Seq<char> },
    RPop { key: Seq<char> },
    LRange { key: Seq<char>, start: i64, stop: i64 },
    LLen { key: Seq<char> },
    SAdd { key: Seq<char>, members: Seq<Seq<char>> },
    SRem { key: Seq<char>, members: Seq<Seq<char>> },
    SMembers { key: Seq<char> },
    SIsMember { key: Seq<char>, member: Seq<char> },
    SCard { key: Seq<char> },
    HSet { key: Seq<char>, field: Seq<char>, value: Seq<u8> },
    HGet { key: Seq<char>, field: Seq<char> },
    HGetAll { key: Seq<char> },
    HDel { key: Seq<char>, fields: Seq<Seq<char>> },
    HExists { key: Seq<char>, field: Seq<char> },
    HLen { key: Seq<char> },
    Publish { channel: Seq<char>, message: Seq<u8> },
    Unknown(Seq<char>),
}

impl View for Command {
    type V = CommandModel;

    open spec fn view(&self) -> CommandModel {
        match self {
            Command::Ping(m) => CommandModel::Ping(
                match m {
                    Some(b) => Some(b@),
                    None => None,
                },
            ),
            Command::SetValue { key, value, expire_secs } => CommandModel::SetValue {
                key: key@,
                value: value@,
                expire_secs: *expire_secs,
            },
            Command::Get { key } => CommandModel::Get { key: key@ },
            Command::Echo { message } => CommandModel::Echo { message: message@ },
            Command::Del { keys } => CommandModel::Del { keys: texts_of(keys@) },
            Command::Exists { key } => CommandModel::Exists { key: key@ },
            Command::Type { key } => CommandModel::Type { key: key@ },
            Command::DbSize => CommandModel::DbSize,
            Command::FlushDb => CommandModel::FlushDb,
            Command::Keys { pattern } => CommandModel::Keys { pattern: pattern@ },
            Command::LPush { key, values } => CommandModel::LPush {
                key: key@,
                values: bytes_of(values@),
            },
            Command::RPush { key, values } => CommandModel::RPush {
                key: key@,
                values: bytes_of(values@),
            },
            Command::LPop { key } => CommandModel::LPop { key: key@ },
            Command::RPop { key } => CommandModel::RPop { key: key@ },
            Command::LRange { key, start, stop } => CommandModel::LRange {
                key: key@,
                start: *start,
                stop: *stop,
            },
            Command::LLen { key } => CommandModel::LLen { key: key@ },
            Command::SAdd { key, members } => CommandModel::SAdd {
                key: key@,
                members: texts_of(members@),
            },
            Command::SRem { key, members } => CommandModel::SRem {
                key: key@,
                members: texts_of(members@),
            },
            Command::SMembers { key } => CommandModel::SMembers { key: key@ },
            Command::SIsMember { key, member } => CommandModel::SIsMember {
                key: key@,
                member: member@,
            },
            Command::SCard { key } => CommandModel::SCard { key: key@ },
            Command::HSet { key, field, value } => CommandModel::HSet {
                key: key@,
                field: field@,
                value: value@,
            },
            Command::HGet { key, field } => CommandModel::HGet { key: key@, field: field@ },
            Command::HGetAll { key } => CommandModel::HGetAll { key: key@ },
            Command::HDel { key, fields } => CommandModel::HDel {
                key: key@,
                fields: texts_of(fields@),
            },
            Command::HExists { key, field } => CommandModel::HExists {
                key: key@,
                field: field@,
            },
            Command::HLen { key } => CommandModel::HLen { key: key@ },
            Command::Publish { channel, message } => CommandModel::Publish {
                channel: channel@,
                message: message@,
            },
            Command::Unknown(name) => CommandModel::Unknown(name@),
        }
    }
}

pub open spec fn bad_request() -> Seq<char> {
    "ERR command must be a non-empty array"@
}

pub open spec fn bad_name() -> Seq<char> {
    "ERR command name must be a string"@
}

pub open spec fn bad_argument() -> Seq<char> {
    "ERR arguments must be strings"@
}

pub open spec fn not_integer() -> Seq<char> {
    "ERR value is not an integer or out of range"@
}

pub open spec fn syntax_error() -> Seq<char> {
    "ERR syntax error"@
}

pub open spec fn syntax_error_near(opt: Seq<char>) -> Seq<char> {
    "ERR syntax error near '"@ + opt + "'"@
}

/// The reply to a command given with the wrong number of arguments.
pub open spec fn arity_error(name: Seq<char>) -> Seq<char> {
    "ERR wrong number of arguments for '"@ + name + "' command"@
}

/// Equal but for the case of ASCII letters in `c`; `k` is an upper-case keyword.
pub open spec fn same_letter(c: char, k: char) -> bool {
    c as u32 == k as u32 || (97 <= c as u32 <= 122 && c as u32 - 32 == k as u32)
}

pub open spec fn names(name: Seq<char>, keyword: Seq<char>) -> bool {
    name.len() == keyword.len() && forall|i: int|
        0 <= i < name.len() ==> same_letter(#[trigger] name[i], keyword[i])
}

/// A frame read as text: bulk bytes that are UTF-8, or a simple string.
pub open spec fn arg_text(f: FrameModel) -> Option<Seq<char>> {
    match f {
        FrameModel::Bulk(b) => if valid_utf8(b) {
            Some(decode_utf8(b))
        } else {
            None
        },
        FrameModel::Simple(s) => Some(s),
        _ => None,
    }
}

/// A frame read as bytes: bulk bytes, or the bytes of a simple string.
pub open spec fn arg_bytes(f: FrameModel) -> Option<Seq<u8>> {
    match f {
        FrameModel::Bulk(b) => Some(b),
        FrameModel::Simple(s) => Some(encode_utf8(s)),
        _ => None,
    }
}

pub open spec fn text_at(items: Seq<FrameModel>, i: int) -> Result<Seq<char>, Seq<char>> {
    match arg_text(items[i]) {
        Some(t) => Ok(t),
        None => Err(bad_argument()),
    }
}

pub open spec fn bytes_at(items: Seq<FrameModel>, i: int) -> Result<Seq<u8>, Seq<char>> {
    match arg_bytes(items[i]) {
        Some(b) => Ok(b),
        None => Err(bad_argument()),
    }
}

pub open spec fn int_at(items: Seq<FrameModel>, i: int) -> Result<i64, Seq<char>> {
    match arg_bytes(items[i]) {
        Some(b) => match decimal_value(b) {
            Some(n) => Ok(n),
            None => Err(not_integer()),
        },
        None => Err(not_integer()),
    }
}

/// The texts of `items` from place `i` on.
pub open spec fn texts_from(items: Seq<FrameModel>, i: int) -> Result<Seq<Seq<char>>, Seq<char>>
    decreases items.len() - i,
{
    if i < 0 || i >= items.len() {
        Ok(seq![])
    } else {
        match arg_text(items[i]) {
            None => Err(bad_argument()),
            Some(t) => match texts_from(items, i + 1) {
                Ok(ts) => Ok(seq![t] + ts),
                Err(e) => Err(e),
            },
        }
    }
}

/// The bytes of `items` from place `i` on.
pub open spec fn bytes_from(items: Seq<FrameModel>, i: int) -> Result<Seq<Seq<u8>>, Seq<char>>
    decreases items.len() - i,
{
    if i < 0 || i >= items.len() {
        Ok(seq![])
    } else {
        match arg_bytes(items[i]) {
            None => Err(bad_argument()),
            Some(b) => match bytes_from(items, i + 1) {
                Ok(bs) => Ok(seq![b] + bs),
                Err(e) => Err(e),
            },
        }
    }
}

/// The options after `SET key value`, from place `i` on; `secs` is what an
/// earlier `EX` gave.
pub open spec fn set_options(items: Seq<FrameModel>, i: int, secs: Option<u64>) -> Result<
    Option<u64>,
    Seq<char>,
>
    decreases items.len() - i,
{
    if i < 0 || i >= items.len() {
        Ok(secs)
    } else {
        match arg_text(items[i]) {
            None => Err(bad_argument()),
            Some(opt) => if names(opt, "EX"@) {
                if i + 1 >= items.len() {
                    Err(syntax_error())
                } else {
                    match int_at(items, i + 1) {
                        Err(e) => Err(e),
                        Ok(n) => if n < 0 {
                            Err(not_integer())
                        } else {
                            set_options(items, i + 2, Some(n as u64))
                        },
                    }
                }
            } else {
                Err(syntax_error_near(opt))
            },
        }
    }
}

/// A command that takes exactly one key.
pub open spec fn key_command(
    items: Seq<FrameModel>,
    lower: Seq<char>,
    make: spec_fn(Seq<char>) -> CommandModel,
) -> Result<CommandModel, Seq<char>> {
    if items.len() != 2 {
        Err(arity_error(lower))
    } else {
        match text_at(items, 1) {
            Ok(k) => Ok(make(k)),
            Err(e) => Err(e),
        }
    }
}

/// A command that takes a key and a second text.
pub open spec fn key_text_command(
    items: Seq<FrameModel>,
    lower: Seq<char>,
    make: spec_fn(Seq<char>, Seq<char>) -> CommandModel,
) -> Result<CommandModel, Seq<char>> {
    if items.len() != 3 {
        Err(arity_error(lower))
    } else {
        match text_at(items, 1) {
            Err(e) => Err(e),
            Ok(k) => match text_at(items, 2) {
                Ok(t) => Ok(make(k, t)),
                Err(e) => Err(e),
            },
        }
    }
}

/// A command that takes a key and one or more texts.
pub open spec fn key_texts_command(
    items: Seq<FrameModel>,
    lower: Seq<char>,
    make: spec_fn(Seq<char>, Seq<Seq<char>>) -> CommandModel,
) -> Result<CommandModel, Seq<char>> {
    if items.len() < 3 {
        Err(arity_error(lower))
    } else {
        match text_at(items, 1) {
            Err(e) => Err(e),
            Ok(k) => match texts_from(items, 2) {
                Ok(ts) => Ok(make(k, ts)),
                Err(e) => Err(e),
            },
        }
    }
}

/// A command that takes a key and one or more byte strings.
pub open spec fn key_values_command(
    items: Seq<FrameModel>,
    lower: Seq<char>,
    make: spec_fn(Seq<char>, Seq<Seq<u8>>) -> CommandModel,
) -> Result<CommandModel, Seq<char>> {
    if items.len() < 3 {
        Err(arity_error(lower))
    } else {
        match text_at(items, 1) {
            Err(e) => Err(e),
            Ok(k) => match bytes_from(items, 2) {
                Ok(bs) => Ok(make(k, bs)),
                Err(e) => Err(e),
            },
        }
    }
}

/// The command that a request frame stands for, or the error to reply with.
pub open spec fn parse_request(f: FrameModel) -> Result<CommandModel, Seq<char>> {
    match f {
        FrameModel::Array(items) => if items.len() == 0 {
            Err(bad_request())
        } else {
            match arg_text(items[0]) {
                None => Err(bad_name()),
                Some(name) => parse_named(name, items),
            }
        },
        _ => Err(bad_request()),
    }
}

pub open spec fn parse_named(name: Seq<char>, items: Seq<FrameModel>) -> Result<
    CommandModel,
    Seq<char>,
> {
    let n = items.len();
    if names(name, "PING"@) {
        if n == 1 {
            Ok(CommandModel::Ping(None))
        } else if n == 2 {
            match bytes_at(items, 1) {
                Ok(b) => Ok(CommandModel::Ping(Some(b))),
                Err(e) => Err(e),
            }
        } else {
            Err(arity_error("ping"@))
        }
    } else if names(name, "ECHO"@) {
        if n != 2 {
            Err(arity_error("echo"@))
        } else {
            match bytes_at(items, 1) {
                Ok(b) => Ok(CommandModel::Echo { message: b }),
                Err(e) => Err(e),
            }
        }
    } else if names(name, "SET"@) {
        if n < 3 {
            Err(arity_error("set"@))
        } else {
            match text_at(items, 1) {
                Err(e) => Err(e),
                Ok(k) => match bytes_at(items, 2) {
                    Err(e) => Err(e),
                    Ok(v) => match set_options(items, 3, None) {
                        Err(e) => Err(e),
                        Ok(secs) => Ok(CommandModel::SetValue { key: k, value: v, expire_secs: secs }),
                    },
                },
            }
        }
    } else if names(name, "GET"@) {
        key_command(items, "get"@, |k| CommandModel::Get { key: k })
    } else if names(name, "DEL"@) {
        if n < 2 {
            Err(arity_error("del"@))
        } else {
            match texts_from(items, 1) {
                Ok(ks) => Ok(CommandModel::Del { keys: ks }),
                Err(e) => Err(e),
            }
        }
    } else if names(name, "EXISTS"@) {
        key_command(items, "exists"@, |k| CommandModel::Exists { key: k })
    } else if names(name, "TYPE"@) {
        key_command(items, "type"@, |k| CommandModel::Type { key: k })
    } else if names(name, "DBSIZE"@) {
        if n != 1 {
            Err(arity_error("dbsize"@))
        } else {
            Ok(CommandModel::DbSize)
        }
    } else if names(name, "FLUSHDB"@) {
        if n != 1 {
            Err(arity_error("flushdb"@))
        } else {
            Ok(CommandModel::FlushDb)
        }
    } else if names(name, "KEYS"@) {
        key_command(items, "keys"@, |k| CommandModel::Keys { pattern: k })
    } else if names(name, "LPUSH"@) {
        key_values_command(items, "lpush"@, |k, vs| CommandModel::LPush { key: k, values: vs })
    } else if names(name, "RPUSH"@) {
        key_values_command(items, "rpush"@, |k, vs| CommandModel::RPush { key: k, values: vs })
    } else if names(name, "LPOP"@) {
        key_command(items, "lpop"@, |k| CommandModel::LPop { key: k })
    } else if names(name, "RPOP"@) {
        key_command(items, "rpop"@, |k| CommandModel::RPop { key: k })
    } else if names(name, "LRANGE"@) {
        if n != 4 {
            Err(arity_error("lrange"@))
        } else {
            match text_at(items, 1) {
                Err(e) => Err(e),
                Ok(k) => match int_at(items, 2) {
                    Err(e) => Err(e),
                    Ok(a) => match int_at(items, 3) {
                        Err(e) => Err(e),
                        Ok(b) => Ok(CommandModel::LRange { key: k, start: a, stop: b }),
                    },
                },
            }
        }
    } else if names(name, "LLEN"@) {
        key_command(items, "llen"@, |k| CommandModel::LLen { key: k })
    } else if names(name, "SADD"@) {
        key_texts_command(items, "sadd"@, |k, ms| CommandModel::SAdd { key: k, members: ms })
    } else if names(name, "SREM"@) {
        key_texts_command(items, "srem"@, |k, ms| CommandModel::SRem { key: k, members: ms })
    } else if names(name, "SMEMBERS"@) {
        key_command(items, "smembers"@, |k| CommandModel::SMembers { key: k })
    } else if names(name, "SISMEMBER"@) {
        key_text_command(
            items,
            "sismember"@,
            |k, m| CommandModel::SIsMember { key: k, member: m },
        )
    } else if names(name, "SCARD"@) {
        key_command(items, "scard"@, |k| CommandModel::SCard { key: k })
    } else if names(name, "HSET"@) {
        if n != 4 {
            Err(arity_error("hset"@))
        } else {
            match text_at(items, 1) {
                Err(e) => Err(e),
                Ok(k) => match text_at(items, 2) {
                    Err(e) => Err(e),
                    Ok(f) => match bytes_at(items, 3) {
                        Err(e) => Err(e),
                        Ok(v) => Ok(CommandModel::HSet { key: k, field: f, value: v }),
                    },
                },
            }
        }
    } else if names(name, "HGET"@) {
        key_text_command(items, "hget"@, |k, f| CommandModel::HGet { key: k, field: f })
    } else if names(name, "HGETALL"@) {
        key_command(items, "hgetall"@, |k| CommandModel::HGetAll { key: k })
    } else if names(name, "HDEL"@) {
        key_texts_command(items, "hdel"@, |k, fs| CommandModel::HDel { key: k, fields: fs })
    } else if names(name, "HEXISTS"@) {
        key_text_command(items, "hexists"@, |k, f| CommandModel::HExists { key: k, field: f })
    } else if names(name, "HLEN"@) {
        key_command(items, "hlen"@, |k| CommandModel::HLen { key: k })
    } else if names(name, "PUBLISH"@) {
        if n != 3 {
            Err(arity_error("publish"@))
        } else {
            match text_at(items, 1) {
                Err(e) => Err(e),
                Ok(c) => match bytes_at(items, 2) {
                    Err(e) => Err(e),
                    Ok(m) => Ok(CommandModel::Publish { channel: c, message: m }),
                },
            }
        }
    } else {
        Ok(CommandModel::Unknown(name))
    }
}

/// The characters of `s`, one per place.
pub fn chars_of(s: &str) -> (r: Vec<char>)
    ensures
        r@ == s@,
{
    let n = s.unicode_len();
    let mut out: Vec<char> = Vec::new();
    let mut i: usize = 0;
    while i < n
        invariant
            n == s@.len(),
            i <= n,
            out@ == s@.subrange(0, i as int),
        decreases n - i,
    {
        out.push(s.get_char(i));
        i = i + 1;
        assert(out@ =~= s@.subrange(0, i as int));
    }
    assert(out@ =~= s@);
    out
}

/// An owned copy of a text.
fn owned(s: &str) -> (r: String)
    ensures
        r@ == s@,
{
    s.to_string()
}

fn arity_message(lower: &str) -> (r: String)
    ensures
        r@ == arity_error(lower@),
{
    let mut m = owned("ERR wrong number of arguments for '");
    m.append(lower);
    m.append("' command");
    m
}

fn syntax_message_near(opt: &str) -> (r: String)
    ensures
        r@ == syntax_error_near(opt@),
{
    let mut m = owned("ERR syntax error near '");
    m.append(opt);
    m.append("'");
    m
}

/// Whether `name` spells the upper-case `keyword`, in any case.
fn keyword_is(name: &Vec<char>, keyword: &str) -> (r: bool)
    ensures
        r == names(name@, keyword@),
{
    let n = keyword.unicode_len();
    if name.len() != n {
        return false;
    }
    let mut i: usize = 0;
    while i < n
        invariant
            n == keyword@.len(),
            name@.len() == n,
            i <= n,
            forall|j: int| 0 <= j < i ==> same_letter(#[trigger] name@[j], keyword@[j]),
        decreases n - i,
    {
        let c = name[i] as u32;
        let k = keyword.get_char(i) as u32;
        if !(c == k || (97 <= c && c <= 122 && c - 32 == k)) {
            return false;
        }
        i = i + 1;
    }
    true
}

fn text_arg(f: &Frame) -> (r: Result<String, String>)
    ensures
        match arg_text(f@) {
            Some(t) => r matches Ok(s) && s@ == t,
            None => r matches Err(e) && e@ == bad_argument(),
        },
{
    match f {
        Frame::Bulk(b) => match utf8_string(copy_bytes(b.as_slice())) {
            Some(s) => Ok(s),
            None => Err(owned("ERR arguments must be strings")),
        },
        Frame::Simple(s) => Ok(s.clone()),
        _ => Err(owned("ERR arguments must be strings")),
    }
}

fn bytes_arg(f: &Frame) -> (r: Result<Vec<u8>, String>)
    ensures
        match arg_bytes(f@) {
            Some(b) => r matches Ok(v) && v@ == b,
            None => r matches Err(e) && e@ == bad_argument(),
        },
{
    match f {
        Frame::Bulk(b) => Ok(copy_bytes(b.as_slice())),
        Frame::Simple(s) => Ok(copy_bytes(s.as_str().as_bytes())),
        _ => Err(owned("ERR arguments must be strings")),
    }
}

fn int_arg(f: &Frame) -> (r: Result<i64, String>)
    ensures
        match arg_bytes(f@) {
            Some(b) => match decimal_value(b) {
                Some(n) => r == Ok::<i64, String>(n),
                None => r matches Err(e) && e@ == not_integer(),
            },
            None => r matches Err(e) && e@ == not_integer(),
        },
{
    match bytes_arg(f) {
        Ok(b) => match parse_decimal(b.as_slice()) {
            Some(n) => Ok(n),
            None => Err(owned("ERR value is not an integer or out of range")),
        },
        Err(_) => Err(owned("ERR value is not an integer or out of range")),
    }
}

pub open spec fn texts_after(acc: Seq<Seq<char>>, r: Result<Seq<Seq<char>>, Seq<char>>) -> Result<
    Seq<Seq<char>>,
    Seq<char>,
> {
    match r {
        Ok(ts) => Ok(acc + ts),
        Err(e) => Err(e),
    }
}

pub open spec fn bytes_after(acc: Seq<Seq<u8>>, r: Result<Seq<Seq<u8>>, Seq<char>>) -> Result<
    Seq<Seq<u8>>,
    Seq<char>,
> {
    match r {
        Ok(bs) => Ok(acc + bs),
        Err(e) => Err(e),
    }
}

/// The texts of `items` from place `start` on.
fn texts_arg(items: &Vec<Frame>, start: usize) -> (r: Result<Vec<String>, String>)
    requires
        start <= items@.len(),
    ensures
        match texts_from(models(items@), start as int) {
            Ok(ts) => r matches Ok(v) && texts_of(v@) == ts,
            Err(e) => r matches Err(m) && m@ == e,
        },
{
    let ghost ms = models(items@);
    let mut out: Vec<String> = Vec::new();
    let mut i = start;
    proof {
        lemma_models_index(items@, 0);
        match texts_from(ms, start as int) {
            Ok(ts) => assert(texts_of(out@) + ts =~= ts),
            Err(_) => {},
        }
    }
    while i < items.len()
        invariant
            start <= i <= items@.len(),
            ms == models(items@),
            ms.len() == items@.len(),
            texts_from(ms, start as int) == texts_after(texts_of(out@), texts_from(ms, i as int)),
        decreases items@.len() - i,
    {
        proof {
            lemma_models_index(items@, i as int);
        }
        let t = match text_arg(&items[i]) {
            Ok(t) => t,
            Err(e) => return Err(e),
        };
        let ghost before = out@;
        let ghost tv = t@;
        out.push(t);
        proof {
            assert(texts_of(out@) =~= texts_of(before).push(tv));
            match texts_from(ms, i + 1) {
                Ok(ts) => {
                    assert(texts_of(before) + (seq![tv] + ts) =~= texts_of(before).push(tv) + ts);
                },
                Err(_) => {},
            }
        }
        i = i + 1;
    }
    proof {
        assert(texts_of(out@) + seq![] =~= texts_of(out@));
    }
    Ok(out)
}

/// The bytes of `items` from place `start` on.
fn bytes_arg_list(items: &Vec<Frame>, start: usize) -> (r: Result<Vec<Vec<u8>>, String>)
    requires
        start <= items@.len(),
    ensures
        match bytes_from(models(items@), start as int) {
            Ok(bs) => r matches Ok(v) && bytes_of(v@) == bs,
            Err(e) => r matches Err(m) && m@ == e,
        },
{
    let ghost ms = models(items@);
    let mut out: Vec<Vec<u8>> = Vec::new();
    let mut i = start;
    proof {
        lemma_models_index(items@, 0);
        match bytes_from(ms, start as int) {
            Ok(bs) => assert(bytes_of(out@) + bs =~= bs),
            Err(_) => {},
        }
    }
    while i < items.len()
        invariant
            start <= i <= items@.len(),
            ms == models(items@),
            ms.len() == items@.len(),
            bytes_from(ms, start as int) == bytes_after(bytes_of(out@), bytes_from(ms, i as int)),
        decreases items@.len() - i,
    {
        proof {
            lemma_models_index(items@, i as int);
        }
        let b = match bytes_arg(&items[i]) {
            Ok(b) => b,
            Err(e) => return Err(e),
        };
        let ghost before = out@;
        let ghost bv = b@;
        out.push(b);
        proof {
            assert(bytes_of(out@) =~= bytes_of(before).push(bv));
            match bytes_from(ms, i + 1) {
                Ok(bs) => {
                    assert(bytes_of(before) + (seq![bv] + bs) =~= bytes_of(before).push(bv) + bs);
                },
                Err(_) => {},
            }
        }
        i = i + 1;
    }
    proof {
        assert(bytes_of(out@) + seq![] =~= bytes_of(out@));
    }
    Ok(out)
}

/// The `EX` options after `SET key value`.
fn set_options_arg(items: &Vec<Frame>) -> (r: Result<Option<u64>, String>)
    requires
        items@.len() >= 3,
    ensures
        match set_options(models(items@), 3, None) {
            Ok(secs) => r == Ok::<Option<u64>, String>(secs),
            Err(e) => r matches Err(m) && m@ == e,
        },
{
    let ghost ms = models(items@);
    proof {
        lemma_models_index(items@, 0);
    }
    let mut secs: Option<u64> = None;
    let mut i: usize = 3;
    while i < items.len()
        invariant
            3 <= i <= items@.len(),
            ms == models(items@),
            ms.len() == items@.len(),
            set_options(ms, 3, None) == set_options(ms, i as int, secs),
        decreases items@.len() - i,
    {
        proof {
            lemma_models_index(items@, i as int);
        }
        let opt = match text_arg(&items[i]) {
            Ok(t) => t,
            Err(e) => return Err(e),
        };
        let opt_chars = chars_of(opt.as_str());
        if !keyword_is(&opt_chars, "EX") {
            return Err(syntax_message_near(opt.as_str()));
        }
        if i + 1 >= items.len() {
            return Err(owned("ERR syntax error"));
        }
        proof {
            lemma_models_index(items@, i + 1);
        }
        let n = match int_arg(&items[i + 1]) {
            Ok(n) => n,
            Err(e) => return Err(e),
        };
        if n < 0 {
            return Err(owned("ERR value is not an integer or out of range"));
        }
        secs = Some(n as u64);
        i = i + 2;
    }
    Ok(secs)
}

/// The one key of a command of two items, or the reply for a bad request.
fn key_arg(items: &Vec<Frame>, lower: &str) -> (r: Result<String, String>)
    ensures
        items@.len() != 2 ==> (r matches Err(m) && m@ == arity_error(lower@)),
        items@.len() == 2 ==> match arg_text(models(items@)[1]) {
            Some(t) => r matches Ok(s) && s@ == t,
            None => r matches Err(e) && e@ == bad_argument(),
        },
{
    if items.len() != 2 {
        return Err(arity_message(lower));
    }
    proof {
        lemma_models_index(items@, 1);
    }
    text_arg(&items[1])
}

/// The key and second text of a command of three items.
fn key_text_args(items: &Vec<Frame>, lower: &str) -> (r: Result<(String, String), String>)
    ensures
        items@.len() != 3 ==> (r matches Err(m) && m@ == arity_error(lower@)),
        items@.len() == 3 ==> match text_at(models(items@), 1) {
            Err(e) => r matches Err(m) && m@ == e,
            Ok(k) => match text_at(models(items@), 2) {
                Ok(t) => r matches Ok(p) && p.0@ == k && p.1@ == t,
                Err(e) => r matches Err(m) && m@ == e,
            },
        },
{
    if items.len() != 3 {
        return Err(arity_message(lower));
    }
    proof {
        lemma_models_index(items@, 1);
        lemma_models_index(items@, 2);
    }
    let k = match text_arg(&items[1]) {
        Ok(k) => k,
        Err(e) => return Err(e),
    };
    match text_arg(&items[2]) {
        Ok(t) => Ok((k, t)),
        Err(e) => Err(e),
    }
}

/// The key and following texts of a command of three or more items.
fn key_texts_args(items: &Vec<Frame>, lower: &str) -> (r: Result<(String, Vec<String>), String>)
    ensures
        items@.len() < 3 ==> (r matches Err(m) && m@ == arity_error(lower@)),
        items@.len() >= 3 ==> match text_at(models(items@), 1) {
            Err(e) => r matches Err(m) && m@ == e,
            Ok(k) => match texts_from(models(items@), 2) {
                Ok(ts) => r matches Ok(p) && p.0@ == k && texts_of(p.1@) == ts,
                Err(e) => r matches Err(m) && m@ == e,
            },
        },
{
    if items.len() < 3 {
        return Err(arity_message(lower));
    }
    proof {
        lemma_models_index(items@, 1);
    }
    let k = match text_arg(&items[1]) {
        Ok(k) => k,
        Err(e) => return Err(e),
    };
    match texts_arg(items, 2) {
        Ok(ts) => Ok((k, ts)),
        Err(e) => Err(e),
    }
}

/// The key and following byte strings of a command of three or more items.
fn key_values_args(items: &Vec<Frame>, lower: &str) -> (r: Result<(String, Vec<Vec<u8>>), String>)
    ensures
        items@.len() < 3 ==> (r matches Err(m) && m@ == arity_error(lower@)),
        items@.len() >= 3 ==> match text_at(models(items@), 1) {
            Err(e) => r matches Err(m) && m@ == e,
            Ok(k) => match bytes_from(models(items@), 2) {
                Ok(bs) => r matches Ok(p) && p.0@ == k && bytes_of(p.1@) == bs,
                Err(e) => r matches Err(m) && m@ == e,
            },
        },
{
    if items.len() < 3 {
        return Err(arity_message(lower));
    }
    proof {
        lemma_models_index(items@, 1);
    }
    let k = match text_arg(&items[1]) {
        Ok(k) => k,
        Err(e) => return Err(e),
    };
    match bytes_arg_list(items, 2) {
        Ok(bs) => Ok((k, bs)),
        Err(e) => Err(e),
    }
}

impl Command {
    /// Reads a request frame: an array whose first item names the command, in
    /// any case, and whose other items are its arguments.
    pub fn from_frame(frame: Frame) -> (r: Result<Command, String>)
        ensures
            match parse_request(frame@) {
                Ok(c) => r matches Ok(x) && x@ == c,
                Err(e) => r matches Err(m) && m@ == e,
            },
    {
        let ghost fm = frame@;
        let items = match frame {
            Frame::Array(items) => items,
            _ => return Err(owned("ERR command must be a non-empty array")),
        };
        assert(fm == FrameModel::Array(models(items@)));
        if items.len() == 0 {
            return Err(owned("ERR command must be a non-empty array"));
        }
        proof {
            lemma_models_index(items@, 0);
            lemma_models_index(items@, 1);
            lemma_models_index(items@, 2);
            lemma_models_index(items@, 3);
        }
        let name_text = match text_arg(&items[0]) {
            Ok(t) => t,
            Err(_) => return Err(owned("ERR command name must be a string")),
        };
        let name = chars_of(name_text.as_str());
        let n = items.len();
        if keyword_is(&name, "PING") {
            if n == 1 {
                Ok(Command::Ping(None))
            } else if n == 2 {
                match bytes_arg(&items[1]) {
                    Ok(b) => Ok(Command::Ping(Some(b))),
                    Err(e) => Err(e),
                }
            } else {
                Err(arity_message("ping"))
            }
        } else if keyword_is(&name, "ECHO") {
            if n != 2 {
                Err(arity_message("echo"))
            } else {
                match bytes_arg(&items[1]) {
                    Ok(b) => Ok(Command::Echo { message: b }),
                    Err(e) => Err(e),
                }
            }
        } else if keyword_is(&name, "SET") {
            if n < 3 {
                return Err(arity_message("set"));
            }
            let key = match text_arg(&items[1]) {
                Ok(k) => k,
                Err(e) => return Err(e),
            };
            let value = match bytes_arg(&items[2]) {
                Ok(v) => v,
                Err(e) => return Err(e),
            };
            match set_options_arg(&items) {
                Ok(expire_secs) => Ok(Command::SetValue { key, value, expire_secs }),
                Err(e) => Err(e),
            }
        } else if keyword_is(&name, "GET") {
            match key_arg(&items, "get") {
                Ok(key) => Ok(Command::Get { key }),
                Err(e) => Err(e),
            }
        } else if keyword_is(&name, "DEL") {
            if n < 2 {
                return Err(arity_message("del"));
            }
            match texts_arg(&items, 1) {
                Ok(keys) => Ok(Command::Del { keys }),
                Err(e) => Err(e),
            }
        } else if keyword_is(&name, "EXISTS") {
            match key_arg(&items, "exists") {
                Ok(key) => Ok(Command::Exists { key }),
                Err(e) => Err(e),
            }
        } else if keyword_is(&name, "TYPE") {
            match key_arg(&items, "type") {
                Ok(key) => Ok(Command::Type { key }),
                Err(e) => Err(e),
            }
        } else if keyword_is(&name, "DBSIZE") {
            if n != 1 {
                Err(arity_message("dbsize"))
            } else {
                Ok(Command::DbSize)
            }
        } else if keyword_is(&name, "FLUSHDB") {
            if n != 1 {
                Err(arity_message("flushdb"))
            } else {
                Ok(Command::FlushDb)
            }
        } else if keyword_is(&name, "KEYS") {
            match key_arg(&items, "keys") {
                Ok(pattern) => Ok(Command::Keys { pattern }),
                Err(e) => Err(e),
            }
        } else if keyword_is(&name, "LPUSH") {
            match key_values_args(&items, "lpush") {
                Ok((key, values)) => Ok(Command::LPush { key, values }),
                Err(e) => Err(e),
            }
        } else if keyword_is(&name, "RPUSH") {
            match key_values_args(&items, "rpush") {
                Ok((key, values)) => Ok(Command::RPush { key, values }),
                Err(e) => Err(e),
            }
        } else if keyword_is(&name, "LPOP") {
            match key_arg(&items, "lpop") {
                Ok(key) => Ok(Command::LPop { key }),
                Err(e) => Err(e),
            }
        } else if keyword_is(&name, "RPOP") {
            match key_arg(&items, "rpop") {
                Ok(key) => Ok(Command::RPop { key }),
                Err(e) => Err(e),
            }
        } else if keyword_is(&name, "LRANGE") {
            if n != 4 {
                return Err(arity_message("lrange"));
            }
            let key = match text_arg(&items[1]) {
                Ok(k) => k,
                Err(e) => return Err(e),
            };
            let start = match int_arg(&items[2]) {
                Ok(v) => v,
                Err(e) => return Err(e),
            };
            let stop = match int_arg(&items[3]) {
                Ok(v) => v,
                Err(e) => return Err(e),
            };
            Ok(Command::LRange { key, start, stop })
        } else if keyword_is(&name, "LLEN") {
            match key_arg(&items, "llen") {
                Ok(key) => Ok(Command::LLen { key }),
                Err(e) => Err(e),
            }
        } else if keyword_is(&name, "SADD") {
            match key_texts_args(&items, "sadd") {
                Ok((key, members)) => Ok(Command::SAdd { key, members }),
                Err(e) => Err(e),
            }
        } else if keyword_is(&name, "SREM") {
            match key_texts_args(&items, "srem") {
                Ok((key, members)) => Ok(Command::SRem { key, members }),
                Err(e) => Err(e),
            }
        } else if keyword_is(&name, "SMEMBERS") {
            match key_arg(&items, "smembers") {
                Ok(key) => Ok(Command::SMembers { key }),
                Err(e) => Err(e),
            }
        } else if keyword_is(&name, "SISMEMBER") {
            match key_text_args(&items, "sismember") {
                Ok((key, member)) => Ok(Command::SIsMember { key, member }),
                Err(e) => Err(e),
            }
        } else if keyword_is(&name, "SCARD") {
            match key_arg(&items, "scard") {
                Ok(key) => Ok(Command::SCard { key }),
                Err(e) => Err(e),
            }
        } else if keyword_is(&name, "HSET") {
            if n != 4 {
                return Err(arity_message("hset"));
            }
            let key = match text_arg(&items[1]) {
                Ok(k) => k,
                Err(e) => return Err(e),
            };
            let field = match text_arg(&items[2]) {
                Ok(f) => f,
                Err(e) => return Err(e),
            };
            match bytes_arg(&items[3]) {
                Ok(value) => Ok(Command::HSet { key, field, value }),
                Err(e) => Err(e),
            }
        } else if keyword_is(&name, "HGET") {
            match key_text_args(&items, "hget") {
                Ok((key, field)) => Ok(Command::HGet { key, field }),
                Err(e) => Err(e),
            }
        } else if keyword_is(&name, "HGETALL") {
            match key_arg(&items, "hgetall") {
                Ok(key) => Ok(Command::HGetAll { key }),
                Err(e) => Err(e),
            }
        } else if keyword_is(&name, "HDEL") {
            match key_texts_args(&items, "hdel") {
                Ok((key, fields)) => Ok(Command::HDel { key, fields }),
                Err(e) => Err(e),
            }
        } else if keyword_is(&name, "HEXISTS") {
            match key_text_args(&items, "hexists") {
                Ok((key, field)) => Ok(Command::HExists { key, field }),
                Err(e) => Err(e),
            }
        } else if keyword_is(&name, "HLEN") {
            match key_arg(&items, "hlen") {
                Ok(key) => Ok(Command::HLen { key }),
                Err(e) => Err(e),
            }
        } else if keyword_is(&name, "PUBLISH") {
            if n != 3 {
                return Err(arity_message("publish"));
            }
            let channel = match text_arg(&items[1]) {
                Ok(c) => c,
                Err(e) => return Err(e),
            };
            match bytes_arg(&items[2]) {
                Ok(message) => Ok(Command::Publish { channel, message }),
                Err(e) => Err(e),
            }
        } else {
            Ok(Command::Unknown(name_text))
        }
    }
}

/// When a key set with `EX secs` at `now` (milliseconds) goes; the largest
/// time when that is past the clock's range.
pub open spec fn deadline(now: u64, secs: Option<u64>) -> Option<u64> {
    match secs {
        Some(t) => Some(
            if now + t * 1000 > u64::MAX {
                u64::MAX
            } else {
                (now + t * 1000) as u64
            },
        ),
        None => None,
    }
}

/// The store after `DEL` of the first `i` keys.
pub open spec fn dels(s: Map<Seq<char>, EntryModel>, keys: Seq<Seq<char>>, i: nat) -> Map<
    Seq<char>,
    EntryModel,
>
    decreases i,
{
    if i == 0 || i > keys.len() {
        s
    } else {
        dels(s, keys, (i - 1) as nat).remove(keys[i - 1])
    }
}

/// How many of the first `i` keys of a `DEL` found a live record.
pub open spec fn del_count(s: Map<Seq<char>, EntryModel>, keys: Seq<Seq<char>>, i: nat, now: u64) -> nat
    decreases i,
{
    if i == 0 || i > keys.len() {
        0
    } else {
        let t = dels(s, keys, (i - 1) as nat);
        del_count(s, keys, (i - 1) as nat, now) + if t.contains_key(keys[i - 1]) && live_model(
            t[keys[i - 1]],
            now,
        ) {
            1nat
        } else {
            0nat
        }
    }
}

/// The store after a push of `vs` onto the head (`front`) or tail of the list at `k`.
pub open spec fn pushed(
    s: Map<Seq<char>, EntryModel>,
    k: Seq<char>,
    vs: Seq<Seq<u8>>,
    now: u64,
    front: bool,
) -> Map<Seq<char>, EntryModel> {
    let t = reap_model(s, k, now);
    if t.contains_key(k) {
        match t[k].value {
            ValueModel::List(l) => t.insert(
                k,
                EntryModel {
                    value: ValueModel::List(
                        if front {
                            vs.reverse() + l
                        } else {
                            l + vs
                        },
                    ),
                    expires_at: t[k].expires_at,
                },
            ),
            _ => t,
        }
    } else if vs.len() == 0 {
        t
    } else {
        t.insert(
            k,
            EntryModel {
                value: ValueModel::List(
                    if front {
                        vs.reverse()
                    } else {
                        vs
                    },
                ),
                expires_at: None,
            },
        )
    }
}

/// The store after a pop from the head (`front`) or tail of the list at `k`.
pub open spec fn popped(s: Map<Seq<char>, EntryModel>, k: Seq<char>, now: u64, front: bool) -> Map<
    Seq<char>,
    EntryModel,
> {
    let t = reap_model(s, k, now);
    if t.contains_key(k) {
        match t[k].value {
            ValueModel::List(l) => if l.len() == 1 {
                t.remove(k)
            } else {
                t.insert(
                    k,
                    EntryModel {
                        value: ValueModel::List(
                            if front {
                                l.subrange(1, l.len() as int)
                            } else {
                                l.drop_last()
                            },
                        ),
                        expires_at: t[k].expires_at,
                    },
                )
            },
            _ => t,
        }
    } else {
        t
    }
}

pub open spec fn set_added(
    s: Map<Seq<char>, EntryModel>,
    k: Seq<char>,
    ms: Seq<Seq<char>>,
    now: u64,
) -> Map<Seq<char>, EntryModel> {
    let t = reap_model(s, k, now);
    if t.contains_key(k) {
        match t[k].value {
            ValueModel::Members(old) => t.insert(
                k,
                EntryModel {
                    value: ValueModel::Members(old + ms.to_set()),
                    expires_at: t[k].expires_at,
                },
            ),
            _ => t,
        }
    } else if ms.len() == 0 {
        t
    } else {
        t.insert(k, EntryModel { value: ValueModel::Members(ms.to_set()), expires_at: None })
    }
}

pub open spec fn set_removed(
    s: Map<Seq<char>, EntryModel>,
    k: Seq<char>,
    ms: Seq<Seq<char>>,
    now: u64,
) -> Map<Seq<char>, EntryModel> {
    let t = reap_model(s, k, now);
    if t.contains_key(k) {
        match t[k].value {
            ValueModel::Members(old) => if (old - ms.to_set()).len() == 0 {
                t.remove(k)
            } else {
                t.insert(
                    k,
                    EntryModel {
                        value: ValueModel::Members(old - ms.to_set()),
                        expires_at: t[k].expires_at,
                    },
                )
            },
            _ => t,
        }
    } else {
        t
    }
}

pub open spec fn hash_set(
    s: Map<Seq<char>, EntryModel>,
    k: Seq<char>,
    f: Seq<char>,
    v: Seq<u8>,
    now: u64,
) -> Map<Seq<char>, EntryModel> {
    let t = reap_model(s, k, now);
    if t.contains_key(k) {
        match t[k].value {
            ValueModel::Hash(h) => t.insert(
                k,
                EntryModel { value: ValueModel::Hash(h.insert(f, v)), expires_at: t[k].expires_at },
            ),
            _ => t,
        }
    } else {
        t.insert(
            k,
            EntryModel {
                value: ValueModel::Hash(Map::<Seq<char>, Seq<u8>>::empty().insert(f, v)),
                expires_at: None,
            },
        )
    }
}

pub open spec fn hash_removed(
    s: Map<Seq<char>, EntryModel>,
    k: Seq<char>,
    fs: Seq<Seq<char>>,
    now: u64,
) -> Map<Seq<char>, EntryModel> {
    let t = reap_model(s, k, now);
    if t.contains_key(k) {
        match t[k].value {
            ValueModel::Hash(h) => if h.remove_keys(fs.to_set()).len() == 0 {
                t.remove(k)
            } else {
                t.insert(
                    k,
                    EntryModel {
                        value: ValueModel::Hash(h.remove_keys(fs.to_set())),
                        expires_at: t[k].expires_at,
                    },
                )
            },
            _ => t,
        }
    } else {
        t
    }
}

/// The store after `c` runs on `s` at time `now`.
pub open spec fn apply(c: CommandModel, s: Map<Seq<char>, EntryModel>, now: u64) -> Map<
    Seq<char>,
    EntryModel,
> {
    match c {
        CommandModel::SetValue { key, value, expire_secs } => s.insert(
            key,
            EntryModel { value: ValueModel::Str(value), expires_at: deadline(now, expire_secs) },
        ),
        CommandModel::Del { keys } => dels(s, keys, keys.len()),
        CommandModel::FlushDb => Map::empty(),
        CommandModel::LPush { key, values } => pushed(s, key, values, now, true),
        CommandModel::RPush { key, values } => pushed(s, key, values, now, false),
        CommandModel::LPop { key } => popped(s, key, now, true),
        CommandModel::RPop { key } => popped(s, key, now, false),
        CommandModel::SAdd { key, members } => set_added(s, key, members, now),
        CommandModel::SRem { key, members } => set_removed(s, key, members, now),
        CommandModel::HSet { key, field, value } => hash_set(s, key, field, value, now),
        CommandModel::HDel { key, fields } => hash_removed(s, key, fields, now),
        CommandModel::Get { key } => reap_model(s, key, now),
        CommandModel::Exists { key } => reap_model(s, key, now),
        CommandModel::Type { key } => reap_model(s, key, now),
        CommandModel::LRange { key, .. } => reap_model(s, key, now),
        CommandModel::LLen { key } => reap_model(s, key, now),
        CommandModel::SMembers { key } => reap_model(s, key, now),
        CommandModel::SIsMember { key, .. } => reap_model(s, key, now),
        CommandModel::SCard { key } => reap_model(s, key, now),
        CommandModel::HGet { key, .. } => reap_model(s, key, now),
        CommandModel::HGetAll { key } => reap_model(s, key, now),
        CommandModel::HExists { key, .. } => reap_model(s, key, now),
        CommandModel::HLen { key } => reap_model(s, key, now),
        _ => s,
    }
}

/// Whether `c` can change the keyspace; these are the commands the log keeps.
pub open spec fn is_write(c: CommandModel) -> bool {
    match c {
        CommandModel::SetValue { .. } | CommandModel::Del { .. } | CommandModel::FlushDb
        | CommandModel::LPush { .. } | CommandModel::RPush { .. } | CommandModel::LPop { .. }
        | CommandModel::RPop { .. } | CommandModel::SAdd { .. } | CommandModel::SRem { .. }
        | CommandModel::HSet { .. } | CommandModel::HDel { .. } => true,
        _ => false,
    }
}

/// An integer reply for a count.
pub open spec fn count_reply(n: int) -> FrameModel {
    FrameModel::Integer(
        if n > i64::MAX {
            i64::MAX
        } else {
            n as i64
        },
    )
}

pub open spec fn bulk_texts(ks: Seq<Seq<char>>) -> Seq<FrameModel> {
    Seq::new(ks.len(), |i: int| FrameModel::Bulk(encode_utf8(ks[i])))
}

pub open spec fn bulk_all(bs: Seq<Seq<u8>>) -> Seq<FrameModel> {
    Seq::new(bs.len(), |i: int| FrameModel::Bulk(bs[i]))
}

/// Fields and their values, one after the other.
pub open spec fn bulk_pairs(fs: Seq<Seq<char>>, h: Map<Seq<char>, Seq<u8>>) -> Seq<FrameModel> {
    Seq::new(
        2 * fs.len(),
        |i: int|
            if i % 2 == 0 {
                FrameModel::Bulk(encode_utf8(fs[i / 2]))
            } else {
                FrameModel::Bulk(h[fs[i / 2]])
            },
    )
}

/// An array of the texts of `set`, each once, in some order.
pub open spec fn lists_texts(r: FrameModel, set: Set<Seq<char>>) -> bool {
    exists|ks: Seq<Seq<char>>|
        ks.no_duplicates() && ks.to_set() == set && r == FrameModel::Array(
            #[trigger] bulk_texts(ks),
        )
}

/// An array of the fields of `h` each followed by its value, in some order.
pub open spec fn lists_pairs(r: FrameModel, h: Map<Seq<char>, Seq<u8>>) -> bool {
    exists|fs: Seq<Seq<char>>|
        fs.no_duplicates() && fs.to_set() == h.dom() && r == FrameModel::Array(
            #[trigger] bulk_pairs(fs, h),
        )
}

pub open spec fn bool_reply(b: bool) -> FrameModel {
    FrameModel::Integer(
        if b {
            1
        } else {
            0
        },
    )
}

/// Whether `r` is the reply to `c` run on `s` at `now`, with `channels` the
/// channels of the hub.
pub open spec fn answers(
    c: CommandModel,
    s: Map<Seq<char>, EntryModel>,
    channels: Set<Seq<char>>,
    now: u64,
    r: FrameModel,
) -> bool {
    match c {
        CommandModel::Ping(None) => r == FrameModel::Simple("PONG"@),
        CommandModel::Ping(Some(m)) => r == FrameModel::Bulk(m),
        CommandModel::Echo { message } => r == FrameModel::Bulk(message),
        CommandModel::SetValue { .. } => r == FrameModel::Simple("OK"@),
        CommandModel::FlushDb => r == FrameModel::Simple("OK"@),
        CommandModel::Get { key } => {
            let t = reap_model(s, key, now);
            r == if t.contains_key(key) && t[key].value is Str {
                FrameModel::Bulk(t[key].value->Str_0)
            } else {
                FrameModel::Null
            }
        },
        CommandModel::Del { keys } => r == count_reply(del_count(s, keys, keys.len(), now) as int),
        CommandModel::Exists { key } => r == bool_reply(
            s.contains_key(key) && live_model(s[key], now),
        ),
        CommandModel::Type { key } => {
            let t = reap_model(s, key, now);
            r == FrameModel::Simple(
                if t.contains_key(key) {
                    match t[key].value {
                        ValueModel::Str(_) => "string"@,
                        ValueModel::List(_) => "list"@,
                        ValueModel::Members(_) => "set"@,
                        ValueModel::Hash(_) => "hash"@,
                    }
                } else {
                    "none"@
                },
            )
        },
        CommandModel::DbSize => r == count_reply(s.len() as int),
        CommandModel::Keys { pattern } => lists_texts(
            r,
            Set::new(|k: Seq<char>| s.contains_key(k) && glob_matches(encode_utf8(pattern), encode_utf8(k))),
        ),
        CommandModel::LPush { key, values } => {
            let a = pushed(s, key, values, now, true);
            r == count_reply(
                if a.contains_key(key) && a[key].value is List {
                    a[key].value->List_0.len() as int
                } else {
                    0
                },
            )
        },
        CommandModel::RPush { key, values } => {
            let a = pushed(s, key, values, now, false);
            r == count_reply(
                if a.contains_key(key) && a[key].value is List {
                    a[key].value->List_0.len() as int
                } else {
                    0
                },
            )
        },
        CommandModel::LPop { key } | CommandModel::RPop { key } => {
            let t = reap_model(s, key, now);
            r == if t.contains_key(key) && t[key].value is List {
                let l = t[key].value->List_0;
                FrameModel::Bulk(
                    if c is LPop {
                        l[0]
                    } else {
                        l.last()
                    },
                )
            } else {
                FrameModel::Null
            }
        },
        CommandModel::LRange { key, start, stop } => {
            let t = reap_model(s, key, now);
            r == FrameModel::Array(
                if t.contains_key(key) && t[key].value is List {
                    bulk_all(crate::db::range_of(t[key].value->List_0, start as int, stop as int))
                } else {
                    seq![]
                },
            )
        },
        CommandModel::LLen { key } => {
            let t = reap_model(s, key, now);
            r == count_reply(
                if t.contains_key(key) && t[key].value is List {
                    t[key].value->List_0.len() as int
                } else {
                    0
                },
            )
        },
        CommandModel::SAdd { key, members } => {
            let t = reap_model(s, key, now);
            r == count_reply(
                if t.contains_key(key) && t[key].value is Members {
                    (t[key].value->Members_0 + members.to_set()).len() - t[key].value->Members_0.len()
                } else if t.contains_key(key) {
                    0
                } else {
                    members.to_set().len() as int
                },
            )
        },
        CommandModel::SRem { key, members } => {
            let t = reap_model(s, key, now);
            r == count_reply(
                if t.contains_key(key) && t[key].value is Members {
                    t[key].value->Members_0.len() - (t[key].value->Members_0
                        - members.to_set()).len()
                } else {
                    0
                },
            )
        },
        CommandModel::SMembers { key } => {
            let t = reap_model(s, key, now);
            if t.contains_key(key) && t[key].value is Members {
                lists_texts(r, t[key].value->Members_0)
            } else {
                r == FrameModel::Array(seq![])
            }
        },
        CommandModel::SIsMember { key, member } => {
            let t = reap_model(s, key, now);
            r == bool_reply(
                t.contains_key(key) && t[key].value is Members && t[key].value->Members_0.contains(
                    member,
                ),
            )
        },
        CommandModel::SCard { key } => {
            let t = reap_model(s, key, now);
            r == count_reply(
                if t.contains_key(key) && t[key].value is Members {
                    t[key].value->Members_0.len() as int
                } else {
                    0
                },
            )
        },
        CommandModel::HSet { key, field, .. } => {
            let t = reap_model(s, key, now);
            r == bool_reply(
                !t.contains_key(key) || (t[key].value is Hash
                    && !t[key].value->Hash_0.contains_key(field)),
            )
        },
        CommandModel::HGet { key, field } => {
            let t = reap_model(s, key, now);
            r == if t.contains_key(key) && t[key].value is Hash
                && t[key].value->Hash_0.contains_key(field) {
                FrameModel::Bulk(t[key].value->Hash_0[field])
            } else {
                FrameModel::Null
            }
        },
        CommandModel::HGetAll { key } => {
            let t = reap_model(s, key, now);
            if t.contains_key(key) && t[key].value is Hash {
                lists_pairs(r, t[key].value->Hash_0)
            } else {
                r == FrameModel::Array(seq![])
            }
        },
        CommandModel::HDel { key, fields } => {
            let t = reap_model(s, key, now);
            r == count_reply(
                if t.contains_key(key) && t[key].value is Hash {
                    t[key].value->Hash_0.len() - t[key].value->Hash_0.remove_keys(
                        fields.to_set(),
                    ).len()
                } else {
                    0
                },
            )
        },
        CommandModel::HExists { key, field } => {
            let t = reap_model(s, key, now);
            r == bool_reply(
                t.contains_key(key) && t[key].value is Hash && t[key].value->Hash_0.contains_key(
                    field,
                ),
            )
        },
        CommandModel::HLen { key } => {
            let t = reap_model(s, key, now);
            r == count_reply(
                if t.contains_key(key) && t[key].value is Hash {
                    t[key].value->Hash_0.len() as int
                } else {
                    0
                },
            )
        },
        CommandModel::Publish { channel, .. } => r matches FrameModel::Integer(n) && n >= 0 && (
        !channels.contains(channel) ==> n == 0),
        CommandModel::Unknown(name) => r == FrameModel::Error(
            "ERR unknown command '"@ + name + "'"@,
        ),
    }
}

fn count_frame(n: usize) -> (f: Frame)
    ensures
        f@ == count_reply(n as int),
{
    if n as u64 > 0x7fff_ffff_ffff_ffffu64 {
        Frame::Integer(0x7fff_ffff_ffff_ffffi64)
    } else {
        Frame::Integer(n as i64)
    }
}

fn bool_frame(b: bool) -> (f: Frame)
    ensures
        f@ == bool_reply(b),
{
    Frame::Integer(
        if b {
            1
        } else {
            0
        },
    )
}

fn text_bulk(t: &String) -> (f: Frame)
    ensures
        f@ == FrameModel::Bulk(encode_utf8(t@)),
{
    Frame::Bulk(copy_bytes(t.as_str().as_bytes()))
}

fn copy_texts(v: &Vec<String>) -> (r: Vec<String>)
    ensures
        texts_of(r@) == texts_of(v@),
{
    let mut out: Vec<String> = Vec::new();
    let mut i: usize = 0;
    while i < v.len()
        invariant
            i <= v@.len(),
            texts_of(out@) == texts_of(v@.take(i as int)),
        decreases v@.len() - i,
    {
        let ghost before = out@;
        let x = v[i].clone();
        out.push(x);
        assert(texts_of(out@) =~= texts_of(before).push(x@));
        assert(texts_of(v@.take(i + 1)) =~= texts_of(v@.take(i as int)).push(v@[i as int]@));
        i = i + 1;
    }
    assert(v@.take(i as int) =~= v@);
    out
}

fn copy_values(v: &Vec<Vec<u8>>) -> (r: Vec<Vec<u8>>)
    ensures
        bytes_of(r@) == bytes_of(v@),
{
    let mut out: Vec<Vec<u8>> = Vec::new();
    let mut i: usize = 0;
    while i < v.len()
        invariant
            i <= v@.len(),
            bytes_of(out@) == bytes_of(v@.take(i as int)),
        decreases v@.len() - i,
    {
        let ghost before = out@;
        let x = copy_bytes(v[i].as_slice());
        out.push(x);
        assert(bytes_of(out@) =~= bytes_of(before).push(x@));
        assert(bytes_of(v@.take(i + 1)) =~= bytes_of(v@.take(i as int)).push(v@[i as int]@));
        i = i + 1;
    }
    assert(v@.take(i as int) =~= v@);
    out
}

/// Frames for the texts `v`, as bulk strings.
fn text_frames(v: &Vec<String>) -> (r: Vec<Frame>)
    ensures
        models(r@) == bulk_texts(texts_of(v@)),
{
    let mut out: Vec<Frame> = Vec::new();
    let mut i: usize = 0;
    while i < v.len()
        invariant
            i <= v@.len(),
            out@.len() == i,
            forall|j: int| 0 <= j < i ==> (#[trigger] out@[j])@ == FrameModel::Bulk(encode_utf8(v@[j]@)),
        decreases v@.len() - i,
    {
        out.push(text_bulk(&v[i]));
        i = i + 1;
    }
    proof {
        assert forall|j: int| 0 <= j < out@.len() implies models(out@)[j] == bulk_texts(texts_of(v@))[j] by {
            lemma_models_index(out@, j);
        }
        lemma_models_index(out@, 0);
    }
    assert(models(out@) =~= bulk_texts(texts_of(v@)));
    out
}

/// Frames for the byte strings `v`, as bulk strings.
fn bulk_frames(v: Vec<Vec<u8>>) -> (r: Vec<Frame>)
    ensures
        models(r@) == bulk_all(bytes_of(v@)),
{
    let mut out: Vec<Frame> = Vec::new();
    let mut i: usize = 0;
    while i < v.len()
        invariant
            i <= v@.len(),
            out@.len() == i,
            forall|j: int| 0 <= j < i ==> (#[trigger] out@[j])@ == FrameModel::Bulk(v@[j]@),
        decreases v@.len() - i,
    {
        out.push(Frame::Bulk(copy_bytes(v[i].as_slice())));
        i = i + 1;
    }
    proof {
        assert forall|j: int| 0 <= j < out@.len() implies models(out@)[j] == bulk_all(bytes_of(v@))[j] by {
            lemma_models_index(out@, j);
        }
        lemma_models_index(out@, 0);
    }
    assert(models(out@) =~= bulk_all(bytes_of(v@)));
    out
}

fn deadline_of(now: u64, secs: Option<u64>) -> (r: Option<u64>)
    ensures
        r == deadline(now, secs),
{
    match secs {
        Some(t) => if t > (u64::MAX - now) / 1000 {
            assert(now + t * 1000 > u64::MAX) by (nonlinear_arith)
                requires
                    t > (u64::MAX - now) / 1000,
            ;
            Some(u64::MAX)
        } else {
            assert(now + t * 1000 <= u64::MAX) by (nonlinear_arith)
                requires
                    t <= (u64::MAX - now) / 1000,
            ;
            Some(now + t * 1000)
        },
        None => None,
    }
}

fn run_set(db: &mut Db, key: &String, value: &Vec<u8>, secs: Option<u64>, now: u64) -> (r: Frame)
    requires
        old(db).wf(),
    ensures
        final(db).wf(),
        store_model(final(db)@) == apply(
            CommandModel::SetValue { key: key@, value: value@, expire_secs: secs },
            store_model(old(db)@),
            now,
        ),
        r@ == FrameModel::Simple("OK"@),
{
    let at = deadline_of(now, secs);
    db.write_string(key.clone(), copy_bytes(value.as_slice()), at);
    proof {
        lemma_store_at(db@, old(db)@, key@);
    }
    Frame::Simple(owned("OK"))
}

fn run_get(db: &mut Db, key: &String, now: u64) -> (r: Frame)
    requires
        old(db).wf(),
    ensures
        final(db).wf(),
        store_model(final(db)@) == reap_model(store_model(old(db)@), key@, now),
        answers(CommandModel::Get { key: key@ }, store_model(old(db)@), Set::empty(), now, r@),
{
    proof {
        lemma_store_reaped(old(db)@, key@, now);
    }
    match db.read_string(key.as_str(), now) {
        Some(b) => Frame::Bulk(b),
        None => Frame::Null,
    }
}

fn run_del(db: &mut Db, keys: &Vec<String>, now: u64) -> (r: Frame)
    requires
        old(db).wf(),
    ensures
        final(db).wf(),
        store_model(final(db)@) == dels(store_model(old(db)@), texts_of(keys@), keys@.len()),
        r@ == count_reply(del_count(store_model(old(db)@), texts_of(keys@), keys@.len(), now) as int),
{
    let ghost s0 = store_model(db@);
    let ghost ks = texts_of(keys@);
    let mut count: usize = 0;
    let mut i: usize = 0;
    while i < keys.len()
        invariant
            db.wf(),
            i <= keys@.len(),
            ks == texts_of(keys@),
            count <= i,
            store_model(db@) == dels(s0, ks, i as nat),
            count == del_count(s0, ks, i as nat, now),
        decreases keys@.len() - i,
    {
        let ghost before = db@;
        proof {
            lemma_store_remove(before, keys@[i as int]@);
        }
        if db.delete(keys[i].as_str(), now) {
            count = count + 1;
        }
        i = i + 1;
    }
    count_frame(count)
}

fn run_type(db: &mut Db, key: &String, now: u64) -> (r: Frame)
    requires
        old(db).wf(),
    ensures
        final(db).wf(),
        store_model(final(db)@) == reap_model(store_model(old(db)@), key@, now),
        answers(CommandModel::Type { key: key@ }, store_model(old(db)@), Set::empty(), now, r@),
{
    proof {
        lemma_store_reaped(old(db)@, key@, now);
    }
    match db.get_type(key.as_str(), now) {
        Some(t) => Frame::Simple(owned(t)),
        None => Frame::Simple(owned("none")),
    }
}

fn run_keys(db: &Db, pattern: &String) -> (r: Frame)
    requires
        db.wf(),
    ensures
        answers(CommandModel::Keys { pattern: pattern@ }, store_model(db@), Set::empty(), 0, r@),
{
    let pat = pattern.as_str();
    assert(pat@ == pattern@);
    let keys = db.keys(pat);
    let frames = text_frames(&keys);
    let ghost ks = texts_of(keys@);
    let ghost want = Set::new(|k: Seq<char>| store_model(db@).contains_key(k) && glob_matches(encode_utf8(pattern@), encode_utf8(k)));
    assert(store_model(db@).dom() =~= db@.dom());
    assert forall|k: Seq<char>| ks.to_set().contains(k) <==> want.contains(k) by {
        assert(ks.to_set().contains(k) == ks.contains(k));
        assert(ks.contains(k) == (db@.contains_key(k) && glob_matches(encode_utf8(pat@), encode_utf8(k))));
        assert(store_model(db@).contains_key(k) == db@.contains_key(k));
        assert(want.contains(k) == (store_model(db@).contains_key(k) && glob_matches(encode_utf8(pattern@), encode_utf8(k))));
    }
    assert(ks.to_set() =~= want);
    let r = Frame::Array(frames);
    assert(r@ == FrameModel::Array(bulk_texts(ks)));
    r
}

fn run_push(db: &mut Db, key: &String, values: &Vec<Vec<u8>>, now: u64, front: bool) -> (r: Frame)
    requires
        old(db).wf(),
    ensures
        final(db).wf(),
        store_model(final(db)@) == pushed(store_model(old(db)@), key@, bytes_of(values@), now, front),
        ({
            let a = pushed(store_model(old(db)@), key@, bytes_of(values@), now, front);
            r@ == count_reply(
                if a.contains_key(key@) && a[key@].value is List {
                    a[key@].value->List_0.len() as int
                } else {
                    0
                },
            )
        }),
{
    let ghost m = reaped(old(db)@, key@, now);
    proof {
        lemma_store_reaped(old(db)@, key@, now);
    }
    let n = if front {
        db.lpush(key.clone(), copy_values(values), now)
    } else {
        db.rpush(key.clone(), copy_values(values), now)
    };
    proof {
        if db@ != m {
            lemma_store_at(db@, m, key@);
        }
    }
    count_frame(n)
}

fn run_pop(db: &mut Db, key: &String, now: u64, front: bool) -> (r: Frame)
    requires
        old(db).wf(),
    ensures
        final(db).wf(),
        store_model(final(db)@) == popped(store_model(old(db)@), key@, now, front),
        ({
            let t = reap_model(store_model(old(db)@), key@, now);
            r@ == if t.contains_key(key@) && t[key@].value is List {
                let l = t[key@].value->List_0;
                FrameModel::Bulk(
                    if front {
                        l[0]
                    } else {
                        l.last()
                    },
                )
            } else {
                FrameModel::Null
            }
        }),
{
    let ghost m = reaped(old(db)@, key@, now);
    proof {
        lemma_store_reaped(old(db)@, key@, now);
        lemma_store_remove(m, key@);
    }
    let b = if front {
        db.lpop(key.as_str(), now)
    } else {
        db.rpop(key.as_str(), now)
    };
    proof {
        if db@ != m && db@ != m.remove(key@) {
            lemma_store_at(db@, m, key@);
        }
    }
    match b {
        Some(b) => Frame::Bulk(b),
        None => Frame::Null,
    }
}

fn run_lrange(db: &mut Db, key: &String, start: i64, stop: i64, now: u64) -> (r: Frame)
    requires
        old(db).wf(),
    ensures
        final(db).wf(),
        store_model(final(db)@) == reap_model(store_model(old(db)@), key@, now),
        answers(
            CommandModel::LRange { key: key@, start, stop },
            store_model(old(db)@),
            Set::empty(),
            now,
            r@,
        ),
{
    proof {
        lemma_store_reaped(old(db)@, key@, now);
    }
    match db.lrange(key.as_str(), start, stop, now) {
        Some(v) => {
            let frames = bulk_frames(v);
            Frame::Array(frames)
        },
        None => {
            let frames: Vec<Frame> = Vec::new();
            assert(models(frames@) =~= seq![]);
            Frame::Array(frames)
        },
    }
}

fn run_sadd(db: &mut Db, key: &String, members: &Vec<String>, now: u64) -> (r: Frame)
    requires
        old(db).wf(),
    ensures
        final(db).wf(),
        store_model(final(db)@) == set_added(store_model(old(db)@), key@, texts_of(members@), now),
        answers(
            CommandModel::SAdd { key: key@, members: texts_of(members@) },
            store_model(old(db)@),
            Set::empty(),
            now,
            r@,
        ),
{
    let ghost m = reaped(old(db)@, key@, now);
    proof {
        lemma_store_reaped(old(db)@, key@, now);
    }
    let n = db.sadd(key.clone(), copy_texts(members), now);
    proof {
        let ms = texts_of(members@);
        if db@ != m {
            lemma_store_at(db@, m, key@);
        }
        assert(Set::<Seq<char>>::empty() + ms.to_set() =~= ms.to_set());
        if ms.len() == 0 {
            assert(ms.to_set() =~= Set::<Seq<char>>::empty());
        }
    }
    count_frame(n)
}

fn run_srem(db: &mut Db, key: &String, members: &Vec<String>, now: u64) -> (r: Frame)
    requires
        old(db).wf(),
    ensures
        final(db).wf(),
        store_model(final(db)@) == set_removed(store_model(old(db)@), key@, texts_of(members@), now),
        answers(
            CommandModel::SRem { key: key@, members: texts_of(members@) },
            store_model(old(db)@),
            Set::empty(),
            now,
            r@,
        ),
{
    let ghost m = reaped(old(db)@, key@, now);
    proof {
        lemma_store_reaped(old(db)@, key@, now);
        lemma_store_remove(m, key@);
    }
    let n = db.srem(key.as_str(), copy_texts(members), now);
    proof {
        if db@ != m && db@ != m.remove(key@) {
            lemma_store_at(db@, m, key@);
        }
    }
    count_frame(n)
}

fn run_smembers(db: &mut Db, key: &String, now: u64) -> (r: Frame)
    requires
        old(db).wf(),
    ensures
        final(db).wf(),
        store_model(final(db)@) == reap_model(store_model(old(db)@), key@, now),
        answers(CommandModel::SMembers { key: key@ }, store_model(old(db)@), Set::empty(), now, r@),
{
    proof {
        lemma_store_reaped(old(db)@, key@, now);
    }
    match db.smembers(key.as_str(), now) {
        Some(v) => {
            let frames = text_frames(&v);
            let r = Frame::Array(frames);
            assert(r@ == FrameModel::Array(bulk_texts(texts_of(v@))));
            r
        },
        None => {
            let frames: Vec<Frame> = Vec::new();
            assert(models(frames@) =~= seq![]);
            Frame::Array(frames)
        },
    }
}

fn run_hset(db: &mut Db, key: &String, field: &String, value: &Vec<u8>, now: u64) -> (r: Frame)
    requires
        old(db).wf(),
    ensures
        final(db).wf(),
        store_model(final(db)@) == hash_set(store_model(old(db)@), key@, field@, value@, now),
        answers(
            CommandModel::HSet { key: key@, field: field@, value: value@ },
            store_model(old(db)@),
            Set::empty(),
            now,
            r@,
        ),
{
    let ghost m = reaped(old(db)@, key@, now);
    proof {
        lemma_store_reaped(old(db)@, key@, now);
    }
    let b = db.hset(key.clone(), field.clone(), copy_bytes(value.as_slice()), now);
    proof {
        if db@ != m {
            lemma_store_at(db@, m, key@);
        }
    }
    bool_frame(b)
}

fn run_hdel(db: &mut Db, key: &String, fields: &Vec<String>, now: u64) -> (r: Frame)
    requires
        old(db).wf(),
    ensures
        final(db).wf(),
        store_model(final(db)@) == hash_removed(store_model(old(db)@), key@, texts_of(fields@), now),
        answers(
            CommandModel::HDel { key: key@, fields: texts_of(fields@) },
            store_model(old(db)@),
            Set::empty(),
            now,
            r@,
        ),
{
    let ghost m = reaped(old(db)@, key@, now);
    proof {
        lemma_store_reaped(old(db)@, key@, now);
        lemma_store_remove(m, key@);
    }
    let n = db.hdel(key.as_str(), copy_texts(fields), now);
    proof {
        if db@ != m && db@ != m.remove(key@) {
            lemma_store_at(db@, m, key@);
        }
    }
    count_frame(n)
}

fn run_hgetall(db: &mut Db, key: &String, now: u64) -> (r: Frame)
    requires
        old(db).wf(),
    ensures
        final(db).wf(),
        store_model(final(db)@) == reap_model(store_model(old(db)@), key@, now),
        answers(CommandModel::HGetAll { key: key@ }, store_model(old(db)@), Set::empty(), now, r@),
{
    proof {
        lemma_store_reaped(old(db)@, key@, now);
    }
    let ghost m = reaped(old(db)@, key@, now);
    match db.hgetall(key.as_str(), now) {
        Some(v) => {
            let ghost h = hash_of(m[key@]);
            let mut frames: Vec<Frame> = Vec::new();
            let mut i: usize = 0;
            while i < v.len()
                invariant
                    i <= v@.len(),
                    frames@.len() == 2 * i,
                    forall|j: int| 0 <= j < 2 * i ==> (#[trigger] frames@[j])@ == if j % 2 == 0 {
                        FrameModel::Bulk(encode_utf8(v@[j / 2].0@))
                    } else {
                        FrameModel::Bulk(v@[j / 2].1@)
                    },
                decreases v@.len() - i,
            {
                frames.push(text_bulk(&v[i].0));
                frames.push(Frame::Bulk(copy_bytes(v[i].1.as_slice())));
                i = i + 1;
            }
            let ghost fs = Seq::new(v@.len(), |j: int| v@[j].0@);
            proof {
                assert forall|j: int| 0 <= j < frames@.len() implies models(frames@)[j]
                    == bulk_pairs(fs, h)[j] by {
                    lemma_models_index(frames@, j);
                }
                lemma_models_index(frames@, 0);
                assert(models(frames@) =~= bulk_pairs(fs, h));
                assert forall|a: int, b: int| 0 <= a < b < fs.len() implies fs[a] != fs[b] by {}
                assert forall|f: Seq<char>| fs.to_set().contains(f) <==> h.dom().contains(f) by {
                    if h.contains_key(f) {
                        let t = choose|t: int| 0 <= t < v@.len() && #[trigger] v@[t].0@ == f;
                        assert(fs[t] == f);
                    }
                    if fs.to_set().contains(f) {
                        let t = choose|t: int| 0 <= t < fs.len() && fs[t] == f;
                        assert(h.contains_key(v@[t].0@));
                    }
                }
                assert(fs.to_set() =~= h.dom());
            }
            let r = Frame::Array(frames);
            assert(r@ == FrameModel::Array(bulk_pairs(fs, h)));
            r
        },
        None => {
            let frames: Vec<Frame> = Vec::new();
            assert(models(frames@) =~= seq![]);
            Frame::Array(frames)
        },
    }
}

impl Command {
    /// Runs the command at time `now` (in milliseconds) and hands back the reply.
    pub fn execute(&self, db: &mut Db, pubsub: &PubSub, now: u64) -> (r: Frame)
        requires
            old(db).wf(),
            pubsub.wf(),
        ensures
            final(db).wf(),
            store_model(final(db)@) == apply(self@, store_model(old(db)@), now),
            answers(self@, store_model(old(db)@), pubsub@, now, r@),
    {
        let ghost s0 = store_model(db@);
        match self {
            Command::Ping(msg) => match msg {
                Some(m) => Frame::Bulk(copy_bytes(m.as_slice())),
                None => Frame::Simple(owned("PONG")),
            },
            Command::Echo { message } => Frame::Bulk(copy_bytes(message.as_slice())),
            Command::SetValue { key, value, expire_secs } => run_set(
                db,
                key,
                value,
                *expire_secs,
                now,
            ),
            Command::Get { key } => run_get(db, key, now),
            Command::Del { keys } => run_del(db, keys, now),
            Command::Exists { key } => {
                proof {
                    lemma_store_reaped(old(db)@, key@, now);
                }
                bool_frame(db.key_exists(key.as_str(), now))
            },
            Command::Type { key } => run_type(db, key, now),
            Command::DbSize => {
                proof {
                    assert(store_model(db@).dom() =~= db@.dom());
                }
                count_frame(db.dbsize())
            },
            Command::FlushDb => {
                db.flushdb();
                assert(store_model(db@) =~= Map::<Seq<char>, EntryModel>::empty());
                Frame::Simple(owned("OK"))
            },
            Command::Keys { pattern } => run_keys(db, pattern),
            Command::LPush { key, values } => run_push(db, key, values, now, true),
            Command::RPush { key, values } => run_push(db, key, values, now, false),
            Command::LPop { key } => run_pop(db, key, now, true),
            Command::RPop { key } => run_pop(db, key, now, false),
            Command::LRange { key, start, stop } => run_lrange(db, key, *start, *stop, now),
            Command::LLen { key } => {
                proof {
                    lemma_store_reaped(old(db)@, key@, now);
                }
                match db.llen(key.as_str(), now) {
                    Some(n) => count_frame(n),
                    None => count_frame(0),
                }
            },
            Command::SAdd { key, members } => run_sadd(db, key, members, now),
            Command::SRem { key, members } => run_srem(db, key, members, now),
            Command::SMembers { key } => run_smembers(db, key, now),
            Command::SIsMember { key, member } => {
                proof {
                    lemma_store_reaped(old(db)@, key@, now);
                }
                bool_frame(db.sismember(key.as_str(), member.as_str(), now))
            },
            Command::SCard { key } => {
                proof {
                    lemma_store_reaped(old(db)@, key@, now);
                }
                count_frame(db.scard(key.as_str(), now))
            },
            Command::HSet { key, field, value } => run_hset(db, key, field, value, now),
            Command::HGet { key, field } => {
                proof {
                    lemma_store_reaped(old(db)@, key@, now);
                }
                match db.hget(key.as_str(), field.as_str(), now) {
                    Some(b) => Frame::Bulk(b),
                    None => Frame::Null,
                }
            },
            Command::HGetAll { key } => run_hgetall(db, key, now),
            Command::HDel { key, fields } => run_hdel(db, key, fields, now),
            Command::HExists { key, field } => {
                proof {
                    lemma_store_reaped(old(db)@, key@, now);
                }
                bool_frame(db.hexists(key.as_str(), field.as_str(), now))
            },
            Command::HLen { key } => {
                proof {
                    lemma_store_reaped(old(db)@, key@, now);
                }
                count_frame(db.hlen(key.as_str(), now))
            },
            Command::Publish { channel, message } => {
                let n = pubsub.publish(channel.as_str(), copy_bytes(message.as_slice()));
                count_frame(n)
            },
            Command::Unknown(name) => {
                let mut m = owned("ERR unknown command '");
                m.append(name.as_str());
                m.append("'");
                Frame::Error(m)
            },
        }
    }

    /// Whether the command can change the keyspace, and so goes to the log.
    pub fn is_write_command(&self) -> (r: bool)
        ensures
            r == is_write(self@),
    {
        match self {
            Command::SetValue { .. } | Command::Del { .. } | Command::FlushDb
            | Command::LPush { .. } | Command::RPush { .. } | Command::LPop { .. }
            | Command::RPop { .. } | Command::SAdd { .. } | Command::SRem { .. }
            | Command::HSet { .. } | Command::HDel { .. } => true,
            _ => false,
        }
    }

    /// Runs the command again from the log: commands that change the keyspace
    /// run as they did, the others are skipped, and nothing is replied.
    pub fn replay(&self, db: &mut Db, now: u64) -> (r: Result<(), String>)
        requires
            old(db).wf(),
        ensures
            final(db).wf(),
            r is Ok,
            store_model(final(db)@) == if is_write(self@) {
                apply(self@, store_model(old(db)@), now)
            } else {
                store_model(old(db)@)
            },
    {
        if self.is_write_command() {
            let hub = PubSub::new();
            let _ = self.execute(db, &hub, now);
        }
        Ok(())
    }
}

/// Whether `c` can bring key `k` into the store.
pub open spec fn creates(c: CommandModel, k: Seq<char>) -> bool {
    match c {
        CommandModel::SetValue { key, .. } => key == k,
        CommandModel::LPush { key, .. } => key == k,
        CommandModel::RPush { key, .. } => key == k,
        CommandModel::SAdd { key, .. } => key == k,
        CommandModel::HSet { key, .. } => key == k,
        _ => false,
    }
}

proof fn lemma_dels_absent(s: Map<Seq<char>, EntryModel>, keys: Seq<Seq<char>>, i: nat, k: Seq<char>)
    requires
        !s.contains_key(k),
    ensures
        !dels(s, keys, i).contains_key(k),
    decreases i,
{
    if i > 0 && i <= keys.len() {
        lemma_dels_absent(s, keys, (i - 1) as nat, k);
    }
}

/// A key that is absent stays absent through every command that cannot create
/// it; so once a read has found a key expired, reads keep finding it absent
/// until it is set again.
pub proof fn lemma_absence_persists(
    c: CommandModel,
    s: Map<Seq<char>, EntryModel>,
    k: Seq<char>,
    now: u64,
)
    requires
        !s.contains_key(k),
        !creates(c, k),
    ensures
        !apply(c, s, now).contains_key(k),
        answers(CommandModel::Get { key: k }, apply(c, s, now), Set::empty(), now, FrameModel::Null),
        answers(
            CommandModel::Exists { key: k },
            apply(c, s, now),
            Set::empty(),
            now,
            FrameModel::Integer(0),
        ),
{
    if let CommandModel::Del { keys } = c {
        lemma_dels_absent(s, keys, keys.len(), k);
    }
}

/// A command that empties the list, set or hash under a key removes the key:
/// `EXISTS` then answers 0 and `TYPE` answers `none`.
pub proof fn lemma_emptied_key_is_gone(
    c: CommandModel,
    s: Map<Seq<char>, EntryModel>,
    k: Seq<char>,
    now: u64,
)
    requires
        s.contains_key(k),
        live_model(s[k], now),
        match c {
            CommandModel::LPop { key } | CommandModel::RPop { key } => key == k
                && s[k].value is List && s[k].value->List_0.len() == 1,
            CommandModel::SRem { key, members } => key == k && s[k].value is Members && (
            s[k].value->Members_0 - members.to_set()).len() == 0,
            CommandModel::HDel { key, fields } => key == k && s[k].value is Hash
                && s[k].value->Hash_0.remove_keys(fields.to_set()).len() == 0,
            _ => false,
        },
    ensures
        !apply(c, s, now).contains_key(k),
        answers(
            CommandModel::Exists { key: k },
            apply(c, s, now),
            Set::empty(),
            now,
            FrameModel::Integer(0),
        ),
        answers(
            CommandModel::Type { key: k },
            apply(c, s, now),
            Set::empty(),
            now,
            FrameModel::Simple("none"@),
        ),
{
}

} // verus!
