use crate::db::{after_lookup, bytes_opt, lookup, previous, stored, Db, EntryModel};
use crate::error::{Error, Result};
use crate::buf::{bytes_of, bytes_slice, clone_bytes, copy_bytes};
use crate::resp::{frames_of, latin1, lemma_frames_of_index, parse_u64, text_of, u64_value, Frame, RESP};
use bytes::Bytes;
use vstd::prelude::*;
use vstd::string::StrSliceExecFns;
use vstd::utf8::encode_utf8;

verus! {

/// A validated request.
#[derive(Debug)]
pub enum Command {
    Ping { msg: Option<Bytes> },
    Echo { msg: RESP },
    SetValue { key: String, value: Bytes, ttl: Option<u64> },
    Get { key: String },
}

/// The mathematical value of a command.
pub enum CommandModel {
    Ping(Option<Seq<u8>>),
    Echo(Frame),
    SetValue(Seq<char>, Seq<u8>, Option<u64>),
    Get(Seq<char>),
}

impl View for Command {
    type V = CommandModel;

    open spec fn view(&self) -> CommandModel {
        match self {
            Command::Ping { msg } => CommandModel::Ping(bytes_opt(*msg)),
            Command::Echo { msg } => CommandModel::Echo(msg@),
            Command::SetValue { key, value, ttl } => CommandModel::SetValue(key@, bytes_of(*value), *ttl),
            Command::Get { key } => CommandModel::Get(key@),
        }
    }
}

pub open spec fn upper(c: char) -> char {
    if 'a' <= c <= 'z' {
        ((c as u8) - 32) as u8 as char
    } else {
        c
    }
}

/// ASCII letters in upper case, every other character unchanged.
pub open spec fn ascii_upper(s: Seq<char>) -> Seq<char> {
    s.map_values(|c: char| upper(c))
}

/// A string-like argument read as text.
pub open spec fn text_arg(f: Frame) -> Option<Seq<char>> {
    match f {
        Frame::Bulk(b) => Some(latin1(b)),
        Frame::Simple(s) => Some(s),
        _ => None,
    }
}

/// A string-like argument read as bytes.
pub open spec fn bytes_arg(f: Frame) -> Option<Seq<u8>> {
    match f {
        Frame::Bulk(b) => Some(b),
        Frame::Simple(s) => Some(encode_utf8(s)),
        _ => None,
    }
}

/// A bulk string argument.
pub open spec fn bulk_arg(f: Frame) -> Option<Seq<u8>> {
    match f {
        Frame::Bulk(b) => Some(b),
        _ => None,
    }
}

pub open spec fn not_text() -> Seq<char> {
    "Expected command argument to be a string"@
}

/// The ttl of `SET k v <unit> <n>`.
pub open spec fn ttl_spec(unit: Frame, amount: Frame) -> std::result::Result<u64, Seq<char>> {
    match text_arg(unit) {
        None => Err(not_text()),
        Some(u) => match bytes_arg(amount) {
            None => Err(not_text()),
            Some(a) => match u64_value(a) {
                None => Err("Expiration duration must be a number"@),
                Some(d) => if u == "EX"@ {
                    if d * 1000 <= u64::MAX {
                        Ok((d * 1000) as u64)
                    } else {
                        Err("Expiration duration is too large"@)
                    }
                } else if u == "PX"@ {
                    Ok(d as u64)
                } else {
                    Err("Set command option is not supported"@)
                },
            },
        },
    }
}

/// `SET` with its arguments.
pub open spec fn set_spec(args: Seq<Frame>) -> std::result::Result<CommandModel, Seq<char>> {
    if args.len() < 3 {
        Err("Set command requires a key and a value"@)
    } else {
        match text_arg(args[1]) {
            None => Err(not_text()),
            Some(k) => match bulk_arg(args[2]) {
                None => Err("Expected command argument to be a bulk string"@),
                Some(v) => if args.len() == 3 {
                    Ok(CommandModel::SetValue(k, v, None))
                } else if args.len() != 5 {
                    Err("Set command takes a key, a value and an optional expiry"@)
                } else {
                    match ttl_spec(args[3], args[4]) {
                        Ok(t) => Ok(CommandModel::SetValue(k, v, Some(t))),
                        Err(m) => Err(m),
                    }
                },
            },
        }
    }
}

/// The command that a frame denotes, or the message that rejects it.
pub open spec fn command_spec(f: Frame) -> std::result::Result<CommandModel, Seq<char>> {
    match f {
        Frame::Array(args) => if args.len() == 0 {
            Err("Command array is empty"@)
        } else {
            match text_arg(args[0]) {
                None => Err(not_text()),
                Some(verb) => {
                    let v = ascii_upper(verb);
                    if v == "PING"@ {
                        if args.len() == 1 {
                            Ok(CommandModel::Ping(None))
                        } else if args.len() == 2 {
                            match bytes_arg(args[1]) {
                                Some(m) => Ok(CommandModel::Ping(Some(m))),
                                None => Err(not_text()),
                            }
                        } else {
                            Err("Ping command takes at most 1 argument"@)
                        }
                    } else if v == "ECHO"@ {
                        if args.len() != 2 {
                            Err("Echo command takes 1 argument"@)
                        } else if args[1] is Simple || args[1] is Bulk {
                            Ok(CommandModel::Echo(args[1]))
                        } else {
                            Err("Echo command only takes strings"@)
                        }
                    } else if v == "SET"@ {
                        set_spec(args)
                    } else if v == "GET"@ {
                        if args.len() != 2 {
                            Err("Get command takes 1 argument"@)
                        } else {
                            match text_arg(args[1]) {
                                Some(k) => Ok(CommandModel::Get(k)),
                                None => Err(not_text()),
                            }
                        }
                    } else {
                        Err("Unknown or unsupported command"@)
                    }
                },
            }
        },
        _ => Err("Commands should be an array"@),
    }
}

/// The reply to a command run against a store holding `m` at time `now`.
pub open spec fn reply_spec(c: CommandModel, m: Map<Seq<char>, EntryModel>, now: u64) -> Frame {
    match c {
        CommandModel::Ping(None) => Frame::Simple("PONG"@),
        CommandModel::Ping(Some(b)) => Frame::Bulk(b),
        CommandModel::Echo(f) => f,
        CommandModel::SetValue(k, _, _) => match previous(m, k) {
            Some(p) => Frame::Bulk(p),
            None => Frame::Simple("OK"@),
        },
        CommandModel::Get(k) => match lookup(m, k, now) {
            Some(d) => Frame::Bulk(d),
            None => Frame::Null,
        },
    }
}

/// The store after a command runs at time `now`.
pub open spec fn store_spec(c: CommandModel, m: Map<Seq<char>, EntryModel>, now: u64) -> Map<
    Seq<char>,
    EntryModel,
> {
    match c {
        CommandModel::SetValue(k, v, t) => stored(m, k, v, t, now),
        CommandModel::Get(k) => after_lookup(m, k, now),
        _ => m,
    }
}

fn msg(text: &str) -> (e: Error)
    ensures
        e matches Error::Msg(m) && m@ == text@,
{
    Error::Msg(text.to_owned())
}

fn string(text: &str) -> (s: String)
    ensures
        s@ == text@,
{
    text.to_owned()
}

fn upper_exec(c: char) -> (r: char)
    ensures
        r == upper(c),
{
    if 'a' <= c && c <= 'z' {
        ((c as u8) - 32) as u8 as char
    } else {
        c
    }
}

/// Whether `s` equals `word` once its ASCII letters are upper-cased.
fn verb_is(s: &String, word: &str) -> (r: bool)
    ensures
        r == (ascii_upper(s@) == word@),
{
    let n = s.as_str().unicode_len();
    if n != word.unicode_len() {
        assert(ascii_upper(s@).len() != word@.len());
        return false;
    }
    let mut i: usize = 0;
    while i < n
        invariant
            n == s@.len(),
            n == word@.len(),
            i <= n,
            forall|j: int| 0 <= j < i ==> upper(s@[j]) == word@[j],
        decreases n - i,
    {
        if upper_exec(s.as_str().get_char(i)) != word.get_char(i) {
            assert(ascii_upper(s@)[i as int] != word@[i as int]);
            return false;
        }
        i = i + 1;
    }
    assert(ascii_upper(s@) =~= word@);
    true
}

/// Reads a string-like argument as text.
fn extract_string(val: &RESP) -> (r: Result<String>)
    ensures
        match r {
            Ok(s) => text_arg(val@) == Some(s@),
            Err(Error::Msg(m)) => text_arg(val@) is None && m@ == not_text(),
            Err(_) => false,
        },
{
    match val {
        RESP::Bulk(body) => Ok(text_of(bytes_slice(body))),
        RESP::Simple(body) => Ok(body.clone()),
        _ => Err(msg("Expected command argument to be a string")),
    }
}

/// Reads a string-like argument as bytes.
fn extract_bytes(val: &RESP) -> (r: Option<Bytes>)
    ensures
        bytes_opt(r) == bytes_arg(val@),
{
    match val {
        RESP::Bulk(body) => Some(clone_bytes(body)),
        RESP::Simple(body) => Some(copy_bytes(body.as_str().as_bytes())),
        _ => None,
    }
}

/// Reads a bulk string argument.
fn extract_string_as_bytes(val: &RESP) -> (r: Result<Bytes>)
    ensures
        match r {
            Ok(b) => bulk_arg(val@) == Some(bytes_of(b)),
            Err(Error::Msg(m)) => bulk_arg(val@) is None && m@
                == "Expected command argument to be a bulk string"@,
            Err(_) => false,
        },
{
    match val {
        RESP::Bulk(body) => Ok(clone_bytes(body)),
        _ => Err(msg("Expected command argument to be a bulk string")),
    }
}


pub open spec fn command_result(r: Result<Command>, spec: std::result::Result<CommandModel, Seq<char>>) -> bool {
    match r {
        Ok(c) => spec == Ok::<CommandModel, Seq<char>>(c@),
        Err(Error::Msg(m)) => spec == Err::<CommandModel, Seq<char>>(m@),
        Err(_) => false,
    }
}

/// Reads the ttl of `SET k v <unit> <n>`.
fn parse_ttl(unit: &RESP, amount: &RESP) -> (r: Result<u64>)
    ensures
        match r {
            Ok(t) => ttl_spec(unit@, amount@) == Ok::<u64, Seq<char>>(t),
            Err(Error::Msg(m)) => ttl_spec(unit@, amount@) == Err::<u64, Seq<char>>(m@),
            Err(_) => false,
        },
{
    let time_unit = match extract_string(unit) {
        Ok(u) => u,
        Err(e) => {
            return Err(e);
        },
    };
    let raw = match extract_bytes(amount) {
        Some(b) => b,
        None => {
            return Err(msg("Expected command argument to be a string"));
        },
    };
    let duration = match parse_u64(bytes_slice(&raw)) {
        Some(d) => d,
        None => {
            return Err(msg("Expiration duration must be a number"));
        },
    };
    if time_unit == string("EX") {
        if duration > 18446744073709551u64 {
            Err(msg("Expiration duration is too large"))
        } else {
            Ok(duration * 1000)
        }
    } else if time_unit == string("PX") {
        Ok(duration)
    } else {
        Err(msg("Set command option is not supported"))
    }
}

/// Builds `SET` from its arguments.
fn parse_set(args: &Vec<RESP>) -> (r: Result<Command>)
    requires
        args@.len() >= 1,
    ensures
        command_result(r, set_spec(frames_of(args@))),
{
    proof {
        lemma_frames_of_index(args@);
    }
    if args.len() < 3 {
        return Err(msg("Set command requires a key and a value"));
    }
    let key = match extract_string(&args[1]) {
        Ok(k) => k,
        Err(e) => {
            return Err(e);
        },
    };
    let value = match extract_string_as_bytes(&args[2]) {
        Ok(v) => v,
        Err(e) => {
            return Err(e);
        },
    };
    if args.len() == 3 {
        return Ok(Command::SetValue { key, value, ttl: None });
    }
    if args.len() != 5 {
        return Err(msg("Set command takes a key, a value and an optional expiry"));
    }
    match parse_ttl(&args[3], &args[4]) {
        Ok(t) => Ok(Command::SetValue { key, value, ttl: Some(t) }),
        Err(e) => Err(e),
    }
}

impl Command {
    /// Builds the command that a request frame denotes.
    pub fn try_from(value: RESP) -> (r: Result<Command>)
        ensures
            command_result(r, command_spec(value@)),
    {
        let mut args = match value {
            RESP::Array(args) => args,
            _ => {
                return Err(msg("Commands should be an array"));
            },
        };
        proof {
            lemma_frames_of_index(args@);
        }
        if args.len() == 0 {
            return Err(msg("Command array is empty"));
        }
        let verb = match extract_string(&args[0]) {
            Ok(v) => v,
            Err(e) => {
                return Err(e);
            },
        };
        if verb_is(&verb, "PING") {
            if args.len() == 1 {
                Ok(Command::Ping { msg: None })
            } else if args.len() == 2 {
                match extract_bytes(&args[1]) {
                    Some(m) => Ok(Command::Ping { msg: Some(m) }),
                    None => Err(msg("Expected command argument to be a string")),
                }
            } else {
                Err(msg("Ping command takes at most 1 argument"))
            }
        } else if verb_is(&verb, "ECHO") {
            if args.len() != 2 {
                Err(msg("Echo command takes 1 argument"))
            } else if args[1].is_string() {
                let m = args.remove(1);
                Ok(Command::Echo { msg: m })
            } else {
                Err(msg("Echo command only takes strings"))
            }
        } else if verb_is(&verb, "SET") {
            parse_set(&args)
        } else if verb_is(&verb, "GET") {
            if args.len() != 2 {
                Err(msg("Get command takes 1 argument"))
            } else {
                match extract_string(&args[1]) {
                    Ok(k) => Ok(Command::Get { key: k }),
                    Err(e) => Err(e),
                }
            }
        } else {
            Err(msg("Unknown or unsupported command"))
        }
    }

    /// Runs the command against the store at time `now` and gives the reply.
    pub fn execute_cmd(self, db: &mut Db, now: u64) -> (r: RESP)
        requires
            old(db).wf(),
        ensures
            final(db).wf(),
            final(db)@ == store_spec(self@, old(db)@, now),
            r@ == reply_spec(self@, old(db)@, now),
    {
        match self {
            Command::Ping { msg } => match msg {
                Some(m) => RESP::Bulk(m),
                None => RESP::Simple(string("PONG")),
            },
            Command::Echo { msg } => msg,
            Command::SetValue { key, value, ttl } => match db.set(key, value, ttl, now) {
                Some(previous_entry) => RESP::Bulk(previous_entry),
                None => RESP::Simple(string("OK")),
            },
            Command::Get { key } => match db.get(key.as_str(), now) {
                Some(data) => RESP::Bulk(data),
                None => RESP::Null,
            },
        }
    }
}

} // verus!
