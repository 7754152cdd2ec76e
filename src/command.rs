//! Commands: decoding a finished RESP value into a typed command.
use crate::decimal::{parse_u64, parse_u64_spec};
use crate::model::Value;
use crate::resp::{values_model, RespConcreteType};
use vstd::prelude::*;
use vstd::string::StrSliceExecFns;

verus! {

/// The fields of a `SET`; the expiry is an absolute instant in milliseconds
/// since the Unix epoch.
#[derive(Debug)]
pub struct SetCommand {
    pub key: String,
    pub value: String,
    pub expiry_at: Option<u64>,
}

/// A request ready to run against the store.
#[derive(Debug)]
pub enum Command {
    Ping,
    SetKey(SetCommand),
    Get(String),
    Echo(String),
    /// A pre-rendered reply, sent as it is.
    Error(Vec<u8>),
}

/// Why a well-framed value is not a valid command.
#[derive(Debug)]
pub enum CommandError {
    UnknownCommand(String),
    BadLength(usize),
    BadExpiry(String),
}

/// The model of a command.
pub enum CommandModel {
    Ping,
    Echo(Seq<char>),
    Get(Seq<char>),
    SetKey(Seq<char>, Seq<char>, Option<u64>),
    Error(Seq<u8>),
}

/// The model of a command error: the command's name (empty when the value
/// has none), the number of arguments after the name, or the milliseconds
/// text that is no number.
pub enum CommandFault {
    UnknownCommand(Seq<char>),
    BadArity(int),
    BadExpiry(Seq<char>),
}

impl Command {
    pub open spec fn model(&self) -> CommandModel {
        match self {
            Command::Ping => CommandModel::Ping,
            Command::SetKey(c) => CommandModel::SetKey(c.key@, c.value@, c.expiry_at),
            Command::Get(k) => CommandModel::Get(k@),
            Command::Echo(a) => CommandModel::Echo(a@),
            Command::Error(b) => CommandModel::Error(b@),
        }
    }
}

impl CommandError {
    pub open spec fn fault(&self) -> CommandFault {
        match self {
            CommandError::UnknownCommand(name) => CommandFault::UnknownCommand(name@),
            CommandError::BadLength(n) => CommandFault::BadArity(*n as int),
            CommandError::BadExpiry(text) => CommandFault::BadExpiry(text@),
        }
    }
}

pub open spec fn ascii_letter_of(c: char, lower: char) -> bool {
    c == lower || (65 <= c as u32 <= 90 && c as u32 + 32 == lower as u32)
}

/// `s` spells the lowercase word `lit`, ignoring ASCII case.
pub open spec fn is_name(s: Seq<char>, lit: Seq<char>) -> bool {
    s.len() == lit.len() && forall|i: int| 0 <= i < s.len() ==> ascii_letter_of(#[trigger] s[i], lit[i])
}

pub open spec fn bulk(v: Value) -> Option<Seq<char>> {
    match v {
        Value::BulkString(s) => Some(s),
        _ => None,
    }
}

/// The milliseconds argument of `PX`, read as `u64::from_str` reads it.
pub open spec fn millis_spec(s: Seq<char>) -> Option<u64> {
    if forall|i: int| 0 <= i < s.len() ==> (#[trigger] s[i] as u32) < 128 {
        parse_u64_spec(s.map_values(|c: char| c as u8))
    } else {
        None
    }
}

/// `now + ms`, or no expiry at all when that instant is past what a `u64`
/// holds.
pub open spec fn expiry_after(now: u64, ms: u64) -> Option<u64> {
    if now + ms <= u64::MAX {
        Some((now + ms) as u64)
    } else {
        None
    }
}

pub open spec fn decode_set(name: Seq<char>, items: Seq<Value>, now: u64) -> Result<CommandModel, CommandFault> {
    if items.len() != 3 && items.len() != 5 {
        Err(CommandFault::BadArity(items.len() - 1))
    } else if items.len() == 5 && !(bulk(items[3]) is Some && is_name(bulk(items[3])->0, "px"@)
        && bulk(items[4]) is Some) {
        Err(CommandFault::BadArity(items.len() - 1))
    } else if items.len() == 5 && millis_spec(bulk(items[4])->0) is None {
        Err(CommandFault::BadExpiry(bulk(items[4])->0))
    } else {
        match (bulk(items[1]), bulk(items[2])) {
            (Some(k), Some(v)) => Ok(
                CommandModel::SetKey(
                    k,
                    v,
                    if items.len() == 5 {
                        expiry_after(now, millis_spec(bulk(items[4])->0)->0)
                    } else {
                        None
                    },
                ),
            ),
            _ => Err(CommandFault::UnknownCommand(name)),
        }
    }
}

/// The command that a finished value denotes, at instant `now`.
pub open spec fn decode_command(v: Value, now: u64) -> Result<CommandModel, CommandFault> {
    match v {
        Value::Array(items) => if items.len() == 0 {
            Err(CommandFault::UnknownCommand(Seq::empty()))
        } else {
            match bulk(items[0]) {
                None => Err(CommandFault::UnknownCommand(Seq::empty())),
                Some(name) => if is_name(name, "ping"@) {
                    if items.len() == 1 {
                        Ok(CommandModel::Ping)
                    } else {
                        Err(CommandFault::BadArity(items.len() - 1))
                    }
                } else if is_name(name, "echo"@) {
                    if items.len() != 2 {
                        Err(CommandFault::BadArity(items.len() - 1))
                    } else {
                        match bulk(items[1]) {
                            Some(a) => Ok(CommandModel::Echo(a)),
                            None => Err(CommandFault::UnknownCommand(name)),
                        }
                    }
                } else if is_name(name, "get"@) {
                    if items.len() != 2 {
                        Err(CommandFault::BadArity(items.len() - 1))
                    } else {
                        match bulk(items[1]) {
                            Some(k) => Ok(CommandModel::Get(k)),
                            None => Err(CommandFault::UnknownCommand(name)),
                        }
                    }
                } else if is_name(name, "set"@) {
                    decode_set(name, items, now)
                } else {
                    Err(CommandFault::UnknownCommand(name))
                },
            }
        },
        _ => Err(CommandFault::UnknownCommand(Seq::empty())),
    }
}

pub open spec fn decode_agrees(r: Result<Command, CommandError>, s: Result<CommandModel, CommandFault>) -> bool {
    match (r, s) {
        (Ok(c), Ok(m)) => c.model() == m,
        (Err(e), Err(f)) => e.fault() == f,
        _ => false,
    }
}

/// Whether `s` spells the lowercase word `lit`, ignoring ASCII case.
fn is_command_name(s: &String, lit: &str) -> (r: bool)
    ensures
        r == is_name(s@, lit@),
{
    let n = s.as_str().unicode_len();
    if n != lit.unicode_len() {
        return false;
    }
    let mut i: usize = 0;
    while i < n
        invariant
            n == s@.len(),
            n == lit@.len(),
            i <= n,
            forall|j: int| 0 <= j < i ==> ascii_letter_of(#[trigger] s@[j], lit@[j]),
        decreases n - i,
    {
        let a = s.as_str().get_char(i);
        let b = lit.get_char(i);
        if !(a == b || (65 <= a as u32 && a as u32 <= 90 && a as u32 + 32 == b as u32)) {
            assert(!ascii_letter_of(s@[i as int], lit@[i as int]));
            return false;
        }
        i += 1;
    }
    true
}

/// Reads the milliseconds argument of `PX`, as `millis_spec` says.
fn parse_millis(s: &String) -> (r: Option<u64>)
    ensures
        r == millis_spec(s@),
{
    let n = s.as_str().unicode_len();
    let mut bytes: Vec<u8> = Vec::new();
    let mut i: usize = 0;
    while i < n
        invariant
            n == s@.len(),
            i <= n,
            forall|j: int| 0 <= j < i ==> (#[trigger] s@[j] as u32) < 128,
            bytes@ == s@.take(i as int).map_values(|c: char| c as u8),
        decreases n - i,
    {
        let c = s.as_str().get_char(i);
        if c as u32 >= 128 {
            return None;
        }
        bytes.push(c as u8);
        assert(s@.take(i + 1).map_values(|c: char| c as u8) == s@.take(i as int).map_values(|c: char| c as u8).push(c as u8));
        i += 1;
    }
    assert(s@.take(n as int) == s@);
    parse_u64(&bytes)
}

/// The text of item `i` when it is a bulk string.
fn bulk_at(items: &Vec<RespConcreteType>, i: usize) -> (r: Option<String>)
    requires
        i < items.len(),
    ensures
        match r {
            Some(s) => bulk(values_model(items, items.len() as int)[i as int]) == Some(s@),
            None => bulk(values_model(items, items.len() as int)[i as int]) is None,
        },
{
    proof {
        crate::resp::lemma_values_model_index(items, i as int);
    }
    match &items[i] {
        RespConcreteType::BulkString(s) => Some(s.clone()),
        _ => None,
    }
}

fn decode_set_items(name: String, items: &Vec<RespConcreteType>, now: u64) -> (r: Result<Command, CommandError>)
    requires
        items.len() >= 1,
    ensures
        decode_agrees(r, decode_set(name@, values_model(items, items.len() as int), now)),
{
    let ghost m = values_model(items, items.len() as int);
    proof {
        crate::resp::lemma_values_model_len(items, items.len() as int);
    }
    let n = items.len();
    if n != 3 && n != 5 {
        return Err(CommandError::BadLength(n - 1));
    }
    let mut expiry_at: Option<u64> = None;
    if n == 5 {
        let opt = bulk_at(items, 3);
        let ms_text = bulk_at(items, 4);
        let is_px = match &opt {
            Some(o) => is_command_name(o, "px"),
            None => false,
        };
        if !is_px || ms_text.is_none() {
            return Err(CommandError::BadLength(n - 1));
        }
        let ms_text = ms_text.unwrap();
        match parse_millis(&ms_text) {
            None => {
                return Err(CommandError::BadExpiry(ms_text));
            },
            Some(ms) => {
                expiry_at = now.checked_add(ms);
            },
        }
    }
    match (bulk_at(items, 1), bulk_at(items, 2)) {
        (Some(key), Some(value)) => Ok(Command::SetKey(SetCommand { key, value, expiry_at })),
        _ => Err(CommandError::UnknownCommand(name)),
    }
}

/// The command decoder: maps a finished value to the command it denotes, as
/// `decode_command` says. `now` is the current instant, from which a `PX`
/// expiry is made absolute.
pub fn parse_command(res: RespConcreteType, now: u64) -> (r: Result<Command, CommandError>)
    ensures
        decode_agrees(r, decode_command(res.model(), now)),
{
    let items = match res {
        RespConcreteType::Array(items) => items,
        _ => {
            return Err(CommandError::UnknownCommand(String::new()));
        },
    };
    let ghost m = values_model(&items, items.len() as int);
    proof {
        crate::resp::lemma_values_model_len(&items, items.len() as int);
    }
    let n = items.len();
    if n == 0 {
        return Err(CommandError::UnknownCommand(String::new()));
    }
    let name = match bulk_at(&items, 0) {
        Some(name) => name,
        None => {
            return Err(CommandError::UnknownCommand(String::new()));
        },
    };
    if is_command_name(&name, "ping") {
        if n == 1 {
            Ok(Command::Ping)
        } else {
            Err(CommandError::BadLength(n - 1))
        }
    } else if is_command_name(&name, "echo") {
        if n != 2 {
            Err(CommandError::BadLength(n - 1))
        } else {
            match bulk_at(&items, 1) {
                Some(a) => Ok(Command::Echo(a)),
                None => Err(CommandError::UnknownCommand(name)),
            }
        }
    } else if is_command_name(&name, "get") {
        if n != 2 {
            Err(CommandError::BadLength(n - 1))
        } else {
            match bulk_at(&items, 1) {
                Some(k) => Ok(Command::Get(k)),
                None => Err(CommandError::UnknownCommand(name)),
            }
        }
    } else if is_command_name(&name, "set") {
        decode_set_items(name, &items, now)
    } else {
        Err(CommandError::UnknownCommand(name))
    }
}

} // verus!
