//! The key-value store with lazy expiry, and the command executor.
use crate::command::{Command, CommandModel, SetCommand};
use vstd::hash_map::StringHashMap;
use vstd::prelude::*;
use vstd::string::StringSliceAdditionalSpecFns;
use vstd::utf8::encode_utf8;

verus! {

/// A stored value and the instant (milliseconds since the Unix epoch) from
/// which it is no longer visible, if any.
#[derive(Debug)]
pub struct StorageValue {
    pub value: String,
    pub expiry_at: Option<u64>,
}

/// The mapping from key to stored value. Expired entries are never removed;
/// they are only hidden from `get`, until a `set` overwrites them.
pub struct Store {
    pub entries: StringHashMap<StorageValue>,
}

/// A stored entry seen through the model: its value and its expiry.
pub type EntryModel = (Seq<char>, Option<u64>);

impl View for Store {
    type V = Map<Seq<char>, EntryModel>;

    open spec fn view(&self) -> Map<Seq<char>, EntryModel> {
        self.entries@.map_values(|e: StorageValue| (e.value@, e.expiry_at))
    }
}

/// An entry with expiry `e` is hidden from instant `e` on.
pub open spec fn expired(expiry_at: Option<u64>, now: u64) -> bool {
    match expiry_at {
        Some(t) => now >= t,
        None => false,
    }
}

/// What `GET key` sees at instant `now`.
pub open spec fn visible(m: Map<Seq<char>, EntryModel>, key: Seq<char>, now: u64) -> Option<Seq<char>> {
    if m.contains_key(key) && !expired(m[key].1, now) {
        Some(m[key].0)
    } else {
        None
    }
}

impl Store {
    /// An empty store.
    pub fn new() -> (r: Store)
        ensures
            r@ == Map::<Seq<char>, EntryModel>::empty(),
    {
        let r = Store { entries: StringHashMap::new() };
        assert(r@ =~= Map::<Seq<char>, EntryModel>::empty());
        r
    }

    /// Inserts or replaces the entry for `key`.
    pub fn set(&mut self, key: String, value: String, expiry_at: Option<u64>)
        ensures
            final(self)@ == old(self)@.insert(key@, (value@, expiry_at)),
    {
        let ghost k = key@;
        let ghost e = (value@, expiry_at);
        self.entries.insert(key, StorageValue { value, expiry_at });
        assert(self@ =~= old(self)@.insert(k, e));
    }

    /// The value of `key` at instant `now`: absent when there is no entry or
    /// it has expired. The entry itself is left in place.
    pub fn get(&self, key: &String, now: u64) -> (r: Option<String>)
        ensures
            match r {
                Some(s) => visible(self@, key@, now) == Some(s@),
                None => visible(self@, key@, now) is None,
            },
    {
        match self.entries.get(key.as_str()) {
            Some(entry) => {
                let hidden = match entry.expiry_at {
                    Some(t) => now >= t,
                    None => false,
                };
                if hidden {
                    None
                } else {
                    Some(entry.value.clone())
                }
            },
            None => None,
        }
    }

    /// Whether the store holds an entry for `key`, expired or not.
    pub fn contains_key(&self, key: &String) -> (r: bool)
        ensures
            r == self@.contains_key(key@),
    {
        self.entries.contains_key(key.as_str())
    }

    /// The number of entries, expired ones included.
    pub fn len(&self) -> (r: usize)
        ensures
            r == self@.len(),
    {
        assert(self@.dom() =~= self.entries@.dom());
        self.entries.len()
    }
}

// ---------------------------------------------------------------------------
// Replies.
/// The decimal digits of `n`.
pub open spec fn decimal_spec(n: nat) -> Seq<u8>
    decreases n,
{
    if n < 10 {
        seq![(48 + n) as u8]
    } else {
        decimal_spec(n / 10).push((48 + n % 10) as u8)
    }
}

pub open spec fn crlf() -> Seq<u8> {
    seq![13u8, 10u8]
}

/// `$<byte length>\r\n<bytes>\r\n`.
pub open spec fn bulk_reply(s: Seq<char>) -> Seq<u8> {
    seq![36u8] + decimal_spec(encode_utf8(s).len()) + crlf() + encode_utf8(s) + crlf()
}

/// `$-1\r\n`, the null bulk string.
pub open spec fn null_reply() -> Seq<u8> {
    seq![36u8, 45u8, 49u8, 13u8, 10u8]
}

/// `+PONG\r\n`.
pub open spec fn pong_reply() -> Seq<u8> {
    seq![43u8, 80u8, 79u8, 78u8, 71u8, 13u8, 10u8]
}

/// `+OK\r\n`.
pub open spec fn ok_reply() -> Seq<u8> {
    seq![43u8, 79u8, 75u8, 13u8, 10u8]
}

/// `+Invalid Command\r\n`, the one reply to every request that is not a valid
/// command.
pub open spec fn invalid_reply() -> Seq<u8> {
    seq![43u8, 73u8, 110u8, 118u8, 97u8, 108u8, 105u8, 100u8, 32u8, 67u8, 111u8, 109u8, 109u8, 97u8, 110u8, 100u8, 13u8, 10u8]
}

/// The reply to a command run against a store `m` at instant `now`.
pub open spec fn reply_spec(c: CommandModel, m: Map<Seq<char>, EntryModel>, now: u64) -> Seq<u8> {
    match c {
        CommandModel::Ping => pong_reply(),
        CommandModel::Echo(a) => bulk_reply(a),
        CommandModel::Get(k) => match visible(m, k, now) {
            Some(v) => bulk_reply(v),
            None => null_reply(),
        },
        CommandModel::SetKey(..) => ok_reply(),
        CommandModel::Error(b) => b,
    }
}

/// The store after a command: only `SET` changes it.
pub open spec fn store_after(c: CommandModel, m: Map<Seq<char>, EntryModel>) -> Map<Seq<char>, EntryModel> {
    match c {
        CommandModel::SetKey(k, v, e) => m.insert(k, (v, e)),
        _ => m,
    }
}

/// The digits of `n`, as `decimal_spec` says.
fn decimal_bytes(n: usize) -> (r: Vec<u8>)
    ensures
        r@ == decimal_spec(n as nat),
    decreases n,
{
    if n < 10 {
        let mut v: Vec<u8> = Vec::new();
        v.push((48 + n) as u8);
        assert(v@ == seq![(48 + n) as u8]);
        v
    } else {
        let mut v = decimal_bytes(n / 10);
        v.push((48 + n % 10) as u8);
        v
    }
}

fn push_bytes(out: &mut Vec<u8>, bytes: &[u8])
    ensures
        final(out)@ == old(out)@ + bytes@,
{
    let mut i: usize = 0;
    while i < bytes.len()
        invariant
            i <= bytes@.len(),
            out@ == old(out)@ + bytes@.take(i as int),
        decreases bytes@.len() - i,
    {
        assert(bytes@.take(i + 1) == bytes@.take(i as int).push(bytes@[i as int]));
        out.push(bytes[i]);
        i += 1;
    }
    assert(bytes@.take(i as int) == bytes@);
}

/// The reply that carries `s` as a bulk string.
fn bulk_bytes(s: &String) -> (r: Vec<u8>)
    ensures
        r@ == bulk_reply(s@),
{
    let bytes = s.as_str().as_bytes();
    let mut out: Vec<u8> = Vec::new();
    out.push(36u8);
    let digits = decimal_bytes(bytes.len());
    push_bytes(&mut out, digits.as_slice());
    out.push(13u8);
    out.push(10u8);
    push_bytes(&mut out, bytes);
    out.push(13u8);
    out.push(10u8);
    assert(out@ == bulk_reply(s@));
    out
}

/// `+Invalid Command\r\n`, as bytes.
pub fn invalid_command_reply() -> (r: Vec<u8>)
    ensures
        r@ == invalid_reply(),
{
    let r: Vec<u8> = vec![43u8, 73u8, 110u8, 118u8, 97u8, 108u8, 105u8, 100u8, 32u8, 67u8, 111u8, 109u8, 109u8, 97u8, 110u8, 100u8, 13u8, 10u8];
    assert(r@ == invalid_reply());
    r
}

/// The command executor: runs `command` against the store at instant `now`
/// and returns the reply. Only `SET` changes the store.
pub fn handle_command(command: Command, store: &mut Store, now: u64) -> (r: Vec<u8>)
    ensures
        r@ == reply_spec(command.model(), old(store)@, now),
        final(store)@ == store_after(command.model(), old(store)@),
{
    match command {
        Command::Ping => {
            let r: Vec<u8> = vec![43u8, 80u8, 79u8, 78u8, 71u8, 13u8, 10u8];
            assert(r@ == pong_reply());
            r
        },
        Command::Echo(arg) => bulk_bytes(&arg),
        Command::Error(bytes) => bytes,
        Command::SetKey(SetCommand { key, value, expiry_at }) => {
            store.set(key, value, expiry_at);
            let r: Vec<u8> = vec![43u8, 79u8, 75u8, 13u8, 10u8];
            assert(r@ == ok_reply());
            r
        },
        Command::Get(key) => match store.get(&key, now) {
            Some(value) => bulk_bytes(&value),
            None => {
                let r: Vec<u8> = vec![36u8, 45u8, 49u8, 13u8, 10u8];
                assert(r@ == null_reply());
                r
            },
        },
    }
}

} // verus!
