//! One connection's decisions: decoding what has arrived, running each
//! finished command in order, and keeping the continuation between reads.
use crate::buffer::{buf_len, contents};
use crate::command::{bulk, decode_command, is_name, parse_command, Command, CommandFault, CommandModel};
use crate::model::{feed, shift, Cont, Outcome, Value, LF};
use crate::resp::{opt_model, parse, Resp, RespError, RespTypePartialable};
use crate::store::{
    handle_command, invalid_command_reply, invalid_reply, null_reply, reply_spec,
    store_after, visible, EntryModel, Store,
};
use bytes::BytesMut;
use vstd::prelude::*;

verus! {

/// The command a finished value stands for: a value that is no valid command
/// stands for the generic error reply.
pub open spec fn command_for(v: Value, now: u64) -> CommandModel {
    match decode_command(v, now) {
        Ok(c) => c,
        Err(_) => CommandModel::Error(invalid_reply()),
    }
}

/// What serving a chunk of bytes comes to: the replies, in order, the
/// continuation left for the next read, the store, and the framing error that
/// ends the connection, if one came.
pub struct Served {
    pub replies: Seq<u8>,
    pub cont: Option<Cont>,
    pub store: Map<Seq<char>, EntryModel>,
    pub error: Option<RespError>,
}

/// Serving the bytes `s` that arrived with continuation `c` and store `m` at
/// instant `now`: each finished value is run as a command and answered, in the
/// order of arrival, until the bytes run out or a framing error comes.
pub open spec fn serve_spec(c: Option<Cont>, s: Seq<u8>, m: Map<Seq<char>, EntryModel>, now: u64) -> Served
    decreases s.len(), if c is Some {
        1int
    } else {
        0int
    },
{
    if s.len() == 0 {
        Served { replies: Seq::empty(), cont: c, store: m, error: None }
    } else {
        match feed(c, s) {
            Outcome::Failed(e, _) => Served { replies: Seq::empty(), cont: None, store: m, error: Some(e) },
            Outcome::Pending(c2) => Served { replies: Seq::empty(), cont: c2, store: m, error: None },
            Outcome::Finished(v, n) => if n <= s.len() && (1 <= n || c is Some) {
                let cmd = command_for(v, now);
                let rest = serve_spec(None, s.skip(n as int), store_after(cmd, m), now);
                Served { replies: reply_spec(cmd, m, now) + rest.replies, ..rest }
            } else {
                Served { replies: Seq::empty(), cont: None, store: m, error: None }
            },
        }
    }
}

pub open spec fn after_replies(prefix: Seq<u8>, o: Served) -> Served {
    Served { replies: prefix + o.replies, ..o }
}

/// Decodes `v` as a command and runs it; a value that is no valid command
/// gets the generic error reply and leaves the store alone.
pub fn respond(v: crate::resp::RespConcreteType, store: &mut Store, now: u64) -> (r: Vec<u8>)
    ensures
        r@ == reply_spec(command_for(v.model(), now), old(store)@, now),
        final(store)@ == store_after(command_for(v.model(), now), old(store)@),
{
    let command = match parse_command(v, now) {
        Ok(c) => c,
        Err(_) => Command::Error(invalid_command_reply()),
    };
    handle_command(command, store, now)
}

/// Serves everything that has arrived in `buf`: decodes value after value,
/// resuming the continuation in `partial`, runs each as a command, and
/// returns the replies in order together with the framing error, if one
/// came. On return without error the buffer is drained and `partial` holds
/// what is left for the next read.
pub fn process(
    buf: &mut BytesMut,
    partial: &mut Option<RespTypePartialable>,
    store: &mut Store,
    now: u64,
) -> (r: (Vec<u8>, Option<RespError>))
    ensures
        ({
            let o = serve_spec(opt_model(*old(partial)), contents(*old(buf)), old(store)@, now);
            &&& r.0@ == o.replies
            &&& r.1 == o.error
            &&& final(store)@ == o.store
            &&& r.1 is None ==> opt_model(*final(partial)) == o.cont && contents(*final(buf)).len() == 0
        }),
{
    let ghost goal = serve_spec(opt_model(*partial), contents(*buf), store@, now);
    let mut out: Vec<u8> = Vec::new();
    loop
        invariant
            goal == serve_spec(opt_model(*old(partial)), contents(*old(buf)), old(store)@, now),
            goal == after_replies(out@, serve_spec(opt_model(*partial), contents(*buf), store@, now)),
        decreases contents(*buf).len(), if *partial is Some {
            1int
        } else {
            0int
        },
    {
        if buf_len(buf) == 0 {
            assert(out@ + Seq::<u8>::empty() == out@);
            return (out, None);
        }
        let ghost before = contents(*buf);
        let ghost m = store@;
        let p = partial.take();
        proof {
            crate::model::lemma_feed_consumed(opt_model(p), before);
        }
        match parse(buf, p) {
            Err(e) => {
                assert(out@ + Seq::<u8>::empty() == out@);
                return (out, Some(e));
            },
            Ok(Resp::Partial(c)) => {
                *partial = Some(c);
                assert(out@ + Seq::<u8>::empty() == out@);
            },
            Ok(Resp::Empty) => {
                assert(out@ + Seq::<u8>::empty() == out@);
            },
            Ok(Resp::Concrete(v)) => {
                let reply = respond(v, store, now);
                let ghost prev = out@;
                let mut reply = reply;
                out.append(&mut reply);
                assert(out@ + serve_spec(None, contents(*buf), store@, now).replies == prev + (reply_spec(
                    command_for(v.model(), now),
                    m,
                    now,
                ) + serve_spec(None, contents(*buf), store@, now).replies));
            },
        }
    }
}

/// A line feed between values changes nothing.
proof fn lemma_serve_skips_lf(s: Seq<u8>, m: Map<Seq<char>, EntryModel>, now: u64)
    requires
        s.len() > 0,
        s[0] == LF,
    ensures
        serve_spec(None, s, m, now) == serve_spec(None, s.drop_first(), m, now),
{
    let r = s.drop_first();
    assert(feed(None, s) == shift(feed(None, r), 1));
    if r.len() > 0 {
        crate::model::lemma_feed_consumed(None, r);
        match feed(None, r) {
            Outcome::Finished(v, k) => {
                assert(s.skip((k + 1) as int) == r.skip(k as int));
            },
            _ => {},
        }
    }
}

/// Fragmentation invariance for a connection: serving `a + b` from one read
/// is serving `a`, then `b` with the continuation and the store that `a`
/// left. The replies are the same bytes and the store ends the same, wherever
/// the stream was cut; a framing error inside `a` ends both alike.
#[verifier::rlimit(50)]
pub proof fn lemma_serve_split(c: Option<Cont>, a: Seq<u8>, b: Seq<u8>, m: Map<Seq<char>, EntryModel>, now: u64)
    ensures
        ({
            let first = serve_spec(c, a, m, now);
            if first.error is Some {
                serve_spec(c, a + b, m, now) == first
            } else {
                serve_spec(c, a + b, m, now) == after_replies(
                    first.replies,
                    serve_spec(first.cont, b, first.store, now),
                )
            }
        }),
    decreases a.len(), if c is Some {
        1int
    } else {
        0int
    },
{
    let whole = a + b;
    if a.len() == 0 {
        assert(whole == b);
        assert(Seq::<u8>::empty() + serve_spec(c, b, m, now).replies == serve_spec(c, b, m, now).replies);
    } else {
        crate::model::lemma_feed_consumed(c, a);
        crate::model::lemma_feed_consumed(c, whole);
        match feed(c, a) {
            Outcome::Failed(e, k) => {
                crate::model::lemma_feed_failed_prefix(c, a, b);
            },
            Outcome::Pending(c2) => {
                crate::model::lemma_feed_split(c, a, b);
                if b.len() == 0 {
                    assert(whole == a);
                } else {
                    crate::model::lemma_feed_consumed(c2, b);
                    match feed(c2, b) {
                        Outcome::Finished(v, k) => {
                            assert(whole.skip((k + a.len()) as int) == b.skip(k as int));
                        },
                        _ => {},
                    }
                }
                assert(Seq::<u8>::empty() + serve_spec(c2, b, m, now).replies == serve_spec(c2, b, m, now).replies);
            },
            Outcome::Finished(v, k) => {
                crate::model::lemma_feed_finished_prefix(c, a, b);
                let cmd = command_for(v, now);
                let m1 = store_after(cmd, m);
                let tail = a.skip(k as int);
                lemma_serve_split(None, tail, b, m1, now);
                let k2 = feed(c, whole)->Finished_1;
                if k2 == k {
                    assert(whole.skip(k as int) == tail + b);
                } else {
                    assert(tail.len() == 0);
                    assert(tail + b == b);
                    assert(whole.skip(k2 as int) == b.drop_first());
                    lemma_serve_skips_lf(b, m1, now);
                }
                let first = serve_spec(None, tail, m1, now);
                if first.error is None {
                    let second = serve_spec(first.cont, b, first.store, now);
                    assert(reply_spec(cmd, m, now) + (first.replies + second.replies) == (reply_spec(cmd, m, now)
                        + first.replies) + second.replies);
                }
            },
        }
    }
}

/// Pipelining: two complete commands that arrive in one read get exactly one
/// reply each, in the order they came, and leave nothing pending.
pub proof fn lemma_pipelining(a: Seq<u8>, b: Seq<u8>, m: Map<Seq<char>, EntryModel>, now: u64)
    requires
        feed(None, a) is Finished,
        feed(None, a)->Finished_1 == a.len(),
        a.len() > 0,
        a.last() == LF,
        feed(None, b) is Finished,
        feed(None, b)->Finished_1 == b.len(),
    ensures
        ({
            let c1 = command_for(feed(None, a)->Finished_0, now);
            let m1 = store_after(c1, m);
            let c2 = command_for(feed(None, b)->Finished_0, now);
            serve_spec(None, a + b, m, now) == Served {
                replies: reply_spec(c1, m, now) + reply_spec(c2, m1, now),
                cont: None,
                store: store_after(c2, m1),
                error: None,
            }
        }),
{
    crate::model::lemma_feed_finished_at_lf(None, a, b);
    crate::model::lemma_feed_consumed(None, b);
    assert((a + b).skip(a.len() as int) == b);
    assert(b.skip(b.len() as int).len() == 0);
    let c1 = command_for(feed(None, a)->Finished_0, now);
    let c2 = command_for(feed(None, b)->Finished_0, now);
    let m1 = store_after(c1, m);
    let (v1, n1) = (feed(None, a)->Finished_0, feed(None, a)->Finished_1);
    assert(feed(None, a + b) == Outcome::Finished(v1, n1));
    let rest = serve_spec(None, b, m1, now);
    assert(serve_spec(None, b.skip(b.len() as int), store_after(c2, m1), now) == Served {
        replies: Seq::empty(),
        cont: None,
        store: store_after(c2, m1),
        error: None,
    });
    assert(rest.replies == reply_spec(c2, m1, now) + Seq::<u8>::empty());
    assert(reply_spec(c2, m1, now) + Seq::<u8>::empty() == reply_spec(c2, m1, now));
    assert(serve_spec(None, a + b, m, now).replies == reply_spec(c1, m, now) + rest.replies);
}

/// Expiry: after `SET k v PX ms` at instant `t`, `GET k` sees `v` before
/// `t + ms` and the null reply from `t + ms` on; the entry stays in the store
/// all the same, and a later `SET k v2` is seen again.
pub proof fn lemma_expiry(
    m: Map<Seq<char>, EntryModel>,
    k: Seq<char>,
    v: Seq<char>,
    v2: Seq<char>,
    t: u64,
    ms: u64,
    now: u64,
)
    requires
        t + ms <= u64::MAX,
    ensures
        ({
            let m1 = store_after(CommandModel::SetKey(k, v, crate::command::expiry_after(t, ms)), m);
            let m2 = store_after(CommandModel::SetKey(k, v2, None), m1);
            &&& t <= now < t + ms ==> visible(m1, k, now) == Some(v)
            &&& t + ms <= now ==> visible(m1, k, now) is None && reply_spec(CommandModel::Get(k), m1, now)
                == null_reply()
            &&& m1.contains_key(k)
            &&& visible(m2, k, now) == Some(v2)
        }),
{
}

/// Arity: `GET` without exactly one key, and `SET` without at least a key and
/// a value, are no valid command: they get the generic error reply and leave
/// the store alone.
pub proof fn lemma_arity_rejected(items: Seq<Value>, m: Map<Seq<char>, EntryModel>, now: u64)
    requires
        items.len() >= 1,
        bulk(items[0]) is Some,
        (is_name(bulk(items[0])->0, "get"@) && items.len() != 2) || (is_name(bulk(items[0])->0, "set"@)
            && items.len() < 3),
    ensures
        decode_command(Value::Array(items), now) is Err,
        reply_spec(command_for(Value::Array(items), now), m, now) == invalid_reply(),
        store_after(command_for(Value::Array(items), now), m) == m,
{
    reveal_strlit("get");
    reveal_strlit("set");
    reveal_strlit("ping");
    reveal_strlit("echo");
    let name = bulk(items[0])->0;
    if is_name(name, "get"@) {
        assert(!is_name(name, "ping"@));
        assert(!is_name(name, "echo"@));
        assert(crate::command::ascii_letter_of(name[0], "get"@[0]));
        assert(!is_name(name, "set"@));
        assert(items.len() != 2);
        assert(decode_command(Value::Array(items), now) == Err::<CommandModel, CommandFault>(CommandFault::BadArity(items.len() - 1)));
    } else {
        assert(!is_name(name, "ping"@));
        assert(!is_name(name, "echo"@));
        assert(crate::command::ascii_letter_of(name[0], "set"@[0]));
        assert(!is_name(name, "get"@));
        assert(is_name(name, "set"@));
        assert(items.len() != 0);
        assert(crate::command::decode_set(name, items, now) == Err::<CommandModel, CommandFault>(CommandFault::BadArity(items.len() - 1)));
        assert(decode_command(Value::Array(items), now) == crate::command::decode_set(name, items, now));
    }
}

} // verus!
