//! The byte-level model of RESP decoding and its laws.
//!
//! `step` moves an unfinished value over one byte and `feed` runs it over a
//! chunk. The decoders in `resp` are proved to compute `feed`; the laws here
//! say what follows from that: a stream decodes the same wherever it is cut.
use crate::decimal::parse_i64_spec;
use crate::resp::RespError;
use vstd::prelude::*;
use vstd::utf8::{decode_utf8, valid_utf8};

verus! {

// ---------------------------------------------------------------------------
// The byte-level model of decoding.
pub const CR: u8 = 13;

pub const LF: u8 = 10;

/// A finished value.
pub enum Value {
    Array(Seq<Value>),
    Int(i64),
    BulkString(Seq<char>),
}

/// A declared length or count.
pub enum Length {
    Pending(Seq<u8>),
    Known(i64),
}

/// The model of a continuation.
pub enum Cont {
    Array(Length, Seq<Value>, Option<Box<Cont>>),
    Int(Seq<u8>),
    BulkString(Length, Seq<u8>),
}

/// What one byte does to a continuation.
pub enum Stepped {
    Done(Value),
    More(Cont),
}

/// What one byte does to a declared length that is still being read.
pub enum LengthStep {
    Read(i64),
    Reading(Seq<u8>),
}

/// The first byte of a value: its type marker. A line feed is skipped.
pub open spec fn start(b: u8) -> Result<Option<Cont>, RespError> {
    if b == LF {
        Ok(None)
    } else if b == 42 {
        Ok(Some(Cont::Array(Length::Pending(Seq::empty()), Seq::empty(), None)))
    } else if b == 58 {
        Ok(Some(Cont::Int(Seq::empty())))
    } else if b == 36 {
        Ok(Some(Cont::BulkString(Length::Pending(Seq::empty()), Seq::empty())))
    } else {
        Err(RespError::UnknownStartingByte(b))
    }
}

/// One byte of a token: a carriage return ends it; a line feed before the
/// token's first byte is skipped (the second half of the terminator before
/// it); any other byte is kept.
pub open spec fn step_token(acc: Seq<u8>, b: u8) -> Option<Seq<u8>> {
    if b == CR {
        None
    } else if b == LF && acc.len() == 0 {
        Some(acc)
    } else {
        Some(acc.push(b))
    }
}

pub open spec fn step_length(digits: Seq<u8>, b: u8) -> Result<LengthStep, RespError> {
    match step_token(digits, b) {
        Some(d) => Ok(LengthStep::Reading(d)),
        None => match parse_i64_spec(digits) {
            Some(n) => Ok(LengthStep::Read(n)),
            None => Err(RespError::IntParseFailure),
        },
    }
}

/// One byte fed to an unfinished value.
pub open spec fn step(c: Cont, b: u8) -> Result<Stepped, RespError>
    decreases c,
{
    match c {
        Cont::Int(digits) => match step_token(digits, b) {
            Some(d) => Ok(Stepped::More(Cont::Int(d))),
            None => match parse_i64_spec(digits) {
                Some(n) => Ok(Stepped::Done(Value::Int(n))),
                None => Err(RespError::IntParseFailure),
            },
        },
        Cont::BulkString(Length::Pending(digits), bytes) => match step_length(digits, b) {
            Err(e) => Err(e),
            Ok(LengthStep::Reading(d)) => Ok(Stepped::More(Cont::BulkString(Length::Pending(d), bytes))),
            Ok(LengthStep::Read(n)) => if n < 0 {
                Err(RespError::BadBulkStringSize(n))
            } else {
                // The payload starts once its length is read.
                Ok(Stepped::More(Cont::BulkString(Length::Known(n), Seq::empty())))
            },
        },
        Cont::BulkString(Length::Known(n), bytes) => match step_token(bytes, b) {
            Some(t) => Ok(Stepped::More(Cont::BulkString(Length::Known(n), t))),
            None => if bytes.len() != n {
                Err(RespError::BadBulkStringSize(n))
            } else if valid_utf8(bytes) {
                Ok(Stepped::Done(Value::BulkString(decode_utf8(bytes))))
            } else {
                Err(RespError::StringParseFailure)
            },
        },
        Cont::Array(Length::Pending(digits), items, item) => match step_length(digits, b) {
            Err(e) => Err(e),
            Ok(LengthStep::Reading(d)) => Ok(Stepped::More(Cont::Array(Length::Pending(d), items, item))),
            Ok(LengthStep::Read(n)) => if n < 0 {
                Err(RespError::BadArraySize(n))
            } else if n == 0 {
                Ok(Stepped::Done(Value::Array(Seq::empty())))
            } else {
                Ok(Stepped::More(Cont::Array(Length::Known(n), Seq::empty(), None)))
            },
        },
        Cont::Array(Length::Known(n), items, None) => match start(b) {
            Err(e) => Err(e),
            Ok(next) => Ok(Stepped::More(Cont::Array(Length::Known(n), items, match next {
                Some(c2) => Some(Box::new(c2)),
                None => None,
            }))),
        },
        Cont::Array(Length::Known(n), items, Some(inner)) => match step(*inner, b) {
            Err(e) => Err(e),
            Ok(Stepped::More(c2)) => Ok(Stepped::More(Cont::Array(Length::Known(n), items, Some(Box::new(c2))))),
            Ok(Stepped::Done(v)) => if items.len() + 1 >= n {
                Ok(Stepped::Done(Value::Array(items.push(v))))
            } else {
                Ok(Stepped::More(Cont::Array(Length::Known(n), items.push(v), None)))
            },
        },
    }
}

/// The result of feeding a chunk of bytes to the decoder. `Finished` and
/// `Failed` carry how many bytes were consumed; `Pending` consumed them all.
pub enum Outcome {
    Finished(Value, nat),
    Pending(Option<Cont>),
    Failed(RespError, nat),
}

/// 1 when `s` starts with a line feed: the second half of a terminator,
/// consumed along with the value it ends.
pub open spec fn lf_len(s: Seq<u8>) -> nat {
    if s.len() > 0 && s[0] == LF {
        1
    } else {
        0
    }
}

/// What a failure consumes after the failing byte: every failure but an
/// unknown type marker comes at a token's carriage return, and takes the line
/// feed right after it along.
pub open spec fn fail_lf_len(e: RespError, rest: Seq<u8>) -> nat {
    if e is UnknownStartingByte {
        0
    } else {
        lf_len(rest)
    }
}

pub open spec fn shift(o: Outcome, k: nat) -> Outcome {
    match o {
        Outcome::Finished(v, n) => Outcome::Finished(v, n + k),
        Outcome::Pending(c) => Outcome::Pending(c),
        Outcome::Failed(e, n) => Outcome::Failed(e, n + k),
    }
}

/// One byte fed to the decoder, which may not have started a value yet.
pub open spec fn step_opt(c: Option<Cont>, b: u8) -> Result<Result<Value, Option<Cont>>, RespError> {
    match c {
        None => match start(b) {
            Ok(next) => Ok(Err(next)),
            Err(e) => Err(e),
        },
        Some(c) => match step(c, b) {
            Ok(Stepped::Done(v)) => Ok(Ok(v)),
            Ok(Stepped::More(c2)) => Ok(Err(Some(c2))),
            Err(e) => Err(e),
        },
    }
}

/// A continuation before any byte is read. An array that already holds its
/// full count is finished as it stands; one whose item in progress is finished
/// takes that item in. `Ok` is a value finished without reading a byte.
pub open spec fn settle(c: Cont) -> Result<Value, Cont>
    decreases c,
{
    match c {
        Cont::Array(Length::Known(n), items, None) => if items.len() >= n {
            Ok(Value::Array(items))
        } else {
            Err(c)
        },
        Cont::Array(Length::Known(n), items, Some(inner)) => match settle(*inner) {
            Ok(v) => if items.len() + 1 >= n {
                Ok(Value::Array(items.push(v)))
            } else {
                Err(Cont::Array(Length::Known(n), items.push(v), None))
            },
            Err(inner2) => Err(Cont::Array(Length::Known(n), items, Some(Box::new(inner2)))),
        },
        _ => Err(c),
    }
}

pub open spec fn settle_opt(c: Option<Cont>) -> Result<Value, Option<Cont>> {
    match c {
        None => Err(None),
        Some(x) => match settle(x) {
            Ok(v) => Ok(v),
            Err(x2) => Err(Some(x2)),
        },
    }
}

/// Bytes fed one at a time, until a value is finished or the decoding fails.
pub open spec fn feed(c: Option<Cont>, s: Seq<u8>) -> Outcome
    decreases s.len(),
{
    match settle_opt(c) {
        Ok(v) => Outcome::Finished(v, 0),
        Err(c1) => if s.len() == 0 {
            Outcome::Pending(c1)
        } else {
            match step_opt(c1, s[0]) {
                Err(e) => Outcome::Failed(e, 1 + fail_lf_len(e, s.drop_first())),
                Ok(Ok(v)) => Outcome::Finished(v, 1 + lf_len(s.drop_first())),
                Ok(Err(c2)) => shift(feed(c2, s.drop_first()), 1),
            }
        },
    }
}

/// Settling twice is settling once.
pub(crate) proof fn lemma_settle_idem(c: Cont)
    ensures
        settle(c) is Err ==> settle(settle(c)->Err_0) == settle(c),
    decreases c,
{
    match c {
        Cont::Array(Length::Known(n), items, Some(inner)) => {
            lemma_settle_idem(*inner);
        },
        _ => {},
    }
}

pub(crate) proof fn lemma_settle_opt_idem(c: Option<Cont>)
    ensures
        settle_opt(c) is Err ==> settle_opt(settle_opt(c)->Err_0) == settle_opt(c),
{
    match c {
        Some(x) => lemma_settle_idem(x),
        None => {},
    }
}

// ---------------------------------------------------------------------------
// Laws of the model.
pub(crate) proof fn lemma_shift_shift(o: Outcome, j: nat, k: nat)
    ensures
        shift(shift(o, j), k) == shift(o, j + k),
{
}

/// Splitting the input changes nothing: while the first part leaves the value
/// unfinished, feeding `a + b` at once is feeding `a`, then feeding `b` to the
/// continuation that `a` left. Applied at each split, this covers a stream cut
/// at any set of offsets, one byte at a time included.
pub proof fn lemma_feed_split(c: Option<Cont>, a: Seq<u8>, b: Seq<u8>)
    requires
        feed(c, a) is Pending,
    ensures
        feed(c, a + b) == shift(feed(feed(c, a)->Pending_0, b), a.len()),
    decreases a.len(),
{
    lemma_settle_opt_idem(c);
    let c1 = settle_opt(c)->Err_0;
    if a.len() == 0 {
        assert(a + b == b);
        assert(feed(c1, b) == feed(c, b));
        assert(shift(feed(c, b), 0) == feed(c, b));
    } else {
        assert((a + b)[0] == a[0]);
        assert((a + b).drop_first() == a.drop_first() + b);
        match step_opt(c1, a[0]) {
            Ok(Err(c2)) => {
                lemma_feed_split(c2, a.drop_first(), b);
                lemma_shift_shift(feed(feed(c2, a.drop_first())->Pending_0, b), (a.len() - 1) as nat, 1);
            },
            _ => {},
        }
    }
}

/// A value finished by a chunk does not depend on what comes after it; only
/// a line feed right after the chunk may be consumed with it.
pub proof fn lemma_feed_finished_prefix(c: Option<Cont>, a: Seq<u8>, b: Seq<u8>)
    requires
        feed(c, a) is Finished,
    ensures
        feed(c, a + b) is Finished,
        feed(c, a + b)->Finished_0 == feed(c, a)->Finished_0,
        feed(c, a)->Finished_1 < a.len() ==> feed(c, a + b) == feed(c, a),
        feed(c, a + b)->Finished_1 == feed(c, a)->Finished_1 || (feed(c, a)->Finished_1 == a.len()
            && feed(c, a + b)->Finished_1 == a.len() + 1 && b.len() > 0 && b[0] == LF),
    decreases a.len(),
{
    if settle_opt(c) is Err {
        let c1 = settle_opt(c)->Err_0;
        assert((a + b)[0] == a[0]);
        assert((a + b).drop_first() == a.drop_first() + b);
        match step_opt(c1, a[0]) {
            Ok(Err(c2)) => {
                lemma_feed_finished_prefix(c2, a.drop_first(), b);
            },
            Ok(Ok(v)) => {
                if a.len() > 1 {
                    assert((a + b).drop_first()[0] == a.drop_first()[0]);
                } else if b.len() > 0 {
                    assert((a + b).drop_first()[0] == b[0]);
                }
            },
            _ => {},
        }
    }
}

/// A failure within a chunk does not depend on what comes after it.
pub proof fn lemma_feed_failed_prefix(c: Option<Cont>, a: Seq<u8>, b: Seq<u8>)
    requires
        feed(c, a) is Failed,
    ensures
        feed(c, a + b) is Failed,
        feed(c, a + b)->Failed_0 == feed(c, a)->Failed_0,
    decreases a.len(),
{
    let c1 = settle_opt(c)->Err_0;
    assert((a + b)[0] == a[0]);
    assert((a + b).drop_first() == a.drop_first() + b);
    match step_opt(c1, a[0]) {
        Ok(Err(c2)) => {
            lemma_feed_failed_prefix(c2, a.drop_first(), b);
        },
        _ => {},
    }
}

proof fn lemma_lf_never_finishes(c: Cont)
    ensures
        !(step(c, LF) is Ok && step(c, LF)->Ok_0 is Done),
    decreases c,
{
    match c {
        Cont::Array(Length::Known(_), _, Some(inner)) => {
            lemma_lf_never_finishes(*inner);
        },
        _ => {},
    }
}

/// A value whose encoding ends with its line feed is decoded, and consumed,
/// the same whatever follows it.
pub proof fn lemma_feed_finished_at_lf(c: Option<Cont>, a: Seq<u8>, b: Seq<u8>)
    requires
        feed(c, a) is Finished,
        feed(c, a)->Finished_1 == a.len(),
        a.len() > 0,
        a.last() == LF,
    ensures
        feed(c, a + b) == feed(c, a),
    decreases a.len(),
{
    assert((a + b)[0] == a[0]);
    assert((a + b).drop_first() == a.drop_first() + b);
    let c1 = settle_opt(c)->Err_0;
    match c1 {
        Some(c0) => lemma_lf_never_finishes(c0),
        None => {},
    }
    match step_opt(c1, a[0]) {
        Ok(Err(c2)) => {
            if a.len() > 1 {
                assert(a.drop_first().last() == a.last());
                lemma_feed_finished_at_lf(c2, a.drop_first(), b);
            }
        },
        Ok(Ok(v)) => {
            if a.len() > 1 {
                assert((a + b).drop_first()[0] == a.drop_first()[0]);
            }
        },
        _ => {},
    }
}

/// A value is finished or fails within the bytes fed. A failure consumes at
/// least one of them, and so does a value that was not yet started.
pub proof fn lemma_feed_consumed(c: Option<Cont>, s: Seq<u8>)
    ensures
        feed(c, s) is Finished ==> feed(c, s)->Finished_1 <= s.len(),
        feed(c, s) is Finished && c is None ==> 1 <= feed(c, s)->Finished_1,
        feed(c, s) is Failed ==> 1 <= feed(c, s)->Failed_1 <= s.len(),
    decreases s.len(),
{
    if s.len() > 0 && settle_opt(c) is Err {
        match step_opt(settle_opt(c)->Err_0, s[0]) {
            Ok(Err(c2)) => {
                lemma_feed_consumed(c2, s.drop_first());
            },
            _ => {},
        }
    }
}

proof fn lemma_payload_mismatch(n: i64, acc: Seq<u8>, p: Seq<u8>)
    requires
        (acc + p).len() != n,
        forall|i: int| 0 <= i < p.len() ==> p[i] != CR,
        acc.len() > 0 || p.len() == 0 || p[0] != LF,
    ensures
        feed(Some(Cont::BulkString(Length::Known(n), acc)), p.push(CR)) == Outcome::Failed(
            RespError::BadBulkStringSize(n),
            (p.len() + 1) as nat,
        ),
    decreases p.len(),
{
    if p.len() == 0 {
        assert(acc + p == acc);
        assert(p.push(CR)[0] == CR);
    } else {
        let x = p[0];
        assert(p.push(CR)[0] == x);
        assert(p.push(CR).drop_first() == p.drop_first().push(CR));
        assert(acc.push(x) + p.drop_first() == acc + p);
        lemma_payload_mismatch(n, acc.push(x), p.drop_first());
    }
}

/// Length fidelity: once a bulk string's declared length `n` is read, a
/// payload of any other length (line feeds inside it included), up to its
/// terminator, fails the decoding with
/// `BadBulkStringSize(n)`; it is never cut or padded.
pub proof fn lemma_length_fidelity(n: i64, p: Seq<u8>)
    requires
        p.len() != n,
        forall|i: int| 0 <= i < p.len() ==> p[i] != CR,
        p.len() == 0 || p[0] != LF,
    ensures
        feed(Some(Cont::BulkString(Length::Known(n), Seq::empty())), p.push(CR)) == Outcome::Failed(
            RespError::BadBulkStringSize(n),
            (p.len() + 1) as nat,
        ),
{
    assert(Seq::<u8>::empty() + p == p);
    lemma_payload_mismatch(n, Seq::empty(), p);
}

/// Length fidelity for a whole bulk string: `$`, a declared length `d` that
/// reads as `n`, its terminator, then a payload `p` of another length up to
/// its carriage return, fails the decoding with `BadBulkStringSize(n)`.
pub proof fn lemma_bulk_string_length_fidelity(d: Seq<u8>, n: i64, p: Seq<u8>)
    requires
        parse_i64_spec(d) == Some(n),
        n >= 0,
        p.len() != n,
        forall|i: int| 0 <= i < d.len() ==> d[i] != CR && d[i] != LF,
        forall|i: int| 0 <= i < p.len() ==> p[i] != CR,
        p.len() == 0 || p[0] != LF,
    ensures
        ({
            let o = feed(None, seq![36u8] + d + seq![CR, LF] + p + seq![CR]);
            o is Failed && o->Failed_0 == RespError::BadBulkStringSize(n)
        }),
{
    let s = seq![36u8] + d + seq![CR, LF] + p + seq![CR];
    let rest = d + seq![CR, LF] + p + seq![CR];
    assert(s[0] == 36u8);
    assert(s.drop_first() == rest);
    let b0 = Cont::BulkString(Length::Pending(Seq::empty()), Seq::empty());
    let i = d.len() as int;
    assert(rest[i] == CR);
    assert(rest.take(i) == d);
    lemma_feed_token(b0, rest, i);
    assert(gather(Seq::empty(), d) == d);
    let known = Cont::BulkString(Length::Known(n), Seq::empty());
    let tail = rest.skip(i + 1);
    assert(tail == seq![LF] + p + seq![CR]);
    assert(tail[0] == LF);
    lemma_payload_skips_lf(n, Seq::empty(), tail);
    assert(tail.drop_first() == p.push(CR));
    lemma_length_fidelity(n, p);
}

// ---------------------------------------------------------------------------
// Token-reading states: what one token does to the model.
/// `s` without the line feeds it starts with.
pub open spec fn skip_lf(s: Seq<u8>) -> Seq<u8>
    decreases s.len(),
{
    if s.len() > 0 && s[0] == LF {
        skip_lf(s.drop_first())
    } else {
        s
    }
}

/// A token's bytes `acc` once the bytes `s` (no carriage return among them)
/// are read: line feeds count only once the token has a first byte.
pub open spec fn gather(acc: Seq<u8>, s: Seq<u8>) -> Seq<u8> {
    if acc.len() == 0 {
        skip_lf(s)
    } else {
        acc + s
    }
}

pub open spec fn no_cr(s: Seq<u8>) -> bool {
    forall|j: int| 0 <= j < s.len() ==> s[j] != CR
}

proof fn lemma_gather_empty(acc: Seq<u8>)
    ensures
        gather(acc, Seq::empty()) == acc,
{
    assert(acc + Seq::<u8>::empty() == acc);
}

proof fn lemma_gather_step(acc: Seq<u8>, t: Seq<u8>)
    requires
        t.len() > 0,
        t[0] != CR,
    ensures
        gather(step_token(acc, t[0])->0, t.drop_first()) == gather(acc, t),
{
    let x = t[0];
    assert(seq![x] + t.drop_first() == t);
    assert(Seq::<u8>::empty().push(x) == seq![x]);
    if acc.len() > 0 {
        assert(acc.push(x) + t.drop_first() == acc + t);
    }
}

/// Reading one more byte `b` (no carriage return) into a token.
pub(crate) proof fn lemma_gather_push(acc: Seq<u8>, x: Seq<u8>, b: u8)
    requires
        b != CR,
    ensures
        gather(acc, x.push(b)) == step_token(gather(acc, x), b)->0,
    decreases x.len(),
{
    if acc.len() > 0 {
        assert(acc + x.push(b) == (acc + x).push(b));
    } else if x.len() == 0 {
        assert(x.push(b) == seq![b]);
        assert(seq![b].drop_first() == Seq::<u8>::empty());
        assert(Seq::<u8>::empty().push(b) == seq![b]);
        assert(skip_lf(Seq::<u8>::empty()) == Seq::<u8>::empty());
        assert(gather(acc, x) == Seq::<u8>::empty());
        if b == LF {
            assert(skip_lf(seq![b]) == skip_lf(Seq::<u8>::empty()));
        } else {
            assert(skip_lf(seq![b]) == seq![b]);
        }
    } else if x[0] == LF {
        assert(x.push(b)[0] == LF);
        assert(x.push(b).drop_first() == x.drop_first().push(b));
        lemma_gather_push(acc, x.drop_first(), b);
        assert(skip_lf(x) == skip_lf(x.drop_first()));
        assert(skip_lf(x.push(b)) == skip_lf(x.drop_first().push(b)));
    } else {
        assert(x.push(b)[0] == x[0]);
        assert(skip_lf(x) == x);
        assert(skip_lf(x.push(b)) == x.push(b));
    }
}

/// The first carriage return of a sequence that holds one.
pub(crate) proof fn lemma_first_cr(s: Seq<u8>) -> (i: int)
    requires
        !no_cr(s),
    ensures
        0 <= i < s.len(),
        s[i] == CR,
        no_cr(s.take(i)),
    decreases s.len(),
{
    if no_cr(s.drop_last()) {
        assert(s.take(s.len() - 1) == s.drop_last());
        let j = choose|j: int| 0 <= j < s.len() && s[j] == CR;
        if j < s.len() - 1 {
            assert(s.drop_last()[j] == s[j]);
        }
        j
    } else {
        let i = lemma_first_cr(s.drop_last());
        assert(s.drop_last().take(i) == s.take(i));
        i
    }
}

/// The states that read one token: an integer, a declared length, a payload.
pub open spec fn is_token_cont(c: Cont) -> bool {
    !(c is Array && c->Array_0 is Known)
}

/// The bytes a token-reading state has gathered.
pub open spec fn acc_of(c: Cont) -> Seq<u8> {
    match c {
        Cont::Int(d) => d,
        Cont::BulkString(Length::Pending(d), _) => d,
        Cont::BulkString(Length::Known(_), x) => x,
        Cont::Array(Length::Pending(d), _, _) => d,
        Cont::Array(Length::Known(_), _, _) => Seq::empty(),
    }
}

pub open spec fn with_acc(c: Cont, a: Seq<u8>) -> Cont {
    match c {
        Cont::Int(_) => Cont::Int(a),
        Cont::BulkString(Length::Pending(_), x) => Cont::BulkString(Length::Pending(a), x),
        Cont::BulkString(Length::Known(n), _) => Cont::BulkString(Length::Known(n), a),
        Cont::Array(Length::Pending(_), items, item) => Cont::Array(Length::Pending(a), items, item),
        Cont::Array(Length::Known(n), items, item) => Cont::Array(Length::Known(n), items, item),
    }
}

/// What the carriage return that ends a token leads to, `k` bytes in, with
/// `rest` after it.
pub open spec fn finish_token(c: Cont, rest: Seq<u8>, k: nat) -> Outcome {
    match step(c, CR) {
        Err(e) => Outcome::Failed(e, k + fail_lf_len(e, rest)),
        Ok(Stepped::Done(v)) => Outcome::Finished(v, k + lf_len(rest)),
        Ok(Stepped::More(c2)) => shift(feed(Some(c2), rest), k),
    }
}

pub(crate) proof fn lemma_feed_token(c: Cont, s: Seq<u8>, i: int)
    requires
        is_token_cont(c),
        0 <= i < s.len(),
        s[i] == CR,
        no_cr(s.take(i)),
    ensures
        feed(Some(c), s) == finish_token(
            with_acc(c, gather(acc_of(c), s.take(i))),
            s.skip(i + 1),
            (i + 1) as nat,
        ),
    decreases i,
{
    if i == 0 {
        assert(s.take(0) == Seq::<u8>::empty());
        lemma_gather_empty(acc_of(c));
        assert(with_acc(c, acc_of(c)) == c);
        assert(s.drop_first() == s.skip(1));
        match step(c, CR) {
            Ok(Stepped::More(c2)) => {
                assert(shift(feed(Some(c2), s.skip(1)), 1) == shift(feed(Some(c2), s.skip(1)), 1));
            },
            _ => {},
        }
    } else {
        let b = s[0];
        assert(s.take(i)[0] == b);
        assert(b != CR);
        let a2 = step_token(acc_of(c), b)->0;
        let c2 = with_acc(c, a2);
        assert(step(c, b) == Ok::<Stepped, RespError>(Stepped::More(c2)));
        let s1 = s.drop_first();
        assert(s1.take(i - 1) == s.take(i).drop_first());
        assert forall|j: int| 0 <= j < s1.take(i - 1).len() implies #[trigger] s1.take(i - 1)[j] != CR by {
            assert(s1.take(i - 1)[j] == s.take(i)[j + 1]);
        }
        lemma_feed_token(c2, s1, i - 1);
        lemma_gather_step(acc_of(c), s.take(i));
        assert(gather(a2, s1.take(i - 1)) == gather(acc_of(c), s.take(i)));
        assert(s1.skip(i) == s.skip(i + 1));
        let fin = with_acc(c, gather(acc_of(c), s.take(i)));
        assert(with_acc(c2, gather(a2, s1.take(i - 1))) == fin);
        match step(fin, CR) {
            Ok(Stepped::More(c3)) => {
                lemma_shift_shift(feed(Some(c3), s.skip(i + 1)), i as nat, 1);
            },
            _ => {},
        }
    }
}

pub(crate) proof fn lemma_feed_token_no_cr(c: Cont, s: Seq<u8>)
    requires
        is_token_cont(c),
        no_cr(s),
    ensures
        feed(Some(c), s) == Outcome::Pending(Some(with_acc(c, gather(acc_of(c), s)))),
    decreases s.len(),
{
    if s.len() == 0 {
        lemma_gather_empty(acc_of(c));
        assert(with_acc(c, acc_of(c)) == c);
    } else {
        let b = s[0];
        let a2 = step_token(acc_of(c), b)->0;
        let c2 = with_acc(c, a2);
        assert(step(c, b) == Ok::<Stepped, RespError>(Stepped::More(c2)));
        assert forall|j: int| 0 <= j < s.drop_first().len() implies #[trigger] s.drop_first()[j] != CR by {
            assert(s.drop_first()[j] == s[j + 1]);
        }
        lemma_feed_token_no_cr(c2, s.drop_first());
        lemma_gather_step(acc_of(c), s);
    }
}

/// A payload state skips a line feed: the second half of the terminator of
/// its declared length.
pub(crate) proof fn lemma_payload_skips_lf(n: i64, acc: Seq<u8>, s: Seq<u8>)
    requires
        acc.len() == 0,
        s.len() > 0,
        s[0] == LF,
    ensures
        feed(Some(Cont::BulkString(Length::Known(n), acc)), s) == shift(
            feed(Some(Cont::BulkString(Length::Known(n), acc)), s.drop_first()),
            1,
        ),
{
}

// ---------------------------------------------------------------------------
// Arrays: an item in progress inside its array.
/// An array with count `n`, the items `items`, and `c` as the item in
/// progress.
pub open spec fn array_with_item(n: i64, items: Seq<Value>, c: Option<Cont>) -> Cont {
    Cont::Array(
        Length::Known(n),
        items,
        match c {
            Some(x) => Some(Box::new(x)),
            None => None,
        },
    )
}

/// Feeding an array is feeding its item in progress, until that item is
/// finished and taken into the array.
pub open spec fn array_item_agrees(n: i64, items: Seq<Value>, c: Option<Cont>, s: Seq<u8>) -> bool {
    let whole = feed(Some(array_with_item(n, items, c)), s);
    match feed(c, s) {
        Outcome::Failed(e, k) => whole == Outcome::Failed(e, k),
        Outcome::Pending(c2) => whole == Outcome::Pending(Some(array_with_item(n, items, c2))),
        Outcome::Finished(v, k) => whole == if items.len() + 1 >= n {
            Outcome::Finished(Value::Array(items.push(v)), k)
        } else {
            shift(feed(Some(array_with_item(n, items.push(v), None)), s.skip(k as int)), k)
        },
    }
}

/// An array waiting for its next item skips a line feed.
pub(crate) proof fn lemma_array_skips_lf(n: i64, items: Seq<Value>, s: Seq<u8>)
    requires
        items.len() < n,
        s.len() > 0,
        s[0] == LF,
    ensures
        feed(Some(array_with_item(n, items, None)), s) == shift(
            feed(Some(array_with_item(n, items, None)), s.drop_first()),
            1,
        ),
{
}

pub(crate) proof fn lemma_feed_array_item(n: i64, items: Seq<Value>, c: Option<Cont>, s: Seq<u8>)
    requires
        c is None ==> items.len() < n,
    ensures
        array_item_agrees(n, items, c, s),
    decreases s.len(),
{
    if settle_opt(c) is Ok {
        let v = settle_opt(c)->Ok_0;
        if items.len() + 1 < n {
            let a2 = array_with_item(n, items.push(v), None);
            assert(settle(a2) == Err::<Value, Cont>(a2));
            assert(s.skip(0) == s);
            assert(shift(feed(Some(a2), s), 0) == feed(Some(a2), s));
        }
    } else if s.len() > 0 {
        let c1 = settle_opt(c)->Err_0;
        assert(settle_opt(Some(array_with_item(n, items, c))) == Err::<Value, Option<Cont>>(
            Some(array_with_item(n, items, c1)),
        ));
        let s1 = s.drop_first();
        match step_opt(c1, s[0]) {
            Ok(Err(c2)) => {
                lemma_feed_array_item(n, items, c2, s1);
                match feed(c2, s1) {
                    Outcome::Finished(v, k) => {
                        if items.len() + 1 < n {
                            lemma_feed_consumed(c2, s1);
                            assert(s1.skip(k as int) == s.skip((k + 1) as int));
                            lemma_shift_shift(
                                feed(Some(array_with_item(n, items.push(v), None)), s1.skip(k as int)),
                                k,
                                1,
                            );
                        }
                    },
                    _ => {},
                }
            },
            Ok(Ok(v)) => {
                if items.len() + 1 < n {
                    let a2 = array_with_item(n, items.push(v), None);
                    if lf_len(s1) == 1 {
                        lemma_array_skips_lf(n, items.push(v), s1);
                        assert(s1.drop_first() == s.skip(2));
                        lemma_shift_shift(feed(Some(a2), s.skip(2)), 1, 1);
                    } else {
                        assert(s1 == s.skip(1));
                    }
                }
            },
            _ => {},
        }
    }
}

} // verus!
