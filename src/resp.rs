//! The resumable RESP decoder: the tokenizer, the integer, bulk-string and
//! array decoders, and the dispatcher. Each is proved to compute `feed` of
//! `model`, which is what makes a split stream decode exactly as the unsplit
//! one does.
use crate::buffer::{buf_advance, buf_at, buf_len, contents};
use crate::model::{
    array_with_item, feed, lemma_array_skips_lf, lemma_feed_array_item, lemma_feed_consumed,
    lemma_feed_token, lemma_feed_token_no_cr, lemma_first_cr, lemma_payload_skips_lf,
    lemma_shift_shift, lf_len, no_cr, shift, start, gather, lemma_gather_push, Cont, Length, Outcome, Value, CR, LF,
};
use bytes::BytesMut;
use vstd::prelude::*;
use vstd::utf8::{decode_utf8, valid_utf8};

verus! {

/// Why the byte stream cannot be decoded.
#[derive(Debug, Clone, Copy, PartialEq, Eq, Structural)]
pub enum RespError {
    StringParseFailure,
    UnknownStartingByte(u8),
    IntParseFailure,
    BadBulkStringSize(i64),
    BadArraySize(i64),
}

/// A finished RESP value.
#[derive(Debug)]
pub enum RespConcreteType {
    Array(Vec<RespConcreteType>),
    Int(i64),
    BulkString(String),
}

pub type RespArrayConcrete = Vec<RespConcreteType>;

pub type RespIntConcrete = i64;

pub type RespStringConcrete = String;

/// The digits of an integer token read so far.
#[derive(Debug)]
pub struct RespIntPartial(pub Vec<u8>);

/// An integer token: finished, or still being read.
#[derive(Debug)]
pub enum RespInt {
    Concrete(RespIntConcrete),
    Partial(RespIntPartial),
}

/// A bulk string being read: its declared length (possibly still being read)
/// and the payload bytes read so far.
#[derive(Debug)]
pub struct RespStringPartial {
    pub length: RespInt,
    pub string: Vec<u8>,
}

/// An array being read: its declared count (possibly still being read), the
/// items finished so far, and the item in progress, if any.
#[derive(Debug)]
pub struct RespArrayPartial {
    pub length: RespInt,
    pub concrete_array: Vec<RespConcreteType>,
    pub partial_item: Option<Box<RespTypePartialable>>,
}

/// A continuation: the saved progress of an unfinished value.
#[derive(Debug)]
pub enum RespTypePartialable {
    Array(RespArrayPartial),
    Int(RespIntPartial),
    BulkString(RespStringPartial),
}

/// What one call of the dispatcher hands back.
#[derive(Debug)]
pub enum Resp {
    Concrete(RespConcreteType),
    Partial(RespTypePartialable),
    /// The buffer held no byte of a value (nothing, or only line feeds).
    Empty,
}

/// What the bulk-string decoder hands back.
#[derive(Debug)]
pub enum RespString {
    Concrete(RespStringConcrete),
    Partial(RespStringPartial),
}

/// What the array decoder hands back.
#[derive(Debug)]
pub enum RespArray {
    Concrete(RespArrayConcrete),
    Partial(RespArrayPartial),
}

/// One CR-terminated token, or the bytes of one whose terminator has not
/// arrived yet.
#[derive(Debug)]
pub enum Word {
    Concrete(Vec<u8>),
    Partial(Vec<u8>),
}

impl RespConcreteType {
    pub open spec fn model(&self) -> Value
        decreases self, 1int,
    {
        match self {
            RespConcreteType::Array(v) => Value::Array(values_model(v, v.len() as int)),
            RespConcreteType::Int(i) => Value::Int(*i),
            RespConcreteType::BulkString(s) => Value::BulkString(s@),
        }
    }
}

/// The models of the first `n` items of `v`.
pub open spec fn values_model(v: &Vec<RespConcreteType>, n: int) -> Seq<Value>
    decreases v, n,
{
    if n <= 0 || n > v.len() {
        Seq::empty()
    } else {
        values_model(v, n - 1).push(v[n - 1].model())
    }
}

impl RespInt {
    pub open spec fn model(&self) -> Length {
        match self {
            RespInt::Concrete(i) => Length::Known(*i),
            RespInt::Partial(p) => Length::Pending(p.0@),
        }
    }
}

impl RespTypePartialable {
    pub open spec fn model(&self) -> Cont
        decreases self,
    {
        match self {
            RespTypePartialable::Array(a) => Cont::Array(
                a.length.model(),
                values_model(&a.concrete_array, a.concrete_array.len() as int),
                match &a.partial_item {
                    Some(item) => Some(Box::new(item.model())),
                    None => None,
                },
            ),
            RespTypePartialable::Int(p) => Cont::Int(p.0@),
            RespTypePartialable::BulkString(p) => Cont::BulkString(p.length.model(), p.string@),
        }
    }
}

pub open spec fn opt_model(p: Option<RespTypePartialable>) -> Option<Cont> {
    match p {
        Some(c) => Some(c.model()),
        None => None,
    }
}

/// Relies on `String::from_utf8`: it succeeds exactly on valid UTF-8, and the
/// string then holds the characters that the bytes encode.
#[verifier::external_body]
fn utf8_to_string(v: Vec<u8>) -> (r: Option<String>)
    ensures
        match r {
            Some(s) => valid_utf8(v@) && s@ == decode_utf8(v@),
            None => !valid_utf8(v@),
        },
{
    String::from_utf8(v).ok()
}

proof fn lemma_values_model_prefix(old_v: &Vec<RespConcreteType>, new_v: &Vec<RespConcreteType>, k: int)
    requires
        0 <= k <= old_v.len() <= new_v.len(),
        forall|i: int| 0 <= i < old_v.len() ==> old_v@[i] == new_v@[i],
    ensures
        values_model(new_v, k) == values_model(old_v, k),
    decreases k,
{
    if k > 0 {
        lemma_values_model_prefix(old_v, new_v, k - 1);
    }
}

pub proof fn lemma_values_model_len(v: &Vec<RespConcreteType>, k: int)
    requires
        0 <= k <= v.len(),
    ensures
        values_model(v, k).len() == k,
    decreases k,
{
    if k > 0 {
        lemma_values_model_len(v, k - 1);
    }
}

/// The model of an array item is the item's model.
pub proof fn lemma_values_model_index(v: &Vec<RespConcreteType>, i: int)
    requires
        0 <= i < v.len(),
    ensures
        values_model(v, v.len() as int)[i] == v[i].model(),
{
    lemma_values_model_index_upto(v, v.len() as int, i);
}

proof fn lemma_values_model_index_upto(v: &Vec<RespConcreteType>, k: int, i: int)
    requires
        0 <= i < k <= v.len(),
    ensures
        values_model(v, k)[i] == v[i].model(),
    decreases k,
{
    lemma_values_model_len(v, k - 1);
    if i < k - 1 {
        lemma_values_model_index_upto(v, k - 1, i);
    }
}

proof fn lemma_values_model_push(old_v: &Vec<RespConcreteType>, new_v: &Vec<RespConcreteType>, x: RespConcreteType)
    requires
        new_v@ == old_v@.push(x),
    ensures
        values_model(new_v, new_v.len() as int) == values_model(old_v, old_v.len() as int).push(x.model()),
        values_model(old_v, old_v.len() as int).len() == old_v.len(),
{
    lemma_values_model_prefix(old_v, new_v, old_v.len() as int);
    lemma_values_model_len(old_v, old_v.len() as int);
}

/// A decoder's result seen through the model: a finished value, or a
/// continuation.
pub open spec fn decoded(r: Result<Result<Value, Option<Cont>>, RespError>, o: Outcome, before: Seq<u8>, after: Seq<u8>) -> bool {
    match o {
        Outcome::Finished(v, n) => r == Ok::<Result<Value, Option<Cont>>, RespError>(Ok(v)) && after == before.skip(
            n as int,
        ),
        Outcome::Pending(c) => r == Ok::<Result<Value, Option<Cont>>, RespError>(Err(c)) && after.len() == 0,
        Outcome::Failed(e, n) => r == Err::<Result<Value, Option<Cont>>, RespError>(e) && after == before.skip(
            n as int,
        ),
    }
}

/// A decoder that ran on what was left after `j` consumed bytes agrees with
/// the outcome of the whole.
proof fn lemma_decoded_shift(r: Result<Result<Value, Option<Cont>>, RespError>, o: Outcome, before: Seq<u8>, j: nat, after: Seq<u8>)
    requires
        j <= before.len(),
        o is Finished ==> o->Finished_1 <= before.len() - j,
        o is Failed ==> o->Failed_1 <= before.len() - j,
        decoded(r, o, before.skip(j as int), after),
    ensures
        decoded(r, shift(o, j), before, after),
{
    match o {
        Outcome::Finished(v, n) => {
            assert(before.skip(j as int).skip(n as int) == before.skip((n + j) as int));
        },
        Outcome::Failed(e, n) => {
            assert(before.skip(j as int).skip(n as int) == before.skip((n + j) as int));
        },
        _ => {},
    }
}

impl RespInt {
    pub open spec fn result_model(&self) -> Result<Value, Option<Cont>> {
        match self {
            RespInt::Concrete(n) => Ok(Value::Int(*n)),
            RespInt::Partial(p) => Err(Some(Cont::Int(p.0@))),
        }
    }
}

impl RespString {
    pub open spec fn result_model(&self) -> Result<Value, Option<Cont>> {
        match self {
            RespString::Concrete(s) => Ok(Value::BulkString(s@)),
            RespString::Partial(p) => Err(Some(Cont::BulkString(p.length.model(), p.string@))),
        }
    }
}

impl RespArray {
    pub open spec fn result_model(&self) -> Result<Value, Option<Cont>> {
        match self {
            RespArray::Concrete(v) => Ok(Value::Array(values_model(v, v.len() as int))),
            RespArray::Partial(p) => Err(
                Some(Cont::Array(
                    p.length.model(),
                    values_model(&p.concrete_array, p.concrete_array.len() as int),
                    match &p.partial_item {
                        Some(item) => Some(Box::new(item.model())),
                        None => None,
                    },
                )),
            ),
        }
    }
}

impl Resp {
    pub open spec fn result_model(&self) -> Result<Value, Option<Cont>> {
        match self {
            Resp::Concrete(v) => Ok(v.model()),
            Resp::Partial(p) => Err(Some(p.model())),
            Resp::Empty => Err(None),
        }
    }
}

pub open spec fn resp_model(r: Result<Resp, RespError>) -> Result<Result<Value, Option<Cont>>, RespError> {
    match r {
        Ok(x) => Ok(x.result_model()),
        Err(e) => Err(e),
    }
}

pub open spec fn int_model(r: Result<RespInt, RespError>) -> Result<Result<Value, Option<Cont>>, RespError> {
    match r {
        Ok(x) => Ok(x.result_model()),
        Err(e) => Err(e),
    }
}

pub open spec fn string_model(r: Result<RespString, RespError>) -> Result<Result<Value, Option<Cont>>, RespError> {
    match r {
        Ok(x) => Ok(x.result_model()),
        Err(e) => Err(e),
    }
}

pub open spec fn array_model(r: Result<RespArray, RespError>) -> Result<Result<Value, Option<Cont>>, RespError> {
    match r {
        Ok(x) => Ok(x.result_model()),
        Err(e) => Err(e),
    }
}

pub open spec fn int_partial_digits(p: Option<RespIntPartial>) -> Seq<u8> {
    match p {
        Some(d) => d.0@,
        None => Seq::empty(),
    }
}

/// The integer decoder: reads the rest of a token from the buffer on top of
/// the digits carried over in `partial` (none when absent), and, once the token is
/// complete, parses the whole as a signed decimal.
pub fn integer(buf: &mut BytesMut, partial: Option<RespIntPartial>) -> (r: Result<RespInt, RespError>)
    ensures
        decoded(
            int_model(r),
            feed(Some(Cont::Int(int_partial_digits(partial))), contents(*old(buf))),
            contents(*old(buf)),
            contents(*final(buf)),
        ),
{
    let ghost before = contents(*buf);
    let RespIntPartial(mut digits) = match partial {
        Some(p) => p,
        None => RespIntPartial(Vec::new()),
    };
    let ghost d0 = digits@;
    assert(d0 =~= int_partial_digits(partial));
    match token(buf, digits) {
        Word::Concrete(digits) => {
            proof {
                let i = choose|i: int|
                    0 <= i < before.len() && before[i] == CR && no_cr(#[trigger] before.take(i)) && digits@
                        == gather(d0, before.take(i)) && contents(*buf) == before.skip(
                        i + 1 + lf_len(before.skip(i + 1)),
                    );
                lemma_feed_token(Cont::Int(d0), before, i);
            }
            match crate::decimal::parse_i64(&digits) {
                Some(n) => Ok(RespInt::Concrete(n)),
                None => Err(RespError::IntParseFailure),
            }
        },
        Word::Partial(digits) => {
            proof {
                lemma_feed_token_no_cr(Cont::Int(d0), before);
            }
            Ok(RespInt::Partial(RespIntPartial(digits)))
        },
    }
}

/// The payload of a bulk string whose declared length is `n`: the rest of a
/// token, on top of the bytes already read; once complete it must have exactly
/// `n` bytes and be valid UTF-8.
fn payload(buf: &mut BytesMut, bytes: Vec<u8>, n: i64) -> (r: Result<RespString, RespError>)
    ensures
        decoded(
            string_model(r),
            feed(Some(Cont::BulkString(Length::Known(n), bytes@)), contents(*old(buf))),
            contents(*old(buf)),
            contents(*final(buf)),
        ),
{
    let ghost before = contents(*buf);
    let ghost b0 = bytes@;
    match token(buf, bytes) {
        Word::Concrete(bytes) => {
            proof {
                let i = choose|i: int|
                    0 <= i < before.len() && before[i] == CR && no_cr(#[trigger] before.take(i)) && bytes@
                        == gather(b0, before.take(i)) && contents(*buf) == before.skip(
                        i + 1 + lf_len(before.skip(i + 1)),
                    );
                lemma_feed_token(Cont::BulkString(Length::Known(n), b0), before, i);
            }
            if n < 0 || bytes.len() as u64 != n as u64 {
                return Err(RespError::BadBulkStringSize(n));
            }
            match utf8_to_string(bytes) {
                Some(text) => Ok(RespString::Concrete(text)),
                None => Err(RespError::StringParseFailure),
            }
        },
        Word::Partial(bytes) => {
            proof {
                lemma_feed_token_no_cr(Cont::BulkString(Length::Known(n), b0), before);
            }
            Ok(
                RespString::Partial(
                    RespStringPartial { length: RespInt::Concrete(n), string: bytes },
                ),
            )
        },
    }
}

/// The bulk-string decoder, resuming `partial`: finishes its declared length
/// with the integer decoder if that is still being read, then reads the
/// payload.
pub fn string_with_partial(buf: &mut BytesMut, partial: RespStringPartial) -> (r: Result<RespString, RespError>)
    ensures
        decoded(
            string_model(r),
            feed(Some(Cont::BulkString(partial.length.model(), partial.string@)), contents(*old(buf))),
            contents(*old(buf)),
            contents(*final(buf)),
        ),
{
    let ghost before = contents(*buf);
    let ghost c = Cont::BulkString(partial.length.model(), partial.string@);
    let RespStringPartial { length, string: bytes } = partial;
    match length {
        RespInt::Concrete(n) => payload(buf, bytes, n),
        RespInt::Partial(p) => {
            let ghost d0 = p.0@;
            let ghost acc = bytes@;
            proof {
                if no_cr(before) {
                    lemma_feed_token_no_cr(Cont::Int(d0), before);
                    lemma_feed_token_no_cr(c, before);
                } else {
                    let i = lemma_first_cr(before);
                    lemma_feed_token(Cont::Int(d0), before, i);
                    lemma_feed_token(c, before, i);
                }
            }
            match integer(buf, Some(p)) {
                Err(e) => Err(e),
                Ok(RespInt::Partial(next)) => Ok(
                    RespString::Partial(RespStringPartial { length: RespInt::Partial(next), string: bytes }),
                ),
                Ok(RespInt::Concrete(n)) => {
                    if n < 0 {
                        return Err(RespError::BadBulkStringSize(n));
                    }
                    let ghost mid = contents(*buf);
                    let r = payload(buf, Vec::new(), n);
                    proof {
                        if no_cr(before) {
                            lemma_feed_token_no_cr(Cont::Int(d0), before);
                        }
                        let i = lemma_first_cr(before);
                        lemma_feed_token(Cont::Int(d0), before, i);
                        lemma_feed_token(c, before, i);
                        let known = Cont::BulkString(Length::Known(n), Seq::empty());
                        let rest = before.skip(i + 1);
                        lemma_feed_consumed(Some(known), mid);
                        if lf_len(rest) == 1 {
                            lemma_payload_skips_lf(n, Seq::empty(), rest);
                            assert(rest.drop_first() == mid);
                            lemma_shift_shift(feed(Some(known), mid), 1, (i + 1) as nat);
                        } else {
                            assert(rest == mid);
                        }
                        assert(mid == before.skip(i + 1 + lf_len(rest)));
                        lemma_decoded_shift(
                            string_model(r),
                            feed(Some(known), mid),
                            before,
                            (i + 1 + lf_len(rest)) as nat,
                            contents(*buf),
                        );
                    }
                    r
                },
            }
        },
    }
}

/// The bulk-string decoder once the declared `length` is known, with the
/// payload bytes `partial_string` already read.
pub fn string_with_length(buf: &mut BytesMut, partial_string: Vec<u8>, length: usize) -> (r: Result<RespString, RespError>)
    requires
        length <= i64::MAX,
    ensures
        decoded(
            string_model(r),
            feed(Some(Cont::BulkString(Length::Known(length as i64), partial_string@)), contents(*old(buf))),
            contents(*old(buf)),
            contents(*final(buf)),
        ),
{
    payload(buf, partial_string, length as i64)
}

/// The bulk-string decoder from the start, just after its `$` marker.
pub fn string(buf: &mut BytesMut) -> (r: Result<RespString, RespError>)
    ensures
        decoded(
            string_model(r),
            feed(Some(Cont::BulkString(Length::Pending(Seq::empty()), Seq::empty())), contents(*old(buf))),
            contents(*old(buf)),
            contents(*final(buf)),
        ),
{
    let p = RespStringPartial { length: RespInt::Partial(RespIntPartial(Vec::new())), string: Vec::new() };
    assert(p.string@ =~= Seq::<u8>::empty());
    assert(p.length.model() =~= Length::Pending(Seq::empty()));
    string_with_partial(buf, p)
}

pub open spec fn opt_box_model(item: Option<Box<RespTypePartialable>>) -> Option<Cont> {
    match item {
        Some(b) => Some(b.model()),
        None => None,
    }
}

/// The array decoder once the count `n` is known: resumes the item in
/// progress through the dispatcher, then, while items are missing and bytes
/// remain, has the dispatcher read the next one. An array that holds its full
/// count is returned at once, without reading a byte.
#[verifier::rlimit(50)]
fn array_with_length(
    buf: &mut BytesMut,
    done: Vec<RespConcreteType>,
    item: Option<Box<RespTypePartialable>>,
    n: i64,
) -> (r: Result<RespArray, RespError>)
    ensures
        decoded(
            array_model(r),
            feed(
                Some(array_with_item(n, values_model(&done, done.len() as int), opt_box_model(item))),
                contents(*old(buf)),
            ),
            contents(*old(buf)),
            contents(*final(buf)),
        ),
    decreases contents(*old(buf)).len(), 3 * item_nesting(&item) + 3,
{
    let ghost before = contents(*buf);
    let ghost goal = feed(
        Some(array_with_item(n, values_model(&done, done.len() as int), opt_box_model(item))),
        before,
    );
    let mut items = done;
    let mut pending: Option<RespTypePartialable> = match item {
        Some(b) => Some(*b),
        None => None,
    };
    assert(contents(*buf) == before.skip(0));
    loop
        invariant
            before == contents(*old(buf)),
            goal == feed(
                Some(array_with_item(n, values_model(&done, done.len() as int), opt_box_model(item))),
                before,
            ),
            contents(*buf).len() <= before.len(),
            match &pending {
                Some(x) => nesting(x) == item_nesting(&item),
                None => true,
            },
            contents(*buf) == before.skip(before.len() - contents(*buf).len()),
            goal == shift(
                feed(
                    Some(array_with_item(n, values_model(&items, items.len() as int), opt_model(pending))),
                    contents(*buf),
                ),
                (before.len() - contents(*buf).len()) as nat,
            ),
        decreases contents(*buf).len(), if pending is Some {
            1int
        } else {
            0int
        },
    {
        let ghost cur = contents(*buf);
        let ghost consumed = (before.len() - cur.len()) as nat;
        let ghost im = values_model(&items, items.len() as int);
        proof {
            lemma_values_model_len(&items, items.len() as int);
        }
        if pending.is_none() {
            if n < 0 || items.len() as u64 >= n as u64 {
                return Ok(RespArray::Concrete(items));
            }
            if buf_len(buf) == 0 {
                let r = RespArray::Partial(RespArrayPartial { length: RespInt::Concrete(n), concrete_array: items, partial_item: None });
                return Ok(r);
            }
        }
        let p = pending.take();
        proof {
            lemma_feed_array_item(n, im, opt_model(p), cur);
            lemma_feed_consumed(opt_model(p), cur);
        }
        match parse(buf, p) {
            Err(e) => {
                proof {
                    let k = feed(opt_model(p), cur)->Failed_1;
                    assert(cur.skip(k as int) == before.skip((consumed + k) as int));
                }
                return Err(e);
            },
            Ok(Resp::Partial(c)) => {
                let r = RespArray::Partial(RespArrayPartial {
                    length: RespInt::Concrete(n),
                    concrete_array: items,
                    partial_item: Some(Box::new(c)),
                });
                return Ok(r);
            },
            Ok(Resp::Empty) => {
                let r = RespArray::Partial(RespArrayPartial { length: RespInt::Concrete(n), concrete_array: items, partial_item: None });
                return Ok(r);
            },
            Ok(Resp::Concrete(v)) => {
                let ghost old_items = items;
                let ghost vm = v.model();
                items.push(v);
                proof {
                    lemma_values_model_push(&old_items, &items, v);
                    let k = feed(opt_model(p), cur)->Finished_1;
                    assert(cur.skip(k as int) == before.skip((consumed + k) as int));
                    lemma_shift_shift(
                        feed(Some(array_with_item(n, im.push(vm), None)), cur.skip(k as int)),
                        k,
                        consumed,
                    );
                }
                if n < 0 || items.len() as u64 >= n as u64 {
                    proof {
                        let k = feed(opt_model(p), cur)->Finished_1;
                        assert(before.skip(consumed as int).skip(k as int) == before.skip((consumed + k) as int));
                    }
                    return Ok(RespArray::Concrete(items));
                }
            },
        }
    }
}

/// The array decoder, resuming `partial`: finishes its declared count with
/// the integer decoder if that is still being read, then reads items as
/// `array_with_length` does.
pub fn array_with_partial(buf: &mut BytesMut, partial: RespArrayPartial) -> (r: Result<RespArray, RespError>)
    ensures
        decoded(
            array_model(r),
            feed(Some(RespTypePartialable::Array(partial).model()), contents(*old(buf))),
            contents(*old(buf)),
            contents(*final(buf)),
        ),
        partial.length is Concrete && partial.partial_item is None && partial.concrete_array.len()
            >= partial.length->Concrete_0 ==> r is Ok && r->Ok_0 is Concrete && contents(*final(buf))
            == contents(*old(buf)),
    decreases contents(*old(buf)).len(), 3 * array_nesting(&partial) + 1,
{
    let ghost before = contents(*buf);
    let ghost c = RespTypePartialable::Array(partial).model();
    let RespArrayPartial { length, concrete_array: items, partial_item } = partial;
    match length {
        RespInt::Concrete(n) => {
            assert(c == array_with_item(n, values_model(&items, items.len() as int), opt_box_model(partial_item)));
            proof {
                lemma_values_model_len(&items, items.len() as int);
                assert(before.skip(0) == before);
            }
            array_with_length(buf, items, partial_item, n)
        },
        RespInt::Partial(p) => {
            let ghost d0 = p.0@;
            proof {
                if no_cr(before) {
                    lemma_feed_token_no_cr(Cont::Int(d0), before);
                    lemma_feed_token_no_cr(c, before);
                } else {
                    let i = lemma_first_cr(before);
                    lemma_feed_token(Cont::Int(d0), before, i);
                    lemma_feed_token(c, before, i);
                }
            }
            match integer(buf, Some(p)) {
                Err(e) => Err(e),
                Ok(RespInt::Partial(next)) => Ok(
                    RespArray::Partial(
                        RespArrayPartial { length: RespInt::Partial(next), concrete_array: items, partial_item },
                    ),
                ),
                Ok(RespInt::Concrete(n)) => {
                    if n < 0 {
                        return Err(RespError::BadArraySize(n));
                    }
                    let empty: Vec<RespConcreteType> = Vec::new();
                    assert(values_model(&empty, 0) == Seq::<Value>::empty());
                    if n == 0 {
                        return Ok(RespArray::Concrete(empty));
                    }
                    let ghost mid = contents(*buf);
                    let r = array_with_length(buf, empty, None, n);
                    proof {
                        if no_cr(before) {
                            lemma_feed_token_no_cr(Cont::Int(d0), before);
                        }
                        let i = lemma_first_cr(before);
                        lemma_feed_token(Cont::Int(d0), before, i);
                        lemma_feed_token(c, before, i);
                        let a0 = array_with_item(n, Seq::empty(), None);
                        let rest = before.skip(i + 1);
                        lemma_feed_consumed(Some(a0), mid);
                        if lf_len(rest) == 1 {
                            lemma_array_skips_lf(n, Seq::empty(), rest);
                            assert(rest.drop_first() == mid);
                            lemma_shift_shift(feed(Some(a0), mid), 1, (i + 1) as nat);
                        } else {
                            assert(rest == mid);
                        }
                        assert(mid == before.skip(i + 1 + lf_len(rest)));
                        lemma_decoded_shift(
                            array_model(r),
                            feed(Some(a0), mid),
                            before,
                            (i + 1 + lf_len(rest)) as nat,
                            contents(*buf),
                        );
                    }
                    r
                },
            }
        },
    }
}

/// How deeply arrays in progress nest in a continuation.
pub open spec fn nesting(p: &RespTypePartialable) -> nat
    decreases p, 0nat,
{
    match p {
        RespTypePartialable::Array(a) => array_nesting(a),
        _ => 0,
    }
}

pub open spec fn array_nesting(a: &RespArrayPartial) -> nat
    decreases a, 1nat,
{
    1 + match &a.partial_item {
        Some(b) => nesting(b),
        None => 0,
    }
}

pub open spec fn item_nesting(item: &Option<Box<RespTypePartialable>>) -> nat {
    match item {
        Some(b) => nesting(b),
        None => 0,
    }
}

/// The array decoder from the start, just after its `*` marker.
pub fn array(buf: &mut BytesMut) -> (r: Result<RespArray, RespError>)
    ensures
        decoded(
            array_model(r),
            feed(Some(Cont::Array(Length::Pending(Seq::empty()), Seq::empty(), None)), contents(*old(buf))),
            contents(*old(buf)),
            contents(*final(buf)),
        ),
    decreases contents(*old(buf)).len(), 5nat,
{
    let p = RespArrayPartial {
        length: RespInt::Partial(RespIntPartial(Vec::new())),
        concrete_array: Vec::new(),
        partial_item: None,
    };
    proof {
        assert(values_model(&p.concrete_array, 0) == Seq::<Value>::empty());
        assert(p.length.model() =~= Length::Pending(Seq::empty()));
    }
    array_with_partial(buf, p)
}

/// The RESP dispatcher. With a continuation, it resumes that value with the
/// decoder of its type. Without one, it consumes the type marker (`*` array,
/// `:` integer, `$` bulk string) and hands over to that decoder; a line feed
/// is consumed and decoding starts again after it. It returns a finished value,
/// the continuation to save when the buffer runs out first, `Empty` when no
/// byte of a value came, or the reason the bytes are malformed: exactly as
/// `feed` says.
pub fn parse(buf: &mut BytesMut, partial: Option<RespTypePartialable>) -> (r: Result<Resp, RespError>)
    ensures
        decoded(resp_model(r), feed(opt_model(partial), contents(*old(buf))), contents(*old(buf)), contents(*final(buf))),
    decreases contents(*old(buf)).len(), match &partial {
        Some(p) => 3 * nesting(p) + 2,
        None => 0,
    },
{
    match partial {
        Some(RespTypePartialable::Array(p)) => match array_with_partial(buf, p) {
            Err(e) => Err(e),
            Ok(RespArray::Concrete(v)) => Ok(Resp::Concrete(RespConcreteType::Array(v))),
            Ok(RespArray::Partial(next)) => Ok(Resp::Partial(RespTypePartialable::Array(next))),
        },
        Some(RespTypePartialable::Int(p)) => match integer(buf, Some(p)) {
            Err(e) => Err(e),
            Ok(RespInt::Concrete(n)) => Ok(Resp::Concrete(RespConcreteType::Int(n))),
            Ok(RespInt::Partial(next)) => Ok(Resp::Partial(RespTypePartialable::Int(next))),
        },
        Some(RespTypePartialable::BulkString(p)) => match string_with_partial(buf, p) {
            Err(e) => Err(e),
            Ok(RespString::Concrete(s)) => Ok(Resp::Concrete(RespConcreteType::BulkString(s))),
            Ok(RespString::Partial(next)) => Ok(Resp::Partial(RespTypePartialable::BulkString(next))),
        },
        None => {
            let ghost before = contents(*buf);
            if buf_len(buf) == 0 {
                return Ok(Resp::Empty);
            }
            let b = buf_at(buf, 0);
            buf_advance(buf, 1);
            let ghost rest = contents(*buf);
            assert(rest == before.drop_first());
            let r = if b == 42u8 {
                match array(buf) {
                    Err(e) => Err(e),
                    Ok(RespArray::Concrete(v)) => Ok(Resp::Concrete(RespConcreteType::Array(v))),
                    Ok(RespArray::Partial(next)) => Ok(Resp::Partial(RespTypePartialable::Array(next))),
                }
            } else if b == 58u8 {
                match integer(buf, None) {
                    Err(e) => Err(e),
                    Ok(RespInt::Concrete(n)) => Ok(Resp::Concrete(RespConcreteType::Int(n))),
                    Ok(RespInt::Partial(next)) => Ok(Resp::Partial(RespTypePartialable::Int(next))),
                }
            } else if b == 36u8 {
                match string(buf) {
                    Err(e) => Err(e),
                    Ok(RespString::Concrete(s)) => Ok(Resp::Concrete(RespConcreteType::BulkString(s))),
                    Ok(RespString::Partial(next)) => Ok(Resp::Partial(RespTypePartialable::BulkString(next))),
                }
            } else if b == LF {
                parse(buf, None)
            } else {
                return Err(RespError::UnknownStartingByte(b));
            };
            proof {
                let next = start(b)->Ok_0;
                lemma_feed_consumed(next, rest);
                lemma_decoded_shift(resp_model(r), feed(next, rest), before, 1, contents(*buf));
            }
            r
        },
    }
}

/// What taking one token out of `before`, on top of the bytes `acc` already
/// read, leaves: a token ends at the first carriage return, which is consumed
/// together with a line feed right after it, if one is there. A line feed is
/// skipped only while the token has no byte yet; every other byte is kept.
/// Without a carriage return, the whole buffer is consumed into the token.
pub open spec fn token_agrees(r: Word, acc: Seq<u8>, before: Seq<u8>, after: Seq<u8>) -> bool {
    match r {
        Word::Concrete(t) => exists|i: int|
            0 <= i < before.len() && before[i] == CR && no_cr(#[trigger] before.take(i)) && t@ == gather(
                acc,
                before.take(i),
            ) && after == before.skip(i + 1 + lf_len(before.skip(i + 1))),
        Word::Partial(t) => no_cr(before) && t@ == gather(acc, before) && after.len() == 0,
    }
}

/// The tokenizer's contract, at the start of a token.
pub open spec fn word_agrees(r: Word, before: Seq<u8>, after: Seq<u8>) -> bool {
    token_agrees(r, Seq::empty(), before, after)
}

/// The tokenizer: takes one CR-terminated token out of the buffer, at the
/// start of a token (a leading line feed, the rest of a split terminator, is
/// skipped).
pub fn word(buf: &mut BytesMut) -> (r: Word)
    ensures
        word_agrees(r, contents(*old(buf)), contents(*final(buf))),
{
    token(buf, Vec::new())
}

/// Takes the rest of a token out of the buffer, on top of the bytes `acc`
/// already read, and returns the whole token.
fn token(buf: &mut BytesMut, acc: Vec<u8>) -> (r: Word)
    ensures
        token_agrees(r, acc@, contents(*old(buf)), contents(*final(buf))),
{
    let ghost before = contents(*buf);
    let ghost a0 = acc@;
    let n = buf_len(buf);
    let mut t = acc;
    let mut i: usize = 0;
    assert(before.take(0) == Seq::<u8>::empty());
    assert(a0 + Seq::<u8>::empty() == a0);
    while i < n
        invariant
            before == contents(*buf),
            before == contents(*old(buf)),
            a0 == acc@,
            n == before.len(),
            i <= n,
            no_cr(before.take(i as int)),
            t@ == gather(a0, before.take(i as int)),
        decreases n - i,
    {
        let b = buf_at(buf, i);
        assert(before.take(i + 1).drop_last() == before.take(i as int));
        if b == CR {
            buf_advance(buf, i + 1);
            let ghost rest = contents(*buf);
            assert(rest == before.skip(i + 1));
            if buf_len(buf) > 0 && buf_at(buf, 0) == LF {
                buf_advance(buf, 1);
            }
            assert(contents(*buf) == before.skip(i + 1 + lf_len(before.skip(i + 1))));
            assert(token_agrees(Word::Concrete(t), a0, before, contents(*buf)));
            return Word::Concrete(t);
        }
        proof {
            assert(before.take(i + 1) == before.take(i as int).push(b));
            lemma_gather_push(a0, before.take(i as int), b);
        }
        if !(b == LF && t.len() == 0) {
            t.push(b);
        }
        i += 1;
    }
    assert(before.take(n as int) == before);
    buf_advance(buf, n);
    Word::Partial(t)
}

} // verus!
