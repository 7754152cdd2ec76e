//! Base-10 integer text: what it denotes, and checked readers for it.
use vstd::prelude::*;

verus! {

pub open spec fn is_digit(b: u8) -> bool {
    48 <= b <= 57
}

pub open spec fn all_digits(s: Seq<u8>) -> bool {
    forall|i: int| 0 <= i < s.len() ==> is_digit(#[trigger] s[i])
}

/// The number that a run of ASCII digits denotes.
pub open spec fn digits_value(s: Seq<u8>) -> int
    decreases s.len(),
{
    if s.len() == 0 {
        0
    } else {
        digits_value(s.drop_last()) * 10 + (s.last() - 48)
    }
}

/// The number that a decimal token denotes: an optional `+` or `-`, then at
/// least one digit. `None` for anything else.
pub open spec fn signed_value(s: Seq<u8>) -> Option<int> {
    let neg = s.len() > 0 && s[0] == 45;
    let body = if s.len() > 0 && (s[0] == 45 || s[0] == 43) {
        s.drop_first()
    } else {
        s
    };
    if body.len() > 0 && all_digits(body) {
        Some(if neg { -digits_value(body) } else { digits_value(body) })
    } else {
        None
    }
}

/// A decimal token read as an `i64`; `None` when it is malformed or out of range.
pub open spec fn parse_i64_spec(s: Seq<u8>) -> Option<i64> {
    match signed_value(s) {
        Some(v) => if i64::MIN <= v <= i64::MAX {
            Some(v as i64)
        } else {
            None
        },
        None => None,
    }
}

proof fn lemma_signed_value_body(s: Seq<u8>)
    ensures
        ({
            let body = if s.len() > 0 && (s[0] == 45 || s[0] == 43) {
                s.drop_first()
            } else {
                s
            };
            &&& !all_digits(body) ==> signed_value(s).is_none()
            &&& all_digits(body) && body.len() > 0 && s.len() > 0 && s[0] == 45 ==> signed_value(s)
                == Some(-digits_value(body))
            &&& all_digits(body) && body.len() > 0 && !(s.len() > 0 && s[0] == 45) ==> signed_value(s)
                == Some(digits_value(body))
        }),
{
}

proof fn lemma_digits_value_nonneg(s: Seq<u8>)
    requires
        all_digits(s),
    ensures
        digits_value(s) >= 0,
    decreases s.len(),
{
    if s.len() > 0 {
        lemma_digits_value_nonneg(s.drop_last());
    }
}

/// A longer run of digits never denotes less than its prefix.
proof fn lemma_digits_value_prefix(s: Seq<u8>, i: int)
    requires
        all_digits(s),
        0 <= i <= s.len(),
    ensures
        digits_value(s.take(i)) <= digits_value(s),
    decreases s.len(),
{
    if i < s.len() {
        assert(s.take(i) == s.drop_last().take(i));
        lemma_digits_value_prefix(s.drop_last(), i);
        lemma_digits_value_nonneg(s.drop_last());
    } else {
        assert(s.take(i) == s);
    }
}

/// Reads a decimal token as an `i64`, exactly as `parse_i64_spec` says.
pub fn parse_i64(s: &Vec<u8>) -> (r: Option<i64>)
    ensures
        r == parse_i64_spec(s@),
{
    let n = s.len();
    let neg = n > 0 && s[0] == 45u8;
    let start: usize = if n > 0 && (s[0] == 45u8 || s[0] == 43u8) { 1 } else { 0 };
    let ghost body = if n > 0 && (s@[0] == 45 || s@[0] == 43) { s@.drop_first() } else { s@ };
    assert(body == s@.skip(start as int));
    if start >= n {
        return None;
    }
    let mut acc: u64 = 0;
    let mut i: usize = start;
    while i < n
        invariant
            start <= i <= n,
            n == s@.len(),
            body == s@.skip(start as int),
            body == (if s@.len() > 0 && (s@[0] == 45 || s@[0] == 43) {
                s@.drop_first()
            } else {
                s@
            }),
            neg == (s@.len() > 0 && s@[0] == 45),
            all_digits(body.take(i - start)),
            acc == digits_value(body.take(i - start)),
            acc <= 9223372036854775808u64,
        decreases n - i,
    {
        let b = s[i];
        if b < 48u8 || b > 57u8 {
            assert(!is_digit(body[i - start]));
            assert(!all_digits(body));
            proof {
                lemma_signed_value_body(s@);
            }
            assert(signed_value(s@).is_none());
            return None;
        }
        let d = (b - 48u8) as u64;
        proof {
            let t = body.take(i - start + 1);
            assert(t.drop_last() == body.take(i - start));
            assert(t.last() == b);
            assert(all_digits(t));
        }
        if acc > 922337203685477580u64 || (acc == 922337203685477580u64 && d > 8) {
            proof {
                let t = body.take(i - start + 1);
                assert(t.drop_last() == body.take(i - start));
                let a = acc as int;
                let dd = d as int;
                assert(a * 10 + dd > 9223372036854775808) by (nonlinear_arith)
                    requires a > 922337203685477580 || (a == 922337203685477580 && dd > 8), dd >= 0;
                assert(digits_value(t) > 9223372036854775808);
                assert forall|j: int| i - start + 1 <= j <= body.len() && all_digits(body.take(j))
                    implies digits_value(body.take(j)) > 9223372036854775808 by {
                    assert(body.take(j).take(i - start + 1) == t);
                    lemma_digits_value_prefix(body.take(j), i - start + 1);
                }
                if all_digits(body) {
                    assert(body.take(body.len() as int) == body);
                    assert(digits_value(body) > 9223372036854775808);
                }
                lemma_signed_value_body(s@);
                assert(parse_i64_spec(s@).is_none());
            }
            return None;
        }
        proof {
            let t = body.take(i - start + 1);
            assert(digits_value(t) == acc * 10 + d);
        }
        acc = acc * 10 + d;
        i += 1;
    }
    assert(body.take(i - start) == body);
    if neg {
        if acc == 9223372036854775808u64 {
            Some(i64::MIN)
        } else {
            Some(-(acc as i64))
        }
    } else if acc <= 9223372036854775807u64 {
        Some(acc as i64)
    } else {
        None
    }
}

/// A decimal token read as a `u64`: an optional `+`, then at least one digit,
/// in range. `None` for anything else.
pub open spec fn parse_u64_spec(s: Seq<u8>) -> Option<u64> {
    let body = if s.len() > 0 && s[0] == 43 {
        s.drop_first()
    } else {
        s
    };
    if body.len() > 0 && all_digits(body) && digits_value(body) <= u64::MAX {
        Some(digits_value(body) as u64)
    } else {
        None
    }
}

/// Reads a decimal token as a `u64`, exactly as `parse_u64_spec` says.
pub fn parse_u64(s: &Vec<u8>) -> (r: Option<u64>)
    ensures
        r == parse_u64_spec(s@),
{
    let n = s.len();
    let start: usize = if n > 0 && s[0] == 43u8 { 1 } else { 0 };
    let ghost body = if n > 0 && s@[0] == 43 { s@.drop_first() } else { s@ };
    assert(body == s@.skip(start as int));
    if start >= n {
        return None;
    }
    let mut acc: u64 = 0;
    let mut i: usize = start;
    while i < n
        invariant
            start <= i <= n,
            n == s@.len(),
            body == s@.skip(start as int),
            body == (if s@.len() > 0 && s@[0] == 43 {
                s@.drop_first()
            } else {
                s@
            }),
            all_digits(body.take(i - start)),
            acc == digits_value(body.take(i - start)),
        decreases n - i,
    {
        let b = s[i];
        if b < 48u8 || b > 57u8 {
            assert(!is_digit(body[i - start]));
            assert(!all_digits(body));
            return None;
        }
        let d = (b - 48u8) as u64;
        proof {
            let t = body.take(i - start + 1);
            assert(t.drop_last() == body.take(i - start));
            assert(t.last() == b);
            assert(all_digits(t));
        }
        if acc > 1844674407370955161u64 || (acc == 1844674407370955161u64 && d > 5) {
            proof {
                let t = body.take(i - start + 1);
                let a = acc as int;
                let dd = d as int;
                assert(a * 10 + dd > 18446744073709551615) by (nonlinear_arith)
                    requires a > 1844674407370955161 || (a == 1844674407370955161 && dd > 5), dd >= 0;
                assert(digits_value(t) > u64::MAX);
                if all_digits(body) {
                    assert(body.take(body.len() as int) == body);
                    assert(body.take(body.len() as int).take(i - start + 1) == t);
                    lemma_digits_value_prefix(body, i - start + 1);
                }
            }
            return None;
        }
        proof {
            let t = body.take(i - start + 1);
            assert(digits_value(t) == acc * 10 + d);
        }
        acc = acc * 10 + d;
        i += 1;
    }
    assert(body.take(i - start) == body);
    Some(acc)
}

} // verus!
