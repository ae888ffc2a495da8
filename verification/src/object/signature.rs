//! Signature lines: who made a commit or tag, and when.

use vstd::prelude::*;

use super::{ParseError, ParseErrorView};
use crate::bytes::{find, find_from, has_byte, last_at, rfind, to_vec, upto, MINUS, PLUS, SPACE};
use crate::notation::{all_digits, is_digit, parse_signed, signed_text};

verus! {

pub const LESS: u8 = 60;
pub const GREATER: u8 = 62;

/// A signature line: author, committer or tagger.
///
/// It holds the raw bytes beside a best-effort interpretation, so that the
/// line can be written again byte for byte.
#[derive(Clone, Debug, PartialEq, Eq)]
pub struct Signature {
    /// The bytes behind `author `, `committer ` or `tagger `.
    pub raw: Vec<u8>,
    /// Name, which may be empty. A value that was parsed always has one.
    pub name: Option<Vec<u8>>,
    /// Email between `<` and `>`. `None` when the brackets are absent.
    pub email: Option<Vec<u8>>,
    /// Unix timestamp. `None` when absent or not a number.
    pub timestamp: Option<i64>,
    /// Timezone offset such as `+0000`. `None` when absent.
    pub timezone: Option<Vec<u8>>,
}

/// What a signature holds.
pub struct SignatureView {
    pub raw: Seq<u8>,
    pub name: Option<Seq<u8>>,
    pub email: Option<Seq<u8>>,
    pub timestamp: Option<int>,
    pub timezone: Option<Seq<u8>>,
}

/// The bytes of an optional byte string.
pub open spec fn opt_view(v: Option<Vec<u8>>) -> Option<Seq<u8>> {
    match v {
        Some(b) => Some(b@),
        None => None,
    }
}

impl View for Signature {
    type V = SignatureView;

    open spec fn view(&self) -> SignatureView {
        SignatureView {
            raw: self.raw@,
            name: opt_view(self.name),
            email: opt_view(self.email),
            timestamp: match self.timestamp {
                Some(t) => Some(t as int),
                None => None,
            },
            timezone: opt_view(self.timezone),
        }
    }
}

/// `s` without the spaces at its end.
pub open spec fn trim_end(s: Seq<u8>) -> Seq<u8>
    decreases s.len(),
{
    if s.len() > 0 && s.last() == SPACE {
        trim_end(s.drop_last())
    } else {
        s
    }
}

/// `s` without the spaces at its beginning.
pub open spec fn trim_start(s: Seq<u8>) -> Seq<u8>
    decreases s.len(),
{
    if s.len() > 0 && s[0] == SPACE {
        trim_start(s.drop_first())
    } else {
        s
    }
}

/// Digits with an optional minus sign before them.
pub open spec fn looks_like_timestamp(s: Seq<u8>) -> bool {
    let body = if s.len() > 0 && s[0] == MINUS {
        s.skip(1)
    } else {
        s
    };
    body.len() > 0 && all_digits(body)
}

/// A sign and digits.
pub open spec fn looks_like_timezone(s: Seq<u8>) -> bool {
    s.len() > 1 && (s[0] == PLUS || s[0] == MINUS) && all_digits(s.skip(1))
}

/// `None` for the empty string.
pub open spec fn nonempty(s: Seq<u8>) -> Option<Seq<u8>> {
    if s.len() == 0 {
        None
    } else {
        Some(s)
    }
}

/// The name and the rest of a value without email brackets: a timestamp at
/// its end, with or without a timezone behind it, is split off.
pub open spec fn unbracketed(v: Seq<u8>) -> (Seq<u8>, Seq<u8>) {
    let last = last_at(v, SPACE);
    let prev = last_at(v.take(last), SPACE);
    if last < 0 {
        (v, Seq::empty())
    } else if looks_like_timezone(v.skip(last + 1)) && prev >= 0 && looks_like_timestamp(
        v.subrange(prev + 1, last),
    ) {
        (v.take(prev), v.skip(prev + 1))
    } else if looks_like_timestamp(v.skip(last + 1)) {
        (v.take(last), v.skip(last + 1))
    } else {
        (v, Seq::empty())
    }
}

/// The timestamp in what follows name and email.
pub open spec fn time_of(tail: Seq<u8>) -> Option<int> {
    let t = trim_start(tail);
    signed_text(t.take(upto(t, SPACE)))
}

/// The timezone in what follows name and email.
pub open spec fn zone_of(tail: Seq<u8>) -> Option<Seq<u8>> {
    let t = trim_start(tail);
    nonempty(trim_start(t.skip(upto(t, SPACE))))
}

/// The position of the `>` that closes the first `<`, counted from that
/// `<`'s right neighbour.
pub open spec fn close_at(v: Seq<u8>) -> int {
    upto(v.skip(upto(v, LESS) + 1), GREATER)
}

/// Whether the value holds an email in brackets.
pub open spec fn bracketed(v: Seq<u8>) -> bool {
    upto(v, LESS) < v.len() && upto(v, LESS) + 1 + close_at(v) < v.len()
}

/// The signature that a header value holds; none if it has no space.
pub open spec fn signature_of(v: Seq<u8>) -> Option<SignatureView> {
    let lt = upto(v, LESS);
    let gt = lt + 1 + close_at(v);
    if !v.contains(SPACE) {
        None
    } else if bracketed(v) {
        Some(
            SignatureView {
                raw: v,
                name: Some(trim_end(v.take(lt))),
                email: Some(v.subrange(lt + 1, gt)),
                timestamp: time_of(v.skip(gt + 1)),
                timezone: zone_of(v.skip(gt + 1)),
            },
        )
    } else {
        Some(
            SignatureView {
                raw: v,
                name: Some(unbracketed(v).0),
                email: None,
                timestamp: time_of(unbracketed(v).1),
                timezone: zone_of(unbracketed(v).1),
            },
        )
    }
}

/// `s` without the spaces at its end.
fn trim_trailing_space(s: &[u8]) -> (r: &[u8])
    ensures
        r@ == trim_end(s@),
{
    let mut end: usize = s.len();
    assert(s@.take(end as int) =~= s@);
    while end > 0 && s[end - 1] == SPACE
        invariant
            end <= s@.len(),
            trim_end(s@.take(end as int)) == trim_end(s@),
        decreases end,
    {
        assert(s@.take(end as int).drop_last() =~= s@.take(end - 1));
        end -= 1;
    }
    assert(s@.subrange(0, end as int) =~= s@.take(end as int));
    &s[0..end]
}

/// `s` without the spaces at its beginning.
fn trim_leading_space(s: &[u8]) -> (r: &[u8])
    ensures
        r@ == trim_start(s@),
{
    let mut start: usize = 0;
    assert(s@.skip(0) =~= s@);
    while start < s.len() && s[start] == SPACE
        invariant
            start <= s@.len(),
            trim_start(s@.skip(start as int)) == trim_start(s@),
        decreases s.len() - start,
    {
        assert(s@.skip(start as int).drop_first() =~= s@.skip(start + 1));
        start += 1;
    }
    assert(s@.subrange(start as int, s@.len() as int) =~= s@.skip(start as int));
    &s[start..s.len()]
}

/// Whether every byte is a digit.
pub fn are_digits(s: &[u8]) -> (r: bool)
    ensures
        r <==> all_digits(s@),
{
    let mut i: usize = 0;
    while i < s.len()
        invariant
            i <= s@.len(),
            forall|j: int| 0 <= j < i ==> is_digit(#[trigger] s@[j]),
        decreases s.len() - i,
    {
        if s[i] < 48 || s[i] > 57 {
            assert(!is_digit(s@[i as int]));
            return false;
        }
        i += 1;
    }
    true
}

/// Tests for a timestamp.
fn is_timestamp(s: &[u8]) -> (r: bool)
    ensures
        r <==> looks_like_timestamp(s@),
{
    let from: usize = if s.len() > 0 && s[0] == MINUS {
        1
    } else {
        0
    };
    let body = &s[from..s.len()];
    proof {
        assert(s@.subrange(0, s@.len() as int) =~= s@);
        assert(from == 1 ==> body@ =~= s@.skip(1));
    }
    body.len() > 0 && are_digits(body)
}

/// Tests for a timezone.
fn is_timezone(s: &[u8]) -> (r: bool)
    ensures
        r <==> looks_like_timezone(s@),
{
    if s.len() < 2 || (s[0] != PLUS && s[0] != MINUS) {
        return false;
    }
    assert(s@.subrange(1, s@.len() as int) =~= s@.skip(1));
    are_digits(&s[1..s.len()])
}

/// Splits a value without email brackets.
fn split_unbracketed(v: &[u8]) -> (r: (&[u8], &[u8]))
    ensures
        r.0@ == unbracketed(v@).0,
        r.1@ == unbracketed(v@).1,
{
    let n: usize = v.len();
    assert(v@.take(n as int) =~= v@);
    assert(v@.subrange(n as int, n as int) =~= Seq::<u8>::empty());
    match rfind(v, SPACE, n) {
        None => (v, &v[n..n]),
        Some(last) => {
            let after = &v[last + 1..n];
            assert(after@ =~= v@.skip(last + 1));
            if is_timezone(after) {
                if let Some(prev) = rfind(v, SPACE, last) {
                    if is_timestamp(&v[prev + 1..last]) {
                        assert(v@.subrange(0, prev as int) =~= v@.take(prev as int));
                        assert(v@.subrange(prev + 1, n as int) =~= v@.skip(prev + 1));
                        return (&v[0..prev], &v[prev + 1..n]);
                    }
                }
            }
            if is_timestamp(after) {
                assert(v@.subrange(0, last as int) =~= v@.take(last as int));
                return (&v[0..last], after);
            }
            (v, &v[n..n])
        },
    }
}

/// Reads timestamp and timezone.
fn parse_timestamp_and_tz(tail: &[u8]) -> (r: (Option<i64>, Option<Vec<u8>>))
    ensures
        time_of(tail@) == match r.0 {
            Some(t) => Some(t as int),
            None => None,
        },
        zone_of(tail@) == opt_view(r.1),
{
    let t = trim_leading_space(tail);
    let sp: usize = find(t, SPACE);
    assert(t@.subrange(0, sp as int) =~= t@.take(sp as int));
    let time = parse_signed(&t[0..sp]);
    assert(t@.subrange(sp as int, t@.len() as int) =~= t@.skip(sp as int));
    let zone = trim_leading_space(&t[sp..t.len()]);
    (time, nonempty_vec(zone))
}

/// A copy, or `None` of the empty string.
fn nonempty_vec(s: &[u8]) -> (r: Option<Vec<u8>>)
    ensures
        opt_view(r) == nonempty(s@),
{
    if s.len() == 0 {
        None
    } else {
        Some(to_vec(s))
    }
}

/// Parses the value of a signature header.
pub fn parse_signature(v: &[u8]) -> (r: Result<Signature, ParseError>)
    ensures
        match r {
            Ok(s) => signature_of(v@) == Some(s@),
            Err(e) => signature_of(v@) is None && e@ == ParseErrorView::InvalidSignature,
        },
{
    if !has_byte(v, SPACE) {
        return Err(ParseError::InvalidSignature);
    }
    let lt: usize = find(v, LESS);
    if lt < v.len() {
        let gt: usize = find_from(v, GREATER, lt + 1);
        assert(gt == lt + 1 + close_at(v@));
        if gt < v.len() {
            assert(v@.subrange(0, lt as int) =~= v@.take(lt as int));
            assert(v@.subrange(gt + 1, v@.len() as int) =~= v@.skip(gt + 1));
            let (timestamp, timezone) = parse_timestamp_and_tz(&v[gt + 1..v.len()]);
            return Ok(
                Signature {
                    raw: to_vec(v),
                    name: Some(to_vec(trim_trailing_space(&v[0..lt]))),
                    email: Some(to_vec(&v[lt + 1..gt])),
                    timestamp,
                    timezone,
                },
            );
        }
    }
    let (name, tail) = split_unbracketed(v);
    let (timestamp, timezone) = parse_timestamp_and_tz(tail);
    Ok(Signature { raw: to_vec(v), name: Some(to_vec(name)), email: None, timestamp, timezone })
}

} // verus!
