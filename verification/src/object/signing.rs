//! What a signature that was written reads back to.

use vstd::prelude::*;

use super::signature::{
    bracketed, signature_of, time_of, trim_end, unbracketed, zone_of, SignatureView,
};
use crate::bytes::{last_at, upto, upto_is};
use crate::notation::{all_digits, decimal, decimal_round_trip, is_digit, signed_text};

verus! {

/// A time as it is written: seconds since 1970, with a minus sign before 1970.
pub open spec fn written_time(n: int) -> Seq<u8> {
    if n < 0 {
        seq![45u8] + decimal((-n) as nat)
    } else {
        decimal(n as nat)
    }
}

/// A signature as it is written: a name, an email in angle brackets, a time
/// and a timezone.
pub open spec fn written_signature(name: Seq<u8>, email: Seq<u8>, n: int, zone: Seq<u8>) -> Seq<
    u8,
> {
    name + seq![32u8, 60u8] + email + seq![62u8, 32u8] + written_time(n) + seq![32u8] + zone
}

/// Whether a number fits into 64 bits with a sign.
pub open spec fn fits(n: int) -> bool {
    -0x8000_0000_0000_0000 <= n <= 0x7fff_ffff_ffff_ffff
}

/// A written time reads back, and is digits behind an optional minus sign.
proof fn time_reads(n: int)
    requires
        fits(n),
    ensures
        signed_text(written_time(n)) == Some(n),
        written_time(n).len() > 0,
        forall|i: int| 0 <= i < written_time(n).len() ==> #[trigger] written_time(n)[i] != 32,
        n >= 0 ==> all_digits(written_time(n)),
        n < 0 ==> written_time(n)[0] == 45 && written_time(n).len() > 1 && all_digits(
            written_time(n).skip(1),
        ),
{
    let t = written_time(n);
    let m: nat = if n < 0 {
        (-n) as nat
    } else {
        n as nat
    };
    decimal_round_trip(m);
    let d = decimal(m);
    if n < 0 {
        assert(t.skip(1) =~= d);
        assert forall|i: int| 0 <= i < t.len() implies #[trigger] t[i] != 32 by {
            if i > 0 {
                assert(is_digit(d[i - 1]));
            }
        }
    } else {
        assert forall|i: int| 0 <= i < t.len() implies #[trigger] t[i] != 32 by {
            assert(is_digit(d[i]));
        }
        assert(is_digit(d[0]));
    }
}

/// A time and a timezone behind a space, or none, read back.
proof fn tail_reads(tail: Seq<u8>, spaced: bool, n: int, zone: Seq<u8>)
    requires
        fits(n),
        zone.len() > 0,
        zone[0] != 32,
        tail == (if spaced {
            seq![32u8]
        } else {
            Seq::<u8>::empty()
        }) + written_time(n) + seq![32u8] + zone,
    ensures
        time_of(tail) == Some(n),
        zone_of(tail) == Some(zone),
{
    time_reads(n);
    let w = written_time(n);
    let t = w + seq![32u8] + zone;
    reveal_with_fuel(super::signature::trim_start, 3);
    assert(t[0] == w[0]);
    if spaced {
        assert(tail[0] == 32);
        assert(tail.drop_first() =~= t);
    } else {
        assert(tail =~= t);
    }
    assert forall|j: int| 0 <= j < w.len() implies t[j] != 32 by {
        assert(t[j] == w[j]);
    }
    upto_is(t, 32, w.len() as int);
    assert(t.take(w.len() as int) =~= w);
    let z = t.skip(w.len() as int);
    assert(z[0] == 32);
    assert(z.drop_first() =~= zone);
}

/// Law: a signature that was written reads back to its name, email, time and
/// timezone, provided that the name has no `<` and no space at its end, the
/// email has no `>` and the timezone does not begin with a space.
pub proof fn law_signature_round_trip(name: Seq<u8>, email: Seq<u8>, n: int, zone: Seq<u8>)
    requires
        forall|i: int| 0 <= i < name.len() ==> #[trigger] name[i] != 60,
        name.len() > 0 ==> name.last() != 32,
        forall|i: int| 0 <= i < email.len() ==> #[trigger] email[i] != 62,
        zone.len() > 0,
        zone[0] != 32,
        fits(n),
    ensures
        signature_of(written_signature(name, email, n, zone)) == Some(
            SignatureView {
                raw: written_signature(name, email, n, zone),
                name: Some(name),
                email: Some(email),
                timestamp: Some(n),
                timezone: Some(zone),
            },
        ),
{
    let v = written_signature(name, email, n, zone);
    let lt = name.len() as int + 1;
    assert(v[name.len() as int] == 32);
    assert(v.contains(32u8));
    assert forall|j: int| 0 <= j < lt implies v[j] != 60 by {
        if j < name.len() {
            assert(v[j] == name[j]);
        }
    }
    assert(v[lt] == 60);
    upto_is(v, 60, lt);
    let rest = v.skip(lt + 1);
    assert forall|j: int| 0 <= j < email.len() implies rest[j] != 62 by {
        assert(rest[j] == email[j]);
    }
    assert(rest[email.len() as int] == 62);
    upto_is(rest, 62, email.len() as int);
    let gt: int = lt + 1 + email.len();
    assert(bracketed(v));
    assert(v.take(lt).drop_last() =~= name);
    assert(v.take(lt).last() == 32);
    assert(trim_end(v.take(lt)) == trim_end(name));
    assert(v.subrange(lt + 1, gt) =~= email);
    let tail = v.skip(gt + 1);
    assert(tail =~= seq![32u8] + written_time(n) + seq![32u8] + zone);
    tail_reads(tail, true, n, zone);
}

/// Law: only a text without a space is no signature, and a signature keeps
/// the text it was read from.
pub proof fn law_signature_raw(v: Seq<u8>)
    ensures
        signature_of(v) is None <==> forall|i: int| 0 <= i < v.len() ==> #[trigger] v[i] != 32,
        signature_of(v) matches Some(s) ==> s.raw == v && s.name is Some,
{
    if v.contains(32u8) {
        let i = choose|i: int| 0 <= i < v.len() && v[i] == 32u8;
        assert(v[i] == 32);
    } else {
        assert forall|i: int| 0 <= i < v.len() implies #[trigger] v[i] != 32 by {
            if v[i] == 32 {
                assert(v.contains(v[i]));
            }
        }
    }
}

/// The last space.
proof fn last_space(s: Seq<u8>, k: int)
    requires
        0 <= k < s.len(),
        s[k] == 32,
        forall|j: int| k < j < s.len() ==> s[j] != 32,
    ensures
        last_at(s, 32) == k,
    decreases s.len(),
{
    if k < s.len() - 1 {
        last_space(s.drop_last(), k);
    }
}

/// No bracket opens.
proof fn no_bracket(v: Seq<u8>)
    requires
        forall|i: int| 0 <= i < v.len() ==> #[trigger] v[i] != 60,
    ensures
        !bracketed(v),
{
    upto_is(v, 60, v.len() as int);
}

/// Law: without brackets, a time and a timezone at the end are read, and what
/// is before them is the name.
pub proof fn law_signature_unbracketed(name: Seq<u8>, n: int, zone: Seq<u8>)
    requires
        forall|i: int| 0 <= i < name.len() ==> #[trigger] name[i] != 60,
        zone.len() > 1,
        zone[0] == 43 || zone[0] == 45,
        all_digits(zone.skip(1)),
        fits(n),
    ensures
        ({
            let v = name + seq![32u8] + written_time(n) + seq![32u8] + zone;
            signature_of(v) == Some(
                SignatureView {
                    raw: v,
                    name: Some(name),
                    email: None,
                    timestamp: Some(n),
                    timezone: Some(zone),
                },
            )
        }),
{
    let w = written_time(n);
    let v = name + seq![32u8] + w + seq![32u8] + zone;
    time_reads(n);
    let prev = name.len() as int;
    let last: int = prev + 1 + w.len();
    assert(v[prev] == 32);
    assert(v.contains(32u8));
    assert(v[last] == 32);
    assert forall|j: int| last < j < v.len() implies v[j] != 32 && v[j] != 60 by {
        assert(v[j] == zone[j - last - 1]);
        if j > last + 1 {
            assert(is_digit(zone.skip(1)[j - last - 2]));
        }
    }
    assert forall|i: int| 0 <= i < v.len() implies #[trigger] v[i] != 60 by {
        if i < prev {
            assert(v[i] == name[i]);
        } else if prev < i < last {
            assert(v[i] == w[i - prev - 1]);
            if n >= 0 {
                assert(is_digit(w[i - prev - 1]));
            } else if i > prev + 1 {
                assert(is_digit(w.skip(1)[i - prev - 2]));
            }
        }
    }
    no_bracket(v);
    last_space(v, last);
    let t = v.take(last);
    assert forall|j: int| prev < j < t.len() implies t[j] != 32 by {
        assert(t[j] == w[j - prev - 1]);
    }
    last_space(t, prev);
    assert(v.skip(last + 1) =~= zone);
    assert(v.subrange(prev + 1, last) =~= w);
    assert(v.take(prev) =~= name);
    if n >= 0 {
        assert(is_digit(w[0]));
    }
    let tail = v.skip(prev + 1);
    assert(tail =~= Seq::<u8>::empty() + w + seq![32u8] + zone);
    tail_reads(tail, false, n, zone);
    assert(unbracketed(v) == (name, tail));
}

/// Law: without brackets, a text whose last word is no number is all name.
pub proof fn law_signature_name_only(a: Seq<u8>, b: Seq<u8>)
    requires
        forall|i: int| 0 <= i < a.len() ==> #[trigger] a[i] != 60,
        forall|i: int| 0 <= i < b.len() ==> #[trigger] b[i] != 60 && b[i] != 32,
        b.len() == 0 || !is_digit(b.last()),
    ensures
        ({
            let v = a + seq![32u8] + b;
            signature_of(v) == Some(
                SignatureView {
                    raw: v,
                    name: Some(v),
                    email: None,
                    timestamp: None,
                    timezone: None,
                },
            )
        }),
{
    let v = a + seq![32u8] + b;
    let last = a.len() as int;
    assert(v[last] == 32);
    assert(v.contains(32u8));
    assert forall|i: int| 0 <= i < v.len() implies #[trigger] v[i] != 60 by {
        if i < last {
            assert(v[i] == a[i]);
        } else if i > last {
            assert(v[i] == b[i - last - 1]);
        }
    }
    no_bracket(v);
    assert forall|j: int| last < j < v.len() implies v[j] != 32 by {
        assert(v[j] == b[j - last - 1]);
    }
    last_space(v, last);
    assert(v.skip(last + 1) =~= b);
    if b.len() > 1 {
        assert(b.skip(1).last() == b.last());
        assert(!all_digits(b.skip(1))) by {
            assert(!is_digit(b.skip(1)[b.len() - 2]));
        }
    }
    if b.len() > 0 {
        assert(!all_digits(b)) by {
            assert(!is_digit(b[b.len() - 1]));
        }
    }
    assert(unbracketed(v) == (v, Seq::<u8>::empty()));
    let e = Seq::<u8>::empty();
    assert(upto(e, 32) == 0);
    assert(e.take(0).len() == 0);
    assert(e.skip(0).len() == 0);
}

} // verus!
