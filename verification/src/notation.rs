//! Decimal and hexadecimal notation, and the step between bytes and strings.

use vstd::prelude::*;
use vstd::utf8::{decode_utf8, encode_utf8, is_ascii_chars, is_ascii_chars_encode_utf8, valid_utf8};

use crate::bytes::{same_bytes, to_vec, DIGIT_ZERO, MINUS, PLUS};

verus! {

// ---------------------------------------------------------------------
// Strings
// ---------------------------------------------------------------------

/// `String::from_utf8`: the string whose UTF-8 bytes are `bytes`, where
/// they are valid UTF-8, and `None` for the error where they are not.
#[verifier::external_body]
fn string_from_utf8(bytes: Vec<u8>) -> (r: Option<String>)
    ensures
        r is Some <==> valid_utf8(bytes@),
        r matches Some(s) ==> encode_utf8(s@) == bytes@,
{
    String::from_utf8(bytes).ok()
}

/// What `String::from_utf8_lossy` gives for `bytes`: the text with each
/// malformed part replaced by U+FFFD.
pub uninterp spec fn lossy_text(bytes: Seq<u8>) -> Seq<char>;

/// `String::from_utf8_lossy`, as an owned string. It keeps valid UTF-8 as
/// it is; for other input the result is only named.
#[verifier::external_body]
fn string_from_utf8_lossy(bytes: &[u8]) -> (r: String)
    ensures
        r@ == lossy_text(bytes@),
        valid_utf8(bytes@) ==> r@ == decode_utf8(bytes@),
{
    String::from_utf8_lossy(bytes).into_owned()
}

/// The text of bytes that should be UTF-8: what they encode, or, where they
/// are malformed, the text with replacement characters.
pub open spec fn text_of(bytes: Seq<u8>) -> Seq<char> {
    if valid_utf8(bytes) {
        decode_utf8(bytes)
    } else {
        lossy_text(bytes)
    }
}

/// The text of bytes that should be UTF-8.
pub fn lossy_string(bytes: &[u8]) -> (r: String)
    ensures
        r@ == text_of(bytes@),
{
    string_from_utf8_lossy(bytes)
}

/// The text of a string's own bytes is the string.
pub proof fn text_of_encoded(s: Seq<char>)
    ensures
        text_of(encode_utf8(s)) == s,
        valid_utf8(encode_utf8(s)),
{
    vstd::utf8::encode_utf8_valid_utf8(s);
    vstd::utf8::encode_utf8_decode_utf8(s);
}

/// Whether bytes are valid UTF-8.
pub fn is_utf8(bytes: &[u8]) -> (r: bool)
    ensures
        r <==> valid_utf8(bytes@),
{
    string_from_utf8(to_vec(bytes)).is_some()
}

/// Whether two texts are the same.
pub fn same_text(a: &str, b: &str) -> (r: bool)
    ensures
        r <==> a@ == b@,
{
    proof {
        text_of_encoded(a@);
        text_of_encoded(b@);
    }
    same_bytes(a.as_bytes(), b.as_bytes())
}

/// Every byte is below 128.
pub open spec fn is_ascii_bytes(s: Seq<u8>) -> bool {
    forall|i: int| 0 <= i < s.len() ==> #[trigger] s[i] < 128
}

/// The characters of an ASCII byte string.
pub open spec fn ascii_chars(s: Seq<u8>) -> Seq<char> {
    s.map_values(|b: u8| b as char)
}

/// ASCII bytes are valid UTF-8 and encode their own characters.
pub proof fn ascii_bytes_encode(s: Seq<u8>)
    requires
        is_ascii_bytes(s),
    ensures
        valid_utf8(s),
        is_ascii_chars(ascii_chars(s)),
        encode_utf8(ascii_chars(s)) == s,
        decode_utf8(s) == ascii_chars(s),
{
    let c = ascii_chars(s);
    assert forall|i: int| 0 <= i < c.len() implies '\0' <= #[trigger] c[i] <= '\u{7f}' && c[i] as u8
        == s[i] by {
        assert(s[i] < 128);
    }
    is_ascii_chars_encode_utf8(c);
    assert(encode_utf8(c) =~= s);
    vstd::utf8::encode_utf8_valid_utf8(c);
    vstd::utf8::encode_utf8_decode_utf8(c);
}

/// The string made of the given ASCII bytes.
pub fn ascii_string(bytes: Vec<u8>) -> (r: String)
    requires
        is_ascii_bytes(bytes@),
    ensures
        r@ == ascii_chars(bytes@),
        encode_utf8(r@) == bytes@,
{
    proof {
        ascii_bytes_encode(bytes@);
    }
    match string_from_utf8(bytes) {
        Some(s) => {
            proof {
                vstd::utf8::encode_utf8_decode_utf8(s@);
                vstd::utf8::encode_utf8_decode_utf8(ascii_chars(bytes@));
            }
            s
        },
        None => String::new(),
    }
}

// ---------------------------------------------------------------------
// Decimal numbers
// ---------------------------------------------------------------------

/// Whether `b` is an ASCII digit.
pub open spec fn is_digit(b: u8) -> bool {
    48 <= b <= 57
}

/// Every byte is an ASCII digit.
pub open spec fn all_digits(s: Seq<u8>) -> bool {
    forall|i: int| 0 <= i < s.len() ==> is_digit(#[trigger] s[i])
}

/// The number that a string of digits denotes.
pub open spec fn decimal_value(s: Seq<u8>) -> nat
    decreases s.len(),
{
    if s.len() == 0 {
        0
    } else {
        decimal_value(s.drop_last()) * 10 + (s.last() - 48) as nat
    }
}

/// `n` in decimal notation, without leading zeros.
pub open spec fn decimal(n: nat) -> Seq<u8>
    decreases n,
{
    if n < 10 {
        seq![(48 + n) as u8]
    } else {
        decimal(n / 10).push((48 + n % 10) as u8)
    }
}

/// Decimal notation is a nonempty string of digits that denotes the number
/// and has no leading zero.
pub proof fn decimal_round_trip(n: nat)
    ensures
        all_digits(decimal(n)),
        decimal(n).len() > 0,
        decimal_value(decimal(n)) == n,
        n > 0 ==> decimal(n)[0] != DIGIT_ZERO,
        n == 0 ==> decimal(n).len() == 1,
    decreases n,
{
    let s = decimal(n);
    reveal_with_fuel(decimal_value, 2);
    if n < 10 {
        assert(s.drop_last() =~= Seq::<u8>::empty());
    } else {
        decimal_round_trip(n / 10);
        assert(s.drop_last() =~= decimal(n / 10));
    }
}

/// The value of a longer digit string is at least that of its beginning.
pub proof fn decimal_value_grows(s: Seq<u8>, k: int)
    requires
        0 <= k <= s.len(),
        all_digits(s),
    ensures
        decimal_value(s.take(k)) <= decimal_value(s),
    decreases s.len(),
{
    if k < s.len() {
        assert(all_digits(s.drop_last())) by {
            assert forall|i: int| 0 <= i < s.len() - 1 implies is_digit(
                #[trigger] s.drop_last()[i],
            ) by {
                assert(is_digit(s[i]));
            }
        }
        decimal_value_grows(s.drop_last(), k);
        assert(s.drop_last().take(k) =~= s.take(k));
        assert(is_digit(s[s.len() - 1]));
    } else {
        assert(s.take(k) =~= s);
    }
}

/// Appends a number in decimal notation.
pub fn push_decimal(out: &mut Vec<u8>, n: usize)
    ensures
        final(out)@ == old(out)@ + decimal(n as nat),
    decreases n,
{
    if n >= 10 {
        push_decimal(out, n / 10);
    }
    out.push(48 + (n % 10) as u8);
    assert(out@ =~= old(out)@ + decimal(n as nat));
}

/// Appends the decimal notation of a 64-bit number.
pub fn push_decimal_u64(out: &mut Vec<u8>, n: u64)
    ensures
        final(out)@ == old(out)@ + decimal(n as nat),
    decreases n,
{
    if n >= 10 {
        push_decimal_u64(out, n / 10);
    }
    out.push(48 + (n % 10) as u8);
    assert(out@ =~= old(out)@ + decimal(n as nat));
}

/// Reads a string of digits as a number no greater than `max`: `None` if
/// a byte is no digit or the number is greater. The empty string is 0.
pub fn digits_value(s: &[u8], max: u64) -> (r: Option<u64>)
    ensures
        r is Some <==> all_digits(s@) && decimal_value(s@) <= max,
        r matches Some(n) ==> n == decimal_value(s@),
{
    let mut n: u64 = 0;
    let mut i: usize = 0;
    while i < s.len()
        invariant
            i <= s@.len(),
            all_digits(s@.take(i as int)),
            n == decimal_value(s@.take(i as int)),
            n <= max,
        decreases s.len() - i,
    {
        proof {
            assert(s@.take(i + 1).drop_last() =~= s@.take(i as int));
        }
        let b: u8 = s[i];
        if b < 48 || b > 57 {
            assert(!is_digit(s@[i as int]));
            return None;
        }
        let d: u64 = (b - 48) as u64;
        if d > max || n > (max - d) / 10 {
            proof {
                assert(decimal_value(s@.take(i + 1)) == n * 10 + d);
                if all_digits(s@) {
                    decimal_value_grows(s@, i + 1);
                }
            }
            return None;
        }
        n = n * 10 + d;
        assert(all_digits(s@.take(i + 1))) by {
            assert forall|j: int| 0 <= j < i + 1 implies is_digit(#[trigger] s@.take(i + 1)[j]) by {
                if j < i {
                    assert(is_digit(s@.take(i as int)[j]));
                }
            }
        }
        i += 1;
    }
    assert(s@.take(i as int) =~= s@);
    Some(n)
}

/// The unsigned number that a text denotes: one or more digits, with an
/// optional plus sign before them.
pub open spec fn unsigned_text(s: Seq<u8>, max: nat) -> Option<nat> {
    let body = if s.len() > 0 && s[0] == PLUS {
        s.skip(1)
    } else {
        s
    };
    if body.len() > 0 && all_digits(body) && decimal_value(body) <= max {
        Some(decimal_value(body))
    } else {
        None
    }
}

/// Reads an unsigned decimal number with an optional plus sign.
pub fn parse_unsigned(s: &[u8], max: u64) -> (r: Option<u64>)
    ensures
        match r {
            Some(n) => unsigned_text(s@, max as nat) == Some(n as nat),
            None => unsigned_text(s@, max as nat) is None,
        },
{
    let from: usize = if s.len() > 0 && s[0] == PLUS {
        1
    } else {
        0
    };
    if from == s.len() {
        return None;
    }
    let body = &s[from..s.len()];
    proof {
        assert(s@.subrange(0, s@.len() as int) =~= s@);
        assert(from == 1 ==> body@ =~= s@.skip(1));
    }
    digits_value(body, max)
}

/// The signed 64-bit number that a text denotes: one or more digits, with
/// an optional sign before them, in range.
pub open spec fn signed_text(s: Seq<u8>) -> Option<int> {
    let negative = s.len() > 0 && s[0] == MINUS;
    let body = if s.len() > 0 && (s[0] == PLUS || s[0] == MINUS) {
        s.skip(1)
    } else {
        s
    };
    if body.len() == 0 || !all_digits(body) {
        None
    } else if negative {
        if decimal_value(body) <= 0x8000_0000_0000_0000 {
            Some(-(decimal_value(body) as int))
        } else {
            None
        }
    } else if decimal_value(body) <= 0x7fff_ffff_ffff_ffff {
        Some(decimal_value(body) as int)
    } else {
        None
    }
}

/// Reads a signed 64-bit decimal number.
pub fn parse_signed(s: &[u8]) -> (r: Option<i64>)
    ensures
        match r {
            Some(n) => signed_text(s@) == Some(n as int),
            None => signed_text(s@) is None,
        },
{
    let negative = s.len() > 0 && s[0] == MINUS;
    let from: usize = if s.len() > 0 && (s[0] == PLUS || s[0] == MINUS) {
        1
    } else {
        0
    };
    if from == s.len() {
        return None;
    }
    let body = &s[from..s.len()];
    proof {
        assert(s@.subrange(0, s@.len() as int) =~= s@);
        assert(from == 1 ==> body@ =~= s@.skip(1));
    }
    if negative {
        match digits_value(body, 0x8000_0000_0000_0000) {
            Some(n) => {
                if n == 0x8000_0000_0000_0000 {
                    Some(i64::MIN)
                } else {
                    Some(0 - (n as i64))
                }
            },
            None => None,
        }
    } else {
        match digits_value(body, 0x7fff_ffff_ffff_ffff) {
            Some(n) => Some(n as i64),
            None => None,
        }
    }
}

// ---------------------------------------------------------------------
// Hexadecimal
// ---------------------------------------------------------------------

/// The value of a hexadecimal digit of either case.
pub open spec fn nibble_value(b: u8) -> Option<u8> {
    if 48 <= b <= 57 {
        Some((b - 48) as u8)
    } else if 97 <= b <= 102 {
        Some((b - 87) as u8)
    } else if 65 <= b <= 70 {
        Some((b - 55) as u8)
    } else {
        None
    }
}

/// Every byte is a hexadecimal digit.
pub open spec fn all_hex(s: Seq<u8>) -> bool {
    forall|i: int| 0 <= i < s.len() ==> nibble_value(#[trigger] s[i]) is Some
}

/// The lowercase hexadecimal digit for a value below 16.
pub open spec fn nibble_digit(n: int) -> u8 {
    if n < 10 {
        (48 + n) as u8
    } else {
        (87 + n) as u8
    }
}

/// The bytes that pairs of hexadecimal digits denote.
pub open spec fn unhex(s: Seq<u8>) -> Seq<u8> {
    Seq::new(
        s.len() / 2,
        |i: int| (nibble_value(s[2 * i])->0 * 16 + nibble_value(s[2 * i + 1])->0) as u8,
    )
}

/// Lowercase hexadecimal notation, two digits for each byte.
pub open spec fn hex(s: Seq<u8>) -> Seq<u8> {
    Seq::new(
        2 * s.len(),
        |i: int|
            if i % 2 == 0 {
                nibble_digit(s[i / 2] as int / 16)
            } else {
                nibble_digit(s[i / 2] as int % 16)
            },
    )
}

/// Hexadecimal notation consists of lowercase digits and denotes the bytes
/// it was made from.
pub proof fn hex_round_trip(s: Seq<u8>)
    ensures
        hex(s).len() == 2 * s.len(),
        all_hex(hex(s)),
        is_ascii_bytes(hex(s)),
        forall|i: int| 0 <= i < hex(s).len() ==> !(65 <= #[trigger] hex(s)[i] <= 90),
        unhex(hex(s)) == s,
{
    let h = hex(s);
    assert forall|i: int| 0 <= i < h.len() implies nibble_value(#[trigger] h[i]) is Some && h[i]
        < 128 && !(65 <= h[i] <= 90) by {
        let b = s[i / 2] as int;
        assert(0 <= b / 16 < 16 && 0 <= b % 16 < 16);
    }
    assert forall|i: int| 0 <= i < s.len() implies #[trigger] unhex(h)[i] == s[i] by {
        let b = s[i] as int;
        assert(0 <= b / 16 < 16 && 0 <= b % 16 < 16);
        assert((2 * i) / 2 == i && (2 * i + 1) / 2 == i && (2 * i) % 2 == 0 && (2 * i + 1) % 2
            == 1);
        assert(h[2 * i] == nibble_digit(b / 16));
        assert(h[2 * i + 1] == nibble_digit(b % 16));
        assert(nibble_value(h[2 * i]) == Some((b / 16) as u8));
        assert(nibble_value(h[2 * i + 1]) == Some((b % 16) as u8));
    }
    assert(unhex(h) =~= s);
}

/// The value of a hexadecimal digit, or `None` for another byte.
pub fn decode_hex_nibble(b: u8) -> (r: Option<u8>)
    ensures
        r == nibble_value(b),
        r matches Some(n) ==> n < 16,
{
    if 48 <= b && b <= 57 {
        Some(b - 48)
    } else if 97 <= b && b <= 102 {
        Some(b - 87)
    } else if 65 <= b && b <= 70 {
        Some(b - 55)
    } else {
        None
    }
}

/// Lowercase hexadecimal notation of a byte string.
pub fn hex_bytes(s: &[u8]) -> (r: Vec<u8>)
    ensures
        r@ == hex(s@),
{
    let mut out: Vec<u8> = Vec::new();
    let mut i: usize = 0;
    while i < s.len()
        invariant
            i <= s@.len(),
            out@ == hex(s@.take(i as int)),
        decreases s.len() - i,
    {
        let b: u8 = s[i];
        let hi: u8 = b / 16;
        let lo: u8 = b % 16;
        let ghost before = out@;
        out.push(if hi < 10 { 48 + hi } else { 87 + hi });
        out.push(if lo < 10 { 48 + lo } else { 87 + lo });
        proof {
            let t = s@.take(i as int);
            let u = s@.take(i + 1);
            assert forall|j: int| 0 <= j < 2 * (i + 1) implies #[trigger] out@[j] == hex(u)[j] by {
                if j < 2 * i {
                    assert(before[j] == hex(t)[j]);
                    assert(t[j / 2] == u[j / 2]);
                }
            }
            assert(out@ =~= hex(u));
        }
        i += 1;
    }
    assert(s@.take(i as int) =~= s@);
    out
}

} // verus!
