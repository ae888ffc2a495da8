//! Byte strings: literals, searching, lexicographic order, and the number
//! notations (big-endian, decimal, hexadecimal) of the on-disk formats.

use vstd::prelude::*;
use vstd::utf8::{encode_utf8, is_ascii_chars, is_ascii_chars_encode_utf8};

verus! {

pub const NUL: u8 = 0;
pub const LF: u8 = 10;
pub const CR: u8 = 13;
pub const SPACE: u8 = 32;
pub const PLUS: u8 = 43;
pub const MINUS: u8 = 45;
pub const DOT: u8 = 46;
pub const SLASH: u8 = 47;
pub const DIGIT_ZERO: u8 = 48;
pub const COLON: u8 = 58;

// ---------------------------------------------------------------------
// Literals
// ---------------------------------------------------------------------

/// The bytes of an ASCII text, one byte per character.
pub open spec fn ascii(s: Seq<char>) -> Seq<u8> {
    s.map_values(|c: char| c as u8)
}

/// The bytes of an ASCII text literal.
pub fn text(s: &str) -> (r: &[u8])
    requires
        is_ascii_chars(s@),
    ensures
        r@ == ascii(s@),
{
    proof {
        is_ascii_chars_encode_utf8(s@);
        assert(encode_utf8(s@) =~= ascii(s@));
    }
    s.as_bytes()
}

/// Appends an ASCII text literal.
pub fn push_text(out: &mut Vec<u8>, s: &str)
    requires
        is_ascii_chars(s@),
    ensures
        final(out)@ == old(out)@ + ascii(s@),
{
    let t = text(s);
    push_all(out, t);
}

/// Appends a byte string.
pub fn push_all(out: &mut Vec<u8>, s: &[u8])
    ensures
        final(out)@ == old(out)@ + s@,
{
    out.extend_from_slice(s);
    assert(out@ =~= old(out)@ + s@);
}

/// Copies a byte slice into a fresh vector.
pub fn to_vec(s: &[u8]) -> (r: Vec<u8>)
    ensures
        r@ == s@,
{
    let mut out: Vec<u8> = Vec::new();
    push_all(&mut out, s);
    assert(out@ =~= s@);
    out
}

// ---------------------------------------------------------------------
// Equality and order
// ---------------------------------------------------------------------

/// Whether two byte strings are equal.
pub fn same_bytes(a: &[u8], b: &[u8]) -> (r: bool)
    ensures
        r <==> a@ == b@,
{
    if a.len() != b.len() {
        return false;
    }
    let mut i: usize = 0;
    while i < a.len()
        invariant
            i <= a.len(),
            a.len() == b.len(),
            forall|j: int| 0 <= j < i ==> a@[j] == b@[j],
        decreases a.len() - i,
    {
        if a[i] != b[i] {
            return false;
        }
        i += 1;
    }
    assert(a@ =~= b@);
    true
}

/// `a` and `b` agree on their first `k` bytes, and `k` decides that `a`
/// comes first: `a` ends there, or has the smaller byte there.
pub open spec fn lex_lt_at(a: Seq<u8>, b: Seq<u8>, k: int) -> bool {
    &&& 0 <= k <= a.len()
    &&& k < b.len()
    &&& forall|j: int| 0 <= j < k ==> a[j] == b[j]
    &&& (k == a.len() || a[k] < b[k])
}

/// Strict lexicographic order on byte strings; a proper prefix comes first.
pub open spec fn lex_lt(a: Seq<u8>, b: Seq<u8>) -> bool {
    exists|k: int| lex_lt_at(a, b, k)
}

/// No byte string comes before itself.
pub proof fn lex_lt_irreflexive(a: Seq<u8>)
    ensures
        !lex_lt(a, a),
{
    if lex_lt(a, a) {
        let k = choose|k: int| lex_lt_at(a, a, k);
        assert(lex_lt_at(a, a, k));
    }
}

/// The order is transitive.
pub proof fn lex_lt_transitive(a: Seq<u8>, b: Seq<u8>, c: Seq<u8>)
    requires
        lex_lt(a, b),
        lex_lt(b, c),
    ensures
        lex_lt(a, c),
{
    let k1 = choose|k: int| lex_lt_at(a, b, k);
    let k2 = choose|k: int| lex_lt_at(b, c, k);
    let k = if k1 <= k2 {
        k1
    } else {
        k2
    };
    assert forall|j: int| 0 <= j < k implies a[j] == c[j] by {
        assert(a[j] == b[j]);
    }
    assert(lex_lt_at(a, c, k));
}

/// Of two byte strings one comes first, unless they are equal.
pub proof fn lex_lt_total(a: Seq<u8>, b: Seq<u8>)
    ensures
        a == b || lex_lt(a, b) || lex_lt(b, a),
    decreases a.len(),
{
    if a.len() == 0 {
        if b.len() > 0 {
            assert(lex_lt_at(a, b, 0));
        } else {
            assert(a =~= b);
        }
    } else if b.len() == 0 {
        assert(lex_lt_at(b, a, 0));
    } else if a[0] < b[0] {
        assert(lex_lt_at(a, b, 0));
    } else if b[0] < a[0] {
        assert(lex_lt_at(b, a, 0));
    } else {
        let a1 = a.drop_first();
        let b1 = b.drop_first();
        lex_lt_total(a1, b1);
        if a1 == b1 {
            assert(a =~= seq![a[0]] + a1);
            assert(b =~= seq![b[0]] + b1);
        } else if lex_lt(a1, b1) {
            let k = choose|k: int| lex_lt_at(a1, b1, k);
            assert forall|j: int| 0 <= j < k + 1 implies a[j] == b[j] by {
                if j > 0 {
                    assert(a1[j - 1] == b1[j - 1]);
                }
            }
            assert(lex_lt_at(a, b, k + 1));
        } else {
            let k = choose|k: int| lex_lt_at(b1, a1, k);
            assert forall|j: int| 0 <= j < k + 1 implies b[j] == a[j] by {
                if j > 0 {
                    assert(b1[j - 1] == a1[j - 1]);
                }
            }
            assert(lex_lt_at(b, a, k + 1));
        }
    }
}

/// Whether `a` comes strictly before `b`.
pub fn bytes_lt(a: &[u8], b: &[u8]) -> (r: bool)
    ensures
        r <==> lex_lt(a@, b@),
{
    let mut i: usize = 0;
    while i < a.len() && i < b.len()
        invariant
            i <= a.len(),
            i <= b.len(),
            forall|j: int| 0 <= j < i ==> a@[j] == b@[j],
        decreases a.len() - i,
    {
        if a[i] != b[i] {
            proof {
                if a@[i as int] < b@[i as int] {
                    assert(lex_lt_at(a@, b@, i as int));
                } else {
                    assert(lex_lt_at(b@, a@, i as int));
                    if lex_lt(a@, b@) {
                        lex_lt_transitive(a@, b@, a@);
                        lex_lt_irreflexive(a@);
                    }
                }
            }
            return a[i] < b[i];
        }
        i += 1;
    }
    proof {
        if i < b.len() {
            assert(lex_lt_at(a@, b@, i as int));
        } else if lex_lt(a@, b@) {
            let k = choose|k: int| lex_lt_at(a@, b@, k);
            assert(a@[k] == b@[k]);
        }
    }
    i < b.len()
}

// ---------------------------------------------------------------------
// Searching
// ---------------------------------------------------------------------

/// How many bytes stand before the first `b`; all of them if there is none.
pub open spec fn upto(s: Seq<u8>, b: u8) -> int
    decreases s.len(),
{
    if s.len() == 0 || s[0] == b {
        0
    } else {
        1 + upto(s.drop_first(), b)
    }
}

/// What [`upto`] is: no byte before it is `b`, and the byte there is.
pub proof fn upto_spec(s: Seq<u8>, b: u8)
    ensures
        0 <= upto(s, b) <= s.len(),
        forall|j: int| 0 <= j < upto(s, b) ==> s[j] != b,
        upto(s, b) < s.len() ==> s[upto(s, b)] == b,
    decreases s.len(),
{
    if s.len() == 0 || s[0] == b {
    } else {
        let t = s.drop_first();
        upto_spec(t, b);
        assert forall|j: int| 0 <= j < upto(s, b) implies s[j] != b by {
            if j > 0 {
                assert(t[j - 1] != b);
            }
        }
    }
}

/// [`upto`] is the only such position.
pub proof fn upto_is(s: Seq<u8>, b: u8, k: int)
    requires
        0 <= k <= s.len(),
        forall|j: int| 0 <= j < k ==> s[j] != b,
        k < s.len() ==> s[k] == b,
    ensures
        upto(s, b) == k,
{
    upto_spec(s, b);
    if upto(s, b) < k {
        assert(s[upto(s, b)] != b);
    }
}

/// The position of the first `b` at or after `from`, or the length.
pub fn find_from(s: &[u8], b: u8, from: usize) -> (r: usize)
    requires
        from <= s@.len(),
    ensures
        from <= r <= s@.len(),
        r == from + upto(s@.skip(from as int), b),
        forall|j: int| from <= j < r ==> s@[j] != b,
        r < s@.len() ==> s@[r as int] == b,
{
    let mut i: usize = from;
    while i < s.len() && s[i] != b
        invariant
            from <= i <= s@.len(),
            forall|j: int| from <= j < i ==> s@[j] != b,
        decreases s.len() - i,
    {
        i += 1;
    }
    proof {
        let t = s@.skip(from as int);
        assert forall|j: int| 0 <= j < i - from implies t[j] != b by {
            assert(t[j] == s@[from + j]);
        }
        upto_is(t, b, i - from);
    }
    i
}

/// The position of the first `b`, or the length.
pub fn find(s: &[u8], b: u8) -> (r: usize)
    ensures
        r <= s@.len(),
        r == upto(s@, b),
        forall|j: int| 0 <= j < r ==> s@[j] != b,
        r < s@.len() ==> s@[r as int] == b,
{
    assert(s@.skip(0) =~= s@);
    find_from(s, b, 0)
}

/// Whether `b` occurs.
pub fn has_byte(s: &[u8], b: u8) -> (r: bool)
    ensures
        r <==> s@.contains(b),
{
    let k = find(s, b);
    proof {
        if k < s@.len() {
            assert(s@[k as int] == b);
        }
    }
    k < s.len()
}

/// Whether `s` begins with `p`.
pub fn has_prefix(s: &[u8], p: &[u8]) -> (r: bool)
    ensures
        r <==> p@.is_prefix_of(s@),
{
    if p.len() > s.len() {
        return false;
    }
    assert(s@.subrange(0, p@.len() as int) =~= s@.take(p@.len() as int));
    let head = &s[0..p.len()];
    let r = same_bytes(head, p);
    assert(r <==> p@.is_prefix_of(s@)) by {
        assert(p@.is_prefix_of(s@) <==> p@ =~= s@.subrange(0, p@.len() as int));
    }
    r
}

/// The position of the last `b`, or -1.
pub open spec fn last_at(s: Seq<u8>, b: u8) -> int
    decreases s.len(),
{
    if s.len() == 0 {
        -1
    } else if s.last() == b {
        s.len() - 1
    } else {
        last_at(s.drop_last(), b)
    }
}

/// The position of the last `b` before `end`.
pub fn rfind(s: &[u8], b: u8, end: usize) -> (r: Option<usize>)
    requires
        end <= s@.len(),
    ensures
        match r {
            Some(i) => i < end && last_at(s@.take(end as int), b) == i,
            None => last_at(s@.take(end as int), b) == -1,
        },
{
    let mut i: usize = end;
    while i > 0
        invariant
            i <= end <= s@.len(),
            last_at(s@.take(i as int), b) == last_at(s@.take(end as int), b),
        decreases i,
    {
        assert(s@.take(i as int).drop_last() =~= s@.take(i - 1));
        i -= 1;
        if s[i] == b {
            return Some(i);
        }
    }
    None
}

// ---------------------------------------------------------------------
// Big-endian numbers
// ---------------------------------------------------------------------

/// The number that a byte string denotes in big-endian notation.
pub open spec fn be_value(s: Seq<u8>) -> nat
    decreases s.len(),
{
    if s.len() == 0 {
        0
    } else {
        be_value(s.drop_last()) * 256 + s.last() as nat
    }
}

/// `n` in big-endian notation, in `len` bytes.
pub open spec fn be_bytes(n: nat, len: nat) -> Seq<u8>
    decreases len,
{
    if len == 0 {
        Seq::empty()
    } else {
        be_bytes(n / 256, (len - 1) as nat).push((n % 256) as u8)
    }
}

/// 256 to the power of `len`: what `len` bytes can count.
pub open spec fn byte_capacity(len: nat) -> nat
    decreases len,
{
    if len == 0 {
        1
    } else {
        256 * byte_capacity((len - 1) as nat)
    }
}

/// `be_bytes` has the length it is asked for.
pub proof fn be_bytes_len(n: nat, len: nat)
    ensures
        be_bytes(n, len).len() == len,
    decreases len,
{
    if len > 0 {
        be_bytes_len(n / 256, (len - 1) as nat);
    }
}

/// Reading back what was written gives the number, where it fits.
pub proof fn be_round_trip(n: nat, len: nat)
    requires
        n < byte_capacity(len),
    ensures
        be_value(be_bytes(n, len)) == n,
    decreases len,
{
    if len > 0 {
        be_round_trip(n / 256, (len - 1) as nat);
        let s = be_bytes(n, len);
        assert(s.drop_last() =~= be_bytes(n / 256, (len - 1) as nat));
    }
}

/// Writing back what was read gives the bytes.
pub proof fn be_round_trip_bytes(s: Seq<u8>)
    ensures
        be_bytes(be_value(s), s.len()) == s,
        be_value(s) < byte_capacity(s.len()),
    decreases s.len(),
{
    if s.len() > 0 {
        be_round_trip_bytes(s.drop_last());
        let v = be_value(s.drop_last());
        let b = s.last() as nat;
        assert((v * 256 + b) / 256 == v && (v * 256 + b) % 256 == b) by (nonlinear_arith)
            requires
                b < 256,
        ;
        assert(be_bytes(be_value(s), s.len()) =~= s.drop_last().push(s.last()));
        assert(s =~= s.drop_last().push(s.last()));
    } else {
        assert(be_bytes(be_value(s), s.len()) =~= s);
    }
}

/// The capacities that the formats use.
pub proof fn byte_capacities()
    ensures
        byte_capacity(1) == 256,
        byte_capacity(2) == 0x1_0000,
        byte_capacity(4) == 0x1_0000_0000,
        byte_capacity(8) == 0x1_0000_0000_0000_0000,
{
    reveal_with_fuel(byte_capacity, 9);
}

/// The big-endian value of a string with one more byte.
pub proof fn be_value_push(s: Seq<u8>, b: u8)
    ensures
        be_value(s.push(b)) == be_value(s) * 256 + b as nat,
{
    assert(s.push(b).drop_last() =~= s);
}

/// Reads a 16-bit big-endian number.
pub fn read_be16(s: &[u8], at: usize) -> (r: u16)
    requires
        at + 2 <= s@.len(),
    ensures
        r as nat == be_value(s@.subrange(at as int, at + 2)),
{
    proof {
        let t = s@.subrange(at as int, at + 2);
        assert(t =~= Seq::<u8>::empty().push(s@[at as int]).push(s@[at + 1]));
        be_value_push(Seq::<u8>::empty(), s@[at as int]);
        be_value_push(Seq::<u8>::empty().push(s@[at as int]), s@[at + 1]);
    }
    s[at] as u16 * 256 + s[at + 1] as u16
}

/// Reads a 32-bit big-endian number.
pub fn read_be32(s: &[u8], at: usize) -> (r: u32)
    requires
        at + 4 <= s@.len(),
    ensures
        r as nat == be_value(s@.subrange(at as int, at + 4)),
{
    proof {
        let e = Seq::<u8>::empty();
        let (b0, b1, b2, b3) = (s@[at as int], s@[at + 1], s@[at + 2], s@[at + 3]);
        assert(s@.subrange(at as int, at + 4) =~= e.push(b0).push(b1).push(b2).push(b3));
        be_value_push(e, b0);
        be_value_push(e.push(b0), b1);
        be_value_push(e.push(b0).push(b1), b2);
        be_value_push(e.push(b0).push(b1).push(b2), b3);
    }
    ((s[at] as u32 * 256 + s[at + 1] as u32) * 256 + s[at + 2] as u32) * 256 + s[at + 3] as u32
}

/// Reads a 64-bit big-endian number.
pub fn read_be64(s: &[u8], at: usize) -> (r: u64)
    requires
        at + 8 <= s@.len(),
    ensures
        r as nat == be_value(s@.subrange(at as int, at + 8)),
{
    assert(s.len() == s@.len());
    let hi: u32 = read_be32(s, at);
    let lo: u32 = read_be32(s, at + 4);
    proof {
        let t = s@.subrange(at as int, at + 4);
        let (b0, b1, b2, b3) = (s@[at + 4], s@[at + 5], s@[at + 6], s@[at + 7]);
        let e = Seq::<u8>::empty();
        assert(s@.subrange(at + 4, at + 8) =~= e.push(b0).push(b1).push(b2).push(b3));
        be_value_push(e, b0);
        be_value_push(e.push(b0), b1);
        be_value_push(e.push(b0).push(b1), b2);
        be_value_push(e.push(b0).push(b1).push(b2), b3);
        assert(s@.subrange(at as int, at + 8) =~= t.push(b0).push(b1).push(b2).push(b3));
        be_value_push(t, b0);
        be_value_push(t.push(b0), b1);
        be_value_push(t.push(b0).push(b1), b2);
        be_value_push(t.push(b0).push(b1).push(b2), b3);
    }
    hi as u64 * 0x1_0000_0000 + lo as u64
}

/// Appends a number in big-endian notation, in `len` bytes.
fn push_be(out: &mut Vec<u8>, n: u64, len: u8)
    ensures
        final(out)@ == old(out)@ + be_bytes(n as nat, len as nat),
    decreases len,
{
    if len > 0 {
        push_be(out, n / 256, len - 1);
        out.push((n % 256) as u8);
    }
    assert(out@ =~= old(out)@ + be_bytes(n as nat, len as nat));
}

/// Appends a 16-bit big-endian number.
pub fn push_be16(out: &mut Vec<u8>, n: u16)
    ensures
        final(out)@ == old(out)@ + be_bytes(n as nat, 2),
{
    push_be(out, n as u64, 2);
}

/// Appends a 32-bit big-endian number.
pub fn push_be32(out: &mut Vec<u8>, n: u32)
    ensures
        final(out)@ == old(out)@ + be_bytes(n as nat, 4),
{
    push_be(out, n as u64, 4);
}

/// Appends a 64-bit big-endian number.
pub fn push_be64(out: &mut Vec<u8>, n: u64)
    ensures
        final(out)@ == old(out)@ + be_bytes(n as nat, 8),
{
    push_be(out, n, 8);
}

} // verus!
