//! The three variable-length number encodings of pack files.

use vstd::prelude::*;

verus! {

/// What a 64-bit number can count.
pub open spec fn two64() -> nat {
    0x1_0000_0000_0000_0000
}

/// How many bytes at the beginning of `s` have their high bit set, which
/// says that the number goes on.
pub open spec fn run_len(s: Seq<u8>) -> nat
    decreases s.len(),
{
    if s.len() == 0 || s[0] < 128 {
        0
    } else {
        1 + run_len(s.drop_first())
    }
}

/// What [`run_len`] is.
pub proof fn run_len_is(s: Seq<u8>, k: int)
    requires
        0 <= k <= s.len(),
        forall|j: int| 0 <= j < k ==> #[trigger] s[j] >= 128,
        k < s.len() ==> s[k] < 128,
    ensures
        run_len(s) == k,
    decreases s.len(),
{
    if k > 0 {
        assert(s[0] >= 128);
        let t = s.drop_first();
        assert forall|j: int| 0 <= j < k - 1 implies #[trigger] t[j] >= 128 by {
            assert(t[j] == s[j + 1]);
        }
        run_len_is(t, k - 1);
    }
}

/// A run is no longer than the string.
pub proof fn run_len_bound(s: Seq<u8>)
    ensures
        run_len(s) <= s.len(),
        run_len(s) < s.len() ==> s[run_len(s) as int] < 128,
        forall|j: int| 0 <= j < run_len(s) ==> #[trigger] s[j] >= 128,
    decreases s.len(),
{
    if s.len() > 0 && s[0] >= 128 {
        let t = s.drop_first();
        run_len_bound(t);
        assert forall|j: int| 0 <= j < run_len(s) implies #[trigger] s[j] >= 128 by {
            if j > 0 {
                assert(t[j - 1] >= 128);
            }
        }
    }
}

/// The number that the low seven bits of each byte denote, least
/// significant first.
pub open spec fn base128(s: Seq<u8>) -> nat
    decreases s.len(),
{
    if s.len() == 0 {
        0
    } else {
        (s[0] % 128) as nat + 128 * base128(s.drop_first())
    }
}

/// 128 to the power of `k`.
pub open spec fn pow128(k: nat) -> nat
    decreases k,
{
    if k == 0 {
        1
    } else {
        128 * pow128((k - 1) as nat)
    }
}

/// One more digit at the end.
pub proof fn base128_push(s: Seq<u8>, b: u8)
    ensures
        base128(s.push(b)) == base128(s) + (b % 128) as nat * pow128(s.len()),
    decreases s.len(),
{
    if s.len() == 0 {
        assert(s.push(b).drop_first() =~= Seq::<u8>::empty());
        reveal_with_fuel(base128, 2);
        assert((b % 128) as nat * 1 == (b % 128) as nat);
    } else {
        let t = s.drop_first();
        base128_push(t, b);
        assert(s.push(b).drop_first() =~= t.push(b));
        let x = (b % 128) as nat;
        let p = pow128(t.len());
        assert(128 * (base128(t) + x * p) == 128 * base128(t) + x * (128 * p))
            by (nonlinear_arith);
        assert(pow128(s.len()) == 128 * p);
    }
}

/// The powers that fit.
pub proof fn pow128_small(k: nat)
    requires
        k <= 9,
    ensures
        0 < pow128(k) <= 0x8000_0000_0000_0000,
{
    reveal_with_fuel(pow128, 10);
}

// ---------------------------------------------------------------------
// Sizes in a delta stream
// ---------------------------------------------------------------------

/// The size at the beginning of `s` in a delta stream, kept to 64 bits, and
/// how many bytes it takes up: seven bits for each byte, at most ten bytes.
pub open spec fn delta_size(s: Seq<u8>) -> Option<(nat, nat)> {
    let k = run_len(s);
    if k >= s.len() || k >= 10 {
        None
    } else {
        Some((base128(s.take(k as int + 1)) % two64(), k + 1))
    }
}

/// Accumulates one more group of seven bits.
fn add_group(value: u64, byte: u8, scale: u64, factor: u64) -> (r: u64)
    ensures
        r as nat == (value as nat + factor as nat * ((byte % 128) as nat * scale as nat))
            % two64(),
{
    let x: u128 = (byte % 128) as u128;
    proof {
        assert(x * scale <= 127 * 0xffff_ffff_ffff_ffff) by (nonlinear_arith)
            requires
                x <= 127,
                scale <= 0xffff_ffff_ffff_ffff,
        ;
        assert(0 <= x * scale) by (nonlinear_arith);
        let p = (x * scale) % 0x1_0000_0000_0000_0000;
        assert(p * factor <= 0xffff_ffff_ffff_ffff * 0xffff_ffff_ffff_ffff) by (nonlinear_arith)
            requires
                0 <= p <= 0xffff_ffff_ffff_ffff,
                factor <= 0xffff_ffff_ffff_ffff,
        ;
        assert(0 <= p * factor) by (nonlinear_arith)
            requires
                0 <= p,
        ;
    }
    let m: u128 = 0x1_0000_0000_0000_0000;
    let product: u128 = x * scale as u128;
    let scaled: u128 = product % m * factor as u128;
    let sum: u128 = scaled % m + value as u128;
    proof {
        let xs = x as int * scale as int;
        let f = factor as int;
        let mi = m as int;
        vstd::arithmetic::div_mod::lemma_mul_mod_noop_left(xs, f, mi);
        assert((xs % mi) * f % mi == (xs * f) % mi);
        vstd::arithmetic::div_mod::lemma_add_mod_noop(xs * f, value as int, mi);
        vstd::arithmetic::div_mod::lemma_add_mod_noop((xs * f) % mi, value as int, mi);
        vstd::arithmetic::div_mod::lemma_mod_twice(xs * f, mi);
        assert(xs * f == f * xs) by (nonlinear_arith);
        assert(sum % m == (xs * f + value) % mi);
    }
    (sum % m) as u64
}

/// Reads a size of a delta stream at `at`: the size and how many bytes it
/// takes up, or `None` where the stream ends in it or it goes on for more
/// than ten bytes.
pub fn read_delta_size_varint(data: &[u8], at: usize) -> (r: Option<(u64, usize)>)
    requires
        at <= data@.len(),
    ensures
        match r {
            Some((v, n)) => delta_size(data@.skip(at as int)) == Some((v as nat, n as nat)) && at
                + n <= data@.len(),
            None => delta_size(data@.skip(at as int)) is None,
        },
{
    let ghost s = data@.skip(at as int);
    let mut value: u64 = 0;
    let mut scale: u64 = 1;
    let mut k: usize = 0;
    assert(data.len() == data@.len());
    assert(s.take(0) =~= Seq::<u8>::empty());
    loop
        invariant
            at <= data@.len() <= usize::MAX,
            s == data@.skip(at as int),
            k <= 9,
            k <= s.len(),
            forall|j: int| 0 <= j < k ==> #[trigger] s[j] >= 128,
            value as nat == base128(s.take(k as int)) % two64(),
            scale as nat == pow128(k as nat),
        decreases 10 - k,
    {
        if k >= data.len() - at {
            proof {
                run_len_is(s, s.len() as int);
            }
            return None;
        }
        let byte: u8 = data[at + k];
        assert(byte == s[k as int]);
        proof {
            base128_push(s.take(k as int), byte);
            assert(s.take(k + 1) =~= s.take(k as int).push(byte));
            let x = (byte % 128) as int * scale as int;
            vstd::arithmetic::div_mod::lemma_add_mod_noop(
                base128(s.take(k as int)) as int,
                x,
                two64() as int,
            );
            vstd::arithmetic::div_mod::lemma_add_mod_noop(value as int, x, two64() as int);
            vstd::arithmetic::div_mod::lemma_mod_twice(
                base128(s.take(k as int)) as int,
                two64() as int,
            );
            assert(1 * ((byte % 128) as nat * scale as nat) == (byte % 128) as nat * scale as nat);
        }
        value = add_group(value, byte, scale, 1);
        if byte < 128 {
            proof {
                run_len_is(s, k as int);
            }
            return Some((value, k + 1));
        }
        if k == 9 {
            proof {
                run_len_bound(s);
                if run_len(s) < 10 {
                    assert(s[run_len(s) as int] < 128);
                    assert(s[9] >= 128);
                }
            }
            return None;
        }
        proof {
            pow128_small((k + 1) as nat);
        }
        scale = scale * 128;
        k += 1;
    }
}

// ---------------------------------------------------------------------
// Type and size of an entry
// ---------------------------------------------------------------------

/// The bytes that carry the size beyond its four lowest bits.
pub open spec fn size_tail(s: Seq<u8>) -> Seq<u8> {
    if s[0] < 128 {
        Seq::empty()
    } else {
        s.subrange(1, 2 + run_len(s.skip(1)) as int)
    }
}

/// Whether `s` begins with a complete entry header: its first byte and at
/// most nine more.
pub open spec fn has_size_header(s: Seq<u8>) -> bool {
    &&& s.len() > 0
    &&& s[0] >= 128 ==> run_len(s.skip(1)) < s.len() - 1 && run_len(s.skip(1)) < 9
}

/// The type code, the size, kept to 64 bits, and the length of the entry
/// header at the beginning of `s`.
pub open spec fn size_header(s: Seq<u8>) -> Option<(u8, nat, nat)> {
    if has_size_header(s) {
        Some(
            (
                (s[0] / 16 % 8) as u8,
                ((s[0] % 16) as nat + 16 * base128(size_tail(s))) % two64(),
                1 + size_tail(s).len(),
            ),
        )
    } else {
        None
    }
}

/// Decodes an entry's type code, size and header length at `at`; `None`
/// where the data ends in it or it goes on for more than ten bytes.
pub fn read_size_varint(data: &[u8], at: usize) -> (r: Option<(u8, u64, usize)>)
    ensures
        at >= data@.len() ==> r is None,
        at < data@.len() ==> match r {
            Some((code, size, n)) => size_header(data@.skip(at as int)) == Some(
                (code, size as nat, n as nat),
            ) && at + n <= data@.len() && code < 8,
            None => size_header(data@.skip(at as int)) is None,
        },
{
    if at >= data.len() {
        return None;
    }
    let ghost s = data@.skip(at as int);
    let first: u8 = data[at];
    assert(s[0] == first);
    let code: u8 = first / 16 % 8;
    let mut size: u64 = (first % 16) as u64;
    if first < 128 {
        assert(base128(Seq::<u8>::empty()) == 0);
        return Some((code, size, 1));
    }
    let ghost t = s.skip(1);
    let mut scale: u64 = 1;
    let mut k: usize = 0;
    assert(t.take(0) =~= Seq::<u8>::empty());
    assert(data.len() == data@.len());
    loop
        invariant
            at < data@.len() <= usize::MAX,
            s == data@.skip(at as int),
            t == s.skip(1),
            s[0] == first,
            first >= 128,
            code == first / 16 % 8,
            k <= 8,
            k <= t.len(),
            forall|j: int| 0 <= j < k ==> #[trigger] t[j] >= 128,
            size as nat == ((first % 16) as nat + 16 * base128(t.take(k as int))) % two64(),
            scale as nat == pow128(k as nat),
        decreases 9 - k,
    {
        if k + 1 >= data.len() - at {
            proof {
                run_len_is(t, t.len() as int);
            }
            return None;
        }
        let byte: u8 = data[at + 1 + k];
        assert(byte == t[k as int]);
        proof {
            base128_push(t.take(k as int), byte);
            assert(t.take(k + 1) =~= t.take(k as int).push(byte));
            let x = (byte % 128) as int * scale as int;
            let before = (first % 16) as int + 16 * base128(t.take(k as int)) as int;
            vstd::arithmetic::div_mod::lemma_add_mod_noop(before, 16 * x, two64() as int);
            vstd::arithmetic::div_mod::lemma_add_mod_noop(size as int, 16 * x, two64() as int);
            vstd::arithmetic::div_mod::lemma_mod_twice(before, two64() as int);
        }
        size = add_group(size, byte, scale, 16);
        if byte < 128 {
            proof {
                run_len_is(t, k as int);
                assert(size_tail(s) =~= t.take(k + 1));
            }
            return Some((code, size, k + 2));
        }
        if k == 8 {
            proof {
                run_len_bound(t);
                if run_len(t) < 9 {
                    assert(t[run_len(t) as int] < 128);
                    assert(t[8] >= 128);
                }
            }
            return None;
        }
        proof {
            pow128_small((k + 1) as nat);
        }
        scale = scale * 128;
        k += 1;
    }
}

/// `n` in groups of seven bits, least significant first, each but the last
/// with its high bit set. Zero has no groups.
pub open spec fn groups(n: nat) -> Seq<u8>
    decreases n,
{
    if n == 0 {
        Seq::empty()
    } else if n < 128 {
        seq![n as u8]
    } else {
        seq![(128 + n % 128) as u8] + groups(n / 128)
    }
}

/// The entry header for a type code and a size.
pub open spec fn size_header_bytes(code: u8, size: nat) -> Seq<u8> {
    if size < 16 {
        seq![(code % 8 * 16 + size) as u8]
    } else {
        seq![(128 + code % 8 * 16 + size % 16) as u8] + groups(size / 16)
    }
}

/// Encodes an entry header.
pub fn write_size_varint(out: &mut Vec<u8>, code: u8, size: u64)
    ensures
        final(out)@ == old(out)@ + size_header_bytes(code, size as nat),
{
    let mut rest: u64 = size / 16;
    let cont: u8 = if rest > 0 {
        128
    } else {
        0
    };
    out.push(cont + code % 8 * 16 + (size % 16) as u8);
    let ghost head = out@;
    assert(head + groups(rest as nat) =~= old(out)@ + size_header_bytes(code, size as nat));
    while rest > 0
        invariant
            out@ + groups(rest as nat) == old(out)@ + size_header_bytes(code, size as nat),
        decreases rest,
    {
        let ghost before = out@;
        let cont: u8 = if rest > 127 {
            128
        } else {
            0
        };
        out.push(cont + (rest % 128) as u8);
        assert(out@ + groups((rest / 128) as nat) =~= before + groups(rest as nat));
        rest = rest / 128;
    }
    assert(out@ =~= out@ + groups(0));
}

/// Groups denote the number they were made of and end where it ends.
proof fn groups_round_trip(n: nat, rest: Seq<u8>)
    requires
        0 < n,
    ensures
        base128(groups(n)) == n,
        groups(n).len() > 0,
        run_len(groups(n) + rest) == groups(n).len() - 1,
    decreases n,
{
    let g = groups(n);
    if n < 128 {
        assert(g.drop_first() =~= Seq::<u8>::empty());
        reveal_with_fuel(base128, 2);
        assert((g + rest)[0] == g[0]);
    } else {
        groups_round_trip(n / 128, rest);
        assert(g.drop_first() =~= groups(n / 128));
        assert((g + rest)[0] == g[0]);
        assert((g + rest).drop_first() =~= groups(n / 128) + rest);
        assert(g[0] % 128 == n % 128);
    }
}

/// A number below 128 to the `k` has at most `k` groups.
proof fn groups_len(n: nat, k: nat)
    requires
        n < pow128(k),
    ensures
        groups(n).len() <= k,
    decreases k,
{
    if n >= 128 {
        if k == 0 {
        } else {
            assert(n / 128 < pow128((k - 1) as nat));
            groups_len(n / 128, (k - 1) as nat);
        }
    }
}

/// Law: a written entry header reads back as its type code and size, for
/// every 64-bit size and whatever follows it.
pub proof fn law_size_header_round_trip(code: u8, size: nat, rest: Seq<u8>)
    requires
        code < 8,
        size < two64(),
    ensures
        size_header(size_header_bytes(code, size) + rest) == Some(
            (code, size, size_header_bytes(code, size).len()),
        ),
{
    let h = size_header_bytes(code, size);
    let s = h + rest;
    assert(s[0] == h[0]);
    if size < 16 {
        assert(h[0] == (code * 16 + size) as u8);
        assert(base128(Seq::<u8>::empty()) == 0);
    } else {
        assert(h[0] == (128 + code * 16 + size % 16) as u8);
        let g = groups(size / 16);
        assert(s.skip(1) =~= g + rest);
        groups_round_trip(size / 16, rest);
        reveal_with_fuel(pow128, 10);
        groups_len(size / 16, 9);
        assert(size_tail(s) =~= g);
    }
}

// ---------------------------------------------------------------------
// Backward offsets
// ---------------------------------------------------------------------

/// The number that a backward offset denotes: most significant group first,
/// one added for each byte that goes on.
pub open spec fn offset_value(s: Seq<u8>) -> nat
    decreases s.len(),
{
    if s.len() == 0 {
        0
    } else if s.len() == 1 {
        (s[0] % 128) as nat
    } else {
        (offset_value(s.drop_last()) + 1) * 128 + (s.last() % 128) as nat
    }
}

/// The backward offset at the beginning of `s`, kept to 64 bits, and how
/// many bytes it takes up.
pub open spec fn back_offset(s: Seq<u8>) -> Option<(nat, nat)> {
    let k = run_len(s);
    if k >= s.len() {
        None
    } else {
        Some((offset_value(s.take(k as int + 1)) % two64(), k + 1))
    }
}

/// Decodes a backward offset at `at`; `None` where the data ends in it.
pub fn read_offset_varint(data: &[u8], at: usize) -> (r: Option<(u64, usize)>)
    requires
        at <= data@.len(),
    ensures
        match r {
            Some((v, n)) => back_offset(data@.skip(at as int)) == Some((v as nat, n as nat)) && at
                + n <= data@.len(),
            None => back_offset(data@.skip(at as int)) is None,
        },
{
    let ghost s = data@.skip(at as int);
    if at == data.len() {
        return None;
    }
    let mut k: usize = 0;
    let mut byte: u8 = data[at];
    let mut value: u64 = (byte % 128) as u64;
    assert(s.take(1) =~= seq![byte]);
    assert(data.len() == data@.len());
    while byte >= 128
        invariant
            at < data@.len() <= usize::MAX,
            s == data@.skip(at as int),
            k < s.len(),
            byte == s[k as int],
            forall|j: int| 0 <= j < k ==> #[trigger] s[j] >= 128,
            value as nat == offset_value(s.take(k + 1)) % two64(),
        decreases s.len() - k,
    {
        k += 1;
        if k >= data.len() - at {
            proof {
                run_len_is(s, s.len() as int);
            }
            return None;
        }
        byte = data[at + k];
        proof {
            assert(s.take(k + 1).drop_last() =~= s.take(k as int));
            let v = offset_value(s.take(k as int)) as int;
            let d = (byte % 128) as int;
            let m = two64() as int;
            vstd::arithmetic::div_mod::lemma_mul_mod_noop_left(v, 128, m);
            vstd::arithmetic::div_mod::lemma_add_mod_noop(v * 128, 128 + d, m);
            vstd::arithmetic::div_mod::lemma_add_mod_noop((v % m) * 128, 128 + d, m);
            assert(((v % m) * 128 + (128 + d)) % m == (v * 128 + (128 + d)) % m);
            assert((v + 1) * 128 + d == v * 128 + (128 + d));
        }
        value = (((value as u128 + 1) * 128 + (byte % 128) as u128) % 0x1_0000_0000_0000_0000)
            as u64;
    }
    proof {
        run_len_is(s, k as int);
    }
    Some((value, k + 1))
}

} // verus!
