//! Deltas that are written down instruction by instruction build what they
//! say.

use vstd::prelude::*;

use super::delta::{
    arg, args_before, copy_offset, copy_size, delta_result, has_arg, run_delta, weight,
};
use super::entry::{entry_object, id_index, id_index_spec};
use super::indexing::entry_at;
use super::varint::{
    back_offset, base128, delta_size, groups, law_size_header_round_trip, offset_value, run_len_is,
    size_header, size_header_bytes, two64,
};
use super::PackErrorView;
use crate::codec::zlib_inflated;
use crate::object::ObjectKind;

verus! {

// ---------------------------------------------------------------------
// Copy instructions
// ---------------------------------------------------------------------

/// The `k`-th binary digit of a number, the least significant first.
pub open spec fn bit(n: int, k: nat) -> bool
    decreases k,
{
    if k == 0 {
        n % 2 == 1
    } else {
        bit(n / 2, (k - 1) as nat)
    }
}

/// The seven argument bytes of a copy instruction: the offset in four bytes
/// and the size in three, the least significant first.
pub open spec fn copy_args(from: int, size: int) -> Seq<u8> {
    seq![
        (from % 256) as u8,
        (from / 256 % 256) as u8,
        (from / 65536 % 256) as u8,
        (from / 16777216 % 256) as u8,
        (size % 256) as u8,
        (size / 256 % 256) as u8,
        (size / 65536 % 256) as u8,
    ]
}

/// Those of the first `n` bytes whose bit in `op` is set.
pub open spec fn chosen(op: u8, bytes: Seq<u8>, n: nat) -> Seq<u8>
    decreases n,
{
    if n == 0 {
        Seq::empty()
    } else if bit(op as int, (n - 1) as nat) {
        chosen(op, bytes, (n - 1) as nat).push(bytes[n - 1])
    } else {
        chosen(op, bytes, (n - 1) as nat)
    }
}

/// A byte's bits are those that say which arguments there are.
proof fn bits_are_args(op: u8)
    ensures
        forall|k: nat| k < 7 ==> #[trigger] bit(op as int, k) == has_arg(op, k as int),
{
    reveal_with_fuel(bit, 8);
    let n = op as int;
    assert(n / 2 / 2 == n / 4);
    assert(n / 2 / 2 / 2 == n / 8);
    assert(n / 2 / 2 / 2 / 2 == n / 16);
    assert(n / 2 / 2 / 2 / 2 / 2 == n / 32);
    assert(n / 2 / 2 / 2 / 2 / 2 / 2 == n / 64);
    assert forall|k: nat| k < 7 implies #[trigger] bit(n, k) == has_arg(op, k as int) by {
        assert(weight(0) == 1 && weight(1) == 2 && weight(2) == 4 && weight(3) == 8);
        assert(weight(4) == 16 && weight(5) == 32 && weight(6) == 64);
        if k == 0 {
            assert(n / 1 == n);
        } else if k == 1 {
        } else if k == 2 {
        } else if k == 3 {
        } else if k == 4 {
        } else if k == 5 {
        } else {
            assert(k == 6);
        }
    }
}

/// The chosen bytes are found again, the others are zero.
proof fn chosen_args(op: u8, bytes: Seq<u8>, rest: Seq<u8>, n: nat, b: int)
    requires
        bytes.len() == 7,
        b < n <= 7,
        0 <= b,
        forall|k: nat| k < 7 ==> #[trigger] bit(op as int, k) || bytes[k as int] == 0,
    ensures
        chosen(op, bytes, n).len() == args_before(op, n as int),
        arg(op, chosen(op, bytes, n) + rest, b) == bytes[b],
    decreases n,
{
    bits_are_args(op);
    chosen_len(op, bytes, n);
    chosen_len(op, bytes, b as nat);
    let all = chosen(op, bytes, n);
    assert(bit(op as int, b as nat) == has_arg(op, b));
    if has_arg(op, b) {
        if b == n - 1 {
            assert(all[args_before(op, b) as int] == bytes[b]);
        } else {
            chosen_args(op, bytes, rest, (n - 1) as nat, b);
            chosen_len(op, bytes, (n - 1) as nat);
            let t = chosen(op, bytes, (n - 1) as nat);
            args_grow(op, b + 1, n - 1);
            assert((t + rest)[args_before(op, b) as int] == t[args_before(op, b) as int]);
            assert(all[args_before(op, b) as int] == t[args_before(op, b) as int]);
        }
        args_grow(op, b + 1, n as int);
        assert((all + rest)[args_before(op, b) as int] == all[args_before(op, b) as int]);
    } else {
        assert(bytes[b] == 0);
    }
}

/// As many bytes are chosen as there are arguments.
proof fn chosen_len(op: u8, bytes: Seq<u8>, n: nat)
    requires
        n <= 7,
    ensures
        chosen(op, bytes, n).len() == args_before(op, n as int),
    decreases n,
{
    bits_are_args(op);
    if n > 0 {
        chosen_len(op, bytes, (n - 1) as nat);
        assert(bit(op as int, (n - 1) as nat) == has_arg(op, n - 1));
    }
}

/// Fewer arguments before an earlier one.
proof fn args_grow(op: u8, b: int, c: int)
    requires
        0 <= b <= c,
    ensures
        args_before(op, b) <= args_before(op, c),
    decreases c,
{
    if b < c {
        args_grow(op, b, c - 1);
    }
}

/// The bytes of an offset and a size make them up again.
proof fn copy_args_sum(from: int, size: int)
    requires
        0 <= from < 0x1_0000_0000,
        0 <= size < 0x100_0000,
    ensures
        ({
            let b = copy_args(from, size);
            &&& b[0] + 0x100 * b[1] + 0x1_0000 * b[2] + 0x100_0000 * b[3] == from
            &&& b[4] + 0x100 * b[5] + 0x1_0000 * b[6] == size
        }),
{
    assert(from / 256 / 256 == from / 65536);
    assert(from / 65536 / 256 == from / 16777216);
    assert(size / 256 / 256 == size / 65536);
    assert(from / 16777216 < 256);
    assert(size / 65536 < 256);
}

/// What a result becomes with bytes in front.
pub open spec fn behind(front: Seq<u8>, rest: Option<Seq<u8>>) -> Option<Seq<u8>> {
    match rest {
        Some(r) => Some(front + r),
        None => None,
    }
}

/// Law: a copy instruction copies the range that its argument bytes write
/// down, whichever zero bytes are left out, and what follows it is carried
/// out behind.
pub proof fn law_copy(base: Seq<u8>, from: int, size: int, op: u8, rest: Seq<u8>)
    requires
        op >= 128,
        0 <= from < 0x1_0000_0000,
        0 < size < 0x100_0000,
        from + size <= base.len(),
        forall|k: nat| k < 7 ==> #[trigger] bit(op as int, k) || copy_args(from, size)[k as int] == 0,
    ensures
        run_delta(base, seq![op] + chosen(op, copy_args(from, size), 7) + rest) == behind(
            base.subrange(from, from + size),
            run_delta(base, rest),
        ),
{
    let bytes = copy_args(from, size);
    let picked = chosen(op, bytes, 7);
    let ins = seq![op] + picked + rest;
    let args = picked + rest;
    assert(ins.skip(1) =~= args);
    assert(ins[0] == op);
    chosen_args(op, bytes, rest, 7, 0);
    chosen_args(op, bytes, rest, 7, 1);
    chosen_args(op, bytes, rest, 7, 2);
    chosen_args(op, bytes, rest, 7, 3);
    chosen_args(op, bytes, rest, 7, 4);
    chosen_args(op, bytes, rest, 7, 5);
    chosen_args(op, bytes, rest, 7, 6);
    copy_args_sum(from, size);
    assert(copy_offset(op, args) == from);
    assert(copy_size(op, args) == size);
    assert(args.skip(picked.len() as int) =~= rest);
}

/// Law: a copy instruction whose size bytes are zero or left out copies
/// 65536 bytes.
pub proof fn law_copy_most(base: Seq<u8>, from: int, op: u8, rest: Seq<u8>)
    requires
        op >= 128,
        0 <= from < 0x1_0000_0000,
        from + 65536 <= base.len(),
        forall|k: nat| k < 7 ==> #[trigger] bit(op as int, k) || copy_args(from, 0)[k as int] == 0,
    ensures
        run_delta(base, seq![op] + chosen(op, copy_args(from, 0), 7) + rest) == behind(
            base.subrange(from, from + 65536),
            run_delta(base, rest),
        ),
{
    let bytes = copy_args(from, 0);
    let picked = chosen(op, bytes, 7);
    let ins = seq![op] + picked + rest;
    let args = picked + rest;
    assert(ins.skip(1) =~= args);
    assert(ins[0] == op);
    chosen_args(op, bytes, rest, 7, 0);
    chosen_args(op, bytes, rest, 7, 1);
    chosen_args(op, bytes, rest, 7, 2);
    chosen_args(op, bytes, rest, 7, 3);
    chosen_args(op, bytes, rest, 7, 4);
    chosen_args(op, bytes, rest, 7, 5);
    chosen_args(op, bytes, rest, 7, 6);
    copy_args_sum(from, 0);
    assert(copy_offset(op, args) == from);
    assert(copy_size(op, args) == 65536);
    assert(args.skip(picked.len() as int) =~= rest);
}

/// Law: a copy instruction that reaches beyond the base, or whose argument
/// bytes are cut off, cannot be carried out.
pub proof fn law_bad_copy(base: Seq<u8>, from: int, size: int, op: u8, rest: Seq<u8>, cut: int)
    requires
        op >= 128,
        0 <= from < 0x1_0000_0000,
        0 < size < 0x100_0000,
        forall|k: nat| k < 7 ==> #[trigger] bit(op as int, k) || copy_args(from, size)[k as int] == 0,
        0 <= cut < chosen(op, copy_args(from, size), 7).len(),
    ensures
        from + size > base.len() ==> run_delta(
            base,
            seq![op] + chosen(op, copy_args(from, size), 7) + rest,
        ) is None,
        run_delta(base, seq![op] + chosen(op, copy_args(from, size), 7).take(cut)) is None,
{
    let bytes = copy_args(from, size);
    let picked = chosen(op, bytes, 7);
    let ins = seq![op] + picked + rest;
    let args = picked + rest;
    assert(ins.skip(1) =~= args);
    assert(ins[0] == op);
    chosen_args(op, bytes, rest, 7, 0);
    chosen_args(op, bytes, rest, 7, 1);
    chosen_args(op, bytes, rest, 7, 2);
    chosen_args(op, bytes, rest, 7, 3);
    chosen_args(op, bytes, rest, 7, 4);
    chosen_args(op, bytes, rest, 7, 5);
    chosen_args(op, bytes, rest, 7, 6);
    copy_args_sum(from, size);
    let short = seq![op] + picked.take(cut);
    assert(short.skip(1) =~= picked.take(cut));
    assert(short[0] == op);
}

// ---------------------------------------------------------------------
// Inserts
// ---------------------------------------------------------------------

/// Law: an insert instruction gives the bytes that follow it, as many as it
/// says; one that is cut off, or that says none, cannot be carried out.
pub proof fn law_insert(base: Seq<u8>, data: Seq<u8>, rest: Seq<u8>, cut: int)
    requires
        0 < data.len() < 128,
        0 <= cut < data.len(),
    ensures
        run_delta(base, seq![data.len() as u8] + data + rest) == behind(
            data,
            run_delta(base, rest),
        ),
        run_delta(base, seq![data.len() as u8] + data.take(cut)) is None,
        run_delta(base, seq![0u8] + rest) is None,
        run_delta(base, Seq::empty()) == Some(Seq::<u8>::empty()),
{
    let ins = seq![data.len() as u8] + data + rest;
    assert(ins[0] == data.len());
    assert(ins.skip(1) =~= data + rest);
    assert((data + rest).take(data.len() as int) =~= data);
    assert((data + rest).skip(data.len() as int) =~= rest);
    let short = seq![data.len() as u8] + data.take(cut);
    assert(short[0] == data.len());
    assert(short.skip(1) =~= data.take(cut));
    assert((seq![0u8] + rest)[0] == 0);
}

// ---------------------------------------------------------------------
// Whole deltas
// ---------------------------------------------------------------------

/// An instruction of a delta.
pub enum Instruction {
    /// Copy `size` bytes of the base from `from` on.
    Copy { from: int, size: int },
    /// Put these bytes.
    Insert(Seq<u8>),
}

/// An instruction that can be written down, for a base of the given length.
pub open spec fn instruction_ok(i: Instruction, base: nat) -> bool {
    match i {
        Instruction::Copy { from, size } => 0 <= from < 0x1_0000_0000 && 0 < size < 0x100_0000
            && from + size <= base,
        Instruction::Insert(data) => 0 < data.len() < 128,
    }
}

/// An instruction written down, with all its argument bytes.
pub open spec fn instruction_bytes(i: Instruction) -> Seq<u8> {
    match i {
        Instruction::Copy { from, size } => seq![255u8] + copy_args(from, size),
        Instruction::Insert(data) => seq![data.len() as u8] + data,
    }
}

/// What an instruction gives.
pub open spec fn instruction_gives(i: Instruction, base: Seq<u8>) -> Seq<u8> {
    match i {
        Instruction::Copy { from, size } => base.subrange(from, from + size),
        Instruction::Insert(data) => data,
    }
}

/// A list of instructions written down.
pub open spec fn program(is: Seq<Instruction>) -> Seq<u8>
    decreases is.len(),
{
    if is.len() == 0 {
        Seq::empty()
    } else {
        instruction_bytes(is[0]) + program(is.drop_first())
    }
}

/// What a list of instructions gives.
pub open spec fn program_gives(is: Seq<Instruction>, base: Seq<u8>) -> Seq<u8>
    decreases is.len(),
{
    if is.len() == 0 {
        Seq::empty()
    } else {
        instruction_gives(is[0], base) + program_gives(is.drop_first(), base)
    }
}

/// All bytes are chosen where all bits are set.
proof fn all_chosen(from: int, size: int)
    ensures
        chosen(255, copy_args(from, size), 7) == copy_args(from, size),
        forall|k: nat| k < 7 ==> #[trigger] bit(255, k),
{
    reveal_with_fuel(bit, 8);
    reveal_with_fuel(chosen, 8);
    bits_are_args(255);
    assert forall|k: nat| k < 7 implies #[trigger] bit(255, k) by {
        assert(bit(255u8 as int, k) == has_arg(255, k as int));
        if k == 0 {
        } else if k == 1 {
        } else if k == 2 {
        } else if k == 3 {
        } else if k == 4 {
        } else if k == 5 {
        } else {
        }
    }
    assert(chosen(255, copy_args(from, size), 7) =~= copy_args(from, size));
}

/// Law: instructions one after the other give what each of them gives, one
/// behind the other.
pub proof fn law_program(base: Seq<u8>, is: Seq<Instruction>)
    requires
        forall|i: int| 0 <= i < is.len() ==> instruction_ok(#[trigger] is[i], base.len()),
    ensures
        run_delta(base, program(is)) == Some(program_gives(is, base)),
    decreases is.len(),
{
    if is.len() > 0 {
        let t = is.drop_first();
        assert forall|i: int| 0 <= i < t.len() implies instruction_ok(
            #[trigger] t[i],
            base.len(),
        ) by {
            assert(t[i] == is[i + 1]);
        }
        law_program(base, t);
        let rest = program(t);
        assert(instruction_ok(is[0], base.len()));
        match is[0] {
            Instruction::Copy { from, size } => {
                all_chosen(from, size);
                law_copy(base, from, size, 255, rest);
            },
            Instruction::Insert(data) => {
                law_insert(base, data, rest, 0);
            },
        }
    }
}

/// A size as it stands in front of a delta: seven bits to a byte, the least
/// significant first, and the high bit set where another byte follows.
pub open spec fn size_bytes(n: nat) -> Seq<u8>
    decreases n,
{
    if n < 128 {
        seq![n as u8]
    } else {
        seq![(128 + n % 128) as u8] + size_bytes(n / 128)
    }
}

/// How many bytes a size takes up.
proof fn size_bytes_len(n: nat, k: nat, bound: nat)
    requires
        n < bound,
        bound == super::varint::pow128(k),
        k > 0,
    ensures
        0 < size_bytes(n).len() <= k,
    decreases k,
{
    if n >= 128 {
        if k == 1 {
            reveal_with_fuel(super::varint::pow128, 2);
        } else {
            let below = super::varint::pow128((k - 1) as nat);
            assert(bound == 128 * below);
            size_bytes_len(n / 128, (k - 1) as nat, below);
        }
    }
}

/// All bytes but the last go on, and together they denote the size.
proof fn size_bytes_shape(n: nat)
    ensures
        ({
            let b = size_bytes(n);
            &&& b.len() > 0
            &&& b.last() < 128
            &&& forall|j: int| 0 <= j < b.len() - 1 ==> #[trigger] b[j] >= 128
            &&& base128(b) == n
        }),
    decreases n,
{
    let b = size_bytes(n);
    if n < 128 {
        assert(b.drop_first() =~= Seq::<u8>::empty());
        reveal_with_fuel(base128, 2);
    } else {
        let t = size_bytes(n / 128);
        size_bytes_shape(n / 128);
        assert(b.drop_first() =~= t);
        assert forall|j: int| 0 <= j < b.len() - 1 implies #[trigger] b[j] >= 128 by {
            if j > 0 {
                assert(b[j] == t[j - 1]);
            }
        }
        assert(b.last() == t.last());
        assert((128 + n % 128) % 128 == n % 128);
    }
}

/// Law: a size in front of a delta is read as it was written down, whatever
/// follows.
pub proof fn law_delta_size_round_trip(n: nat, rest: Seq<u8>)
    requires
        n < two64(),
    ensures
        delta_size(size_bytes(n) + rest) == Some((n, size_bytes(n).len())),
{
    let b = size_bytes(n);
    let s = b + rest;
    size_bytes_shape(n);
    reveal_with_fuel(super::varint::pow128, 11);
    size_bytes_len(n, 10, super::varint::pow128(10));
    assert forall|j: int| 0 <= j < b.len() - 1 implies #[trigger] s[j] >= 128 by {
        assert(s[j] == b[j]);
    }
    assert(s[b.len() - 1] == b.last());
    run_len_is(s, b.len() - 1);
    assert(s.take(b.len() as int) =~= b);
}

/// A delta for a base of the given length, that builds a result of the given
/// length.
pub open spec fn written_delta(base: nat, target: nat, is: Seq<Instruction>) -> Seq<u8> {
    size_bytes(base) + size_bytes(target) + program(is)
}

/// Law: a delta that is written down for a base builds what its instructions
/// give, and is refused for a base of another length, or where it says another
/// length of its result, or one of more than a gibibyte.
pub proof fn law_written_delta(base: Seq<u8>, source: nat, target: nat, is: Seq<Instruction>)
    requires
        base.len() < two64(),
        source < two64(),
        target < two64(),
        forall|i: int| 0 <= i < is.len() ==> instruction_ok(#[trigger] is[i], base.len()),
    ensures
        delta_result(base, written_delta(source, target, is)) == if source == base.len() && target
            > 0x4000_0000 {
            Err(PackErrorView::DeltaTargetTooLarge(target, 0x4000_0000))
        } else if source == base.len() && target == program_gives(is, base).len() {
            Ok::<_, PackErrorView>(program_gives(is, base))
        } else {
            Err(PackErrorView::BadDelta)
        },
{
    let d = written_delta(source, target, is);
    let a = size_bytes(source);
    let b = size_bytes(target);
    let p = program(is);
    assert(d =~= a + (b + p));
    law_delta_size_round_trip(source, b + p);
    assert(d.skip(a.len() as int) =~= b + p);
    law_delta_size_round_trip(target, p);
    assert(d.skip((a.len() + b.len()) as int) =~= p);
    law_program(base, is);
}

// ---------------------------------------------------------------------
// Backward offsets
// ---------------------------------------------------------------------

/// The groups of a backward offset that others follow, the most significant
/// first: each says that the number goes on, and stands for one more than it
/// holds.
pub open spec fn offset_front(n: nat) -> Seq<u8>
    decreases n,
{
    if n < 128 {
        seq![(128 + n) as u8]
    } else {
        offset_front((n / 128 - 1) as nat).push((128 + n % 128) as u8)
    }
}

/// A backward offset written down.
pub open spec fn offset_bytes(n: nat) -> Seq<u8> {
    if n < 128 {
        seq![n as u8]
    } else {
        offset_front((n / 128 - 1) as nat).push((n % 128) as u8)
    }
}

/// What the groups in front denote.
proof fn offset_front_shape(n: nat)
    ensures
        ({
            let b = offset_front(n);
            &&& b.len() > 0
            &&& forall|j: int| 0 <= j < b.len() ==> #[trigger] b[j] >= 128
            &&& offset_value(b) == n
        }),
    decreases n,
{
    let b = offset_front(n);
    if n >= 128 {
        let t = offset_front((n / 128 - 1) as nat);
        offset_front_shape((n / 128 - 1) as nat);
        assert(b.drop_last() =~= t);
        assert((128 + n % 128) % 128 == n % 128);
    }
}

/// Law: a backward offset is read as it was written down, whatever follows.
pub proof fn law_offset_round_trip(n: nat, rest: Seq<u8>)
    requires
        n < two64(),
    ensures
        back_offset(offset_bytes(n) + rest) == Some((n, offset_bytes(n).len())),
{
    let b = offset_bytes(n);
    let s = b + rest;
    if n >= 128 {
        let t = offset_front((n / 128 - 1) as nat);
        offset_front_shape((n / 128 - 1) as nat);
        assert(b.drop_last() =~= t);
        assert forall|j: int| 0 <= j < b.len() - 1 implies #[trigger] s[j] >= 128 by {
            assert(s[j] == t[j]);
        }
    }
    assert(s[b.len() - 1] == b.last());
    assert(offset_value(b) == n);
    run_len_is(s, b.len() - 1);
    assert(s.take(b.len() as int) =~= b);
}

// ---------------------------------------------------------------------
// Entries
// ---------------------------------------------------------------------

/// The header of an entry: type and size, whose lowest four bits stand beside
/// the type.
pub open spec fn entry_header(code: u8, size: nat) -> Seq<u8> {
    if size < 16 {
        seq![(16 * code + size) as u8]
    } else {
        seq![(128 + 16 * code + size % 16) as u8] + size_bytes(size / 16)
    }
}

/// The groups of a size are its bytes.
proof fn groups_are_size_bytes(n: nat)
    requires
        n > 0,
    ensures
        groups(n) == size_bytes(n),
    decreases n,
{
    if n >= 128 {
        groups_are_size_bytes(n / 128);
    }
}

/// Law: the header of an entry has the type in bits four to six of its first
/// byte, the lowest four bits of the size below them, and the others behind,
/// seven to a byte; and it is read so.
pub proof fn law_entry_header(code: u8, size: nat, rest: Seq<u8>)
    requires
        code < 8,
        size < two64(),
    ensures
        size_header_bytes(code, size) == entry_header(code, size),
        size_header(entry_header(code, size) + rest) == Some(
            (code, size, entry_header(code, size).len()),
        ),
{
    if size >= 16 {
        groups_are_size_bytes(size / 16);
    }
    assert(size_header_bytes(code, size) =~= entry_header(code, size));
    law_size_header_round_trip(code, size, rest);
}

/// The type of a full object's entry.
pub open spec fn type_number(kind: ObjectKind) -> u8 {
    match kind {
        ObjectKind::Commit => 1,
        ObjectKind::Tree => 2,
        ObjectKind::Blob => 3,
        ObjectKind::Tag => 4,
    }
}

/// Law: an entry with a full object reads as its kind and what comes out of
/// its zlib stream, and is told so when the pack is indexed.
pub proof fn law_full_entry(
    bytes: Seq<u8>,
    ids: Seq<Seq<u8>>,
    offsets: Seq<nat>,
    at: int,
    depth: nat,
    kind: ObjectKind,
    payload: Seq<u8>,
    used: nat,
    rest: Seq<u8>,
)
    requires
        0 <= at < bytes.len(),
        depth <= 50,
        payload.len() < two64(),
        bytes.skip(at) == entry_header(type_number(kind), payload.len()) + rest,
        zlib_inflated(rest) == Some((payload, used)),
    ensures
        entry_object(bytes, ids, offsets, at, depth) == Ok::<_, PackErrorView>((kind, payload)),
        entry_at(bytes, at) matches Ok(e) && e.start == at && e.end == bytes.len() - rest.len()
            + used && e.body == bytes.len() - rest.len() && e.ofs_base is None && e.ref_base is None
            && e.code == type_number(kind),
{
    let h = entry_header(type_number(kind), payload.len());
    law_entry_header(type_number(kind), payload.len(), rest);
    assert(bytes.skip(at + h.len()) =~= bytes.skip(at).skip(h.len() as int));
    assert(bytes.skip(at).skip(h.len() as int) =~= rest);
    assert(bytes.skip(at).len() == bytes.len() - at);
}

/// Law: an entry with an offset delta reads as what the delta makes of the
/// object in the entry so many bytes before it, and is told so when the pack
/// is indexed.
pub proof fn law_offset_entry(
    bytes: Seq<u8>,
    ids: Seq<Seq<u8>>,
    offsets: Seq<nat>,
    at: int,
    depth: nat,
    back: nat,
    delta: Seq<u8>,
    used: nat,
    kind: ObjectKind,
    base: Seq<u8>,
    rest: Seq<u8>,
)
    requires
        0 < back < at < bytes.len(),
        back < two64(),
        depth <= 50,
        delta.len() < two64(),
        bytes.skip(at) == entry_header(6, delta.len()) + offset_bytes(back) + rest,
        zlib_inflated(rest) == Some((delta, used)),
        entry_object(bytes, ids, offsets, at - back, depth + 1) == Ok::<_, PackErrorView>(
            (kind, base),
        ),
    ensures
        entry_object(bytes, ids, offsets, at, depth) == match delta_result(base, delta) {
            Ok(out) => Ok::<_, PackErrorView>((kind, out)),
            Err(e) => Err(e),
        },
        entry_at(bytes, at) matches Ok(e) && e.start == at && e.end == bytes.len() - rest.len()
            + used && e.body == bytes.len() - rest.len() && e.ofs_base == Some(at - back)
            && e.ref_base is None,
{
    let h = entry_header(6, delta.len());
    let o = offset_bytes(back);
    assert(bytes.skip(at) =~= h + (o + rest));
    law_entry_header(6, delta.len(), o + rest);
    law_offset_round_trip(back, rest);
    assert(bytes.skip(at + h.len()) =~= bytes.skip(at).skip(h.len() as int));
    assert(bytes.skip(at).skip(h.len() as int) =~= o + rest);
    assert(bytes.skip(at + h.len() + o.len()) =~= bytes.skip(at + h.len()).skip(o.len() as int));
    assert((o + rest).skip(o.len() as int) =~= rest);
    assert(bytes.skip(at).len() == bytes.len() - at);
}

/// Law: an entry with a reference delta reads as what the delta makes of the
/// object that it names, found by the index, and is told so when the pack is
/// indexed.
pub proof fn law_reference_entry(
    bytes: Seq<u8>,
    ids: Seq<Seq<u8>>,
    offsets: Seq<nat>,
    at: int,
    depth: nat,
    id: Seq<u8>,
    k: int,
    delta: Seq<u8>,
    used: nat,
    kind: ObjectKind,
    base: Seq<u8>,
    rest: Seq<u8>,
)
    requires
        0 <= at < bytes.len(),
        depth <= 50,
        delta.len() < two64(),
        id.len() == 20,
        bytes.skip(at) == entry_header(7, delta.len()) + id + rest,
        zlib_inflated(rest) == Some((delta, used)),
        0 <= k < ids.len(),
        ids[k] == id,
        forall|j: int| 0 <= j < ids.len() && j != k ==> #[trigger] ids[j] != id,
        entry_object(bytes, ids, offsets, offsets[k] as int, depth + 1) == Ok::<_, PackErrorView>(
            (kind, base),
        ),
    ensures
        entry_object(bytes, ids, offsets, at, depth) == match delta_result(base, delta) {
            Ok(out) => Ok::<_, PackErrorView>((kind, out)),
            Err(e) => Err(e),
        },
        entry_at(bytes, at) matches Ok(e) && e.start == at && e.end == bytes.len() - rest.len()
            + used && e.body == bytes.len() - rest.len() && e.ofs_base is None && e.ref_base
            == Some(id),
{
    let h = entry_header(7, delta.len());
    assert(bytes.skip(at) =~= h + (id + rest));
    law_entry_header(7, delta.len(), id + rest);
    let body = at + h.len();
    assert(bytes.skip(body) =~= bytes.skip(at).skip(h.len() as int));
    assert(bytes.skip(at).skip(h.len() as int) =~= id + rest);
    assert(bytes.subrange(body, body + 20) =~= bytes.skip(body).take(20));
    assert((id + rest).take(20) =~= id);
    assert(bytes.skip(body + 20) =~= bytes.skip(body).skip(20));
    assert((id + rest).skip(20) =~= rest);
    assert(bytes.skip(at).len() == bytes.len() - at);
    id_index_spec(ids, id);
    if id_index(ids, id) is None {
        assert(ids.contains(ids[k]));
    }
}

} // verus!
