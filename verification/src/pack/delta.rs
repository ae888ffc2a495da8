//! Delta instructions: building an object from a base object.

use vstd::prelude::*;

use super::varint::{delta_size, read_delta_size_varint};
use super::{PackError, PackErrorView, DELTA_TARGET_CAP};
use crate::bytes::push_all;

verus! {

/// The weight of bit `b` of a byte.
pub open spec fn weight(b: int) -> int {
    if b == 0 {
        1
    } else if b == 1 {
        2
    } else if b == 2 {
        4
    } else if b == 3 {
        8
    } else if b == 4 {
        16
    } else if b == 5 {
        32
    } else {
        64
    }
}

/// Whether a copy instruction carries its `b`-th argument byte: four bytes
/// of offset come first, then three of size.
pub open spec fn has_arg(op: u8, b: int) -> bool {
    (op as int / weight(b)) % 2 == 1
}

/// How many of the first `b` argument bytes are there.
pub open spec fn args_before(op: u8, b: int) -> nat
    decreases b,
{
    if b <= 0 {
        0
    } else if has_arg(op, b - 1) {
        args_before(op, b - 1) + 1
    } else {
        args_before(op, b - 1)
    }
}

/// The `b`-th argument byte, zero if it is left out.
pub open spec fn arg(op: u8, args: Seq<u8>, b: int) -> int {
    if has_arg(op, b) {
        args[args_before(op, b) as int] as int
    } else {
        0
    }
}

/// Where a copy instruction begins to copy.
pub open spec fn copy_offset(op: u8, args: Seq<u8>) -> int {
    arg(op, args, 0) + 0x100 * arg(op, args, 1) + 0x1_0000 * arg(op, args, 2) + 0x100_0000 * arg(
        op,
        args,
        3,
    )
}

/// How many bytes a copy instruction copies; zero stands for 65536.
pub open spec fn copy_size(op: u8, args: Seq<u8>) -> int {
    let n = arg(op, args, 4) + 0x100 * arg(op, args, 5) + 0x1_0000 * arg(op, args, 6);
    if n == 0 {
        0x1_0000
    } else {
        n
    }
}

/// What the instructions build from the base, or `None` if one of them
/// cannot be carried out: it is cut off, copies from outside the base, or
/// is the reserved zero.
pub open spec fn run_delta(base: Seq<u8>, ins: Seq<u8>) -> Option<Seq<u8>>
    decreases ins.len(),
{
    if ins.len() == 0 {
        Some(Seq::empty())
    } else {
        let op = ins[0];
        let args = ins.skip(1);
        let n = args_before(op, 7);
        if op >= 128 {
            let from = copy_offset(op, args);
            let to = from + copy_size(op, args);
            if n > args.len() || to > base.len() {
                None
            } else {
                match run_delta(base, args.skip(n as int)) {
                    Some(rest) => Some(base.subrange(from, to) + rest),
                    None => None,
                }
            }
        } else if op == 0 || op > args.len() {
            None
        } else {
            match run_delta(base, args.skip(op as int)) {
                Some(rest) => Some(args.take(op as int) + rest),
                None => None,
            }
        }
    }
}

/// What a delta makes of a base: the two sizes in front have to be those of
/// the base and of the result.
pub open spec fn delta_result(base: Seq<u8>, delta: Seq<u8>) -> Result<Seq<u8>, PackErrorView> {
    match delta_size(delta) {
        None => Err(PackErrorView::BadDelta),
        Some((source, n1)) => match delta_size(delta.skip(n1 as int)) {
            None => Err(PackErrorView::BadDelta),
            Some((target, n2)) => {
                if source != base.len() {
                    Err(PackErrorView::BadDelta)
                } else if target > DELTA_TARGET_CAP {
                    Err(PackErrorView::DeltaTargetTooLarge(target, DELTA_TARGET_CAP as nat))
                } else {
                    match run_delta(base, delta.skip((n1 + n2) as int)) {
                        None => Err(PackErrorView::BadDelta),
                        Some(out) => if out.len() != target {
                            Err(PackErrorView::BadDelta)
                        } else {
                            Ok(out)
                        },
                    }
                }
            },
        },
    }
}

/// There are at most `b` argument bytes among the first `b`.
proof fn args_before_bound(op: u8, b: int)
    requires
        0 <= b,
    ensures
        args_before(op, b) <= b,
    decreases b,
{
    if b > 0 {
        args_before_bound(op, b - 1);
    }
}

/// Fewer arguments before an earlier one.
proof fn args_before_grows(op: u8, b: int, c: int)
    requires
        0 <= b <= c,
    ensures
        args_before(op, b) <= args_before(op, c),
    decreases c,
{
    if b < c {
        args_before_grows(op, b, c - 1);
    }
}

/// Tests for an argument byte.
fn arg_present(op: u8, b: u8) -> (r: bool)
    requires
        b < 7,
    ensures
        r <==> has_arg(op, b as int),
{
    let w: u8 = if b == 0 {
        1
    } else if b == 1 {
        2
    } else if b == 2 {
        4
    } else if b == 3 {
        8
    } else if b == 4 {
        16
    } else if b == 5 {
        32
    } else {
        64
    };
    assert(w as int == weight(b as int));
    op / w % 2 == 1
}

/// Counts the argument bytes before the `b`-th.
fn count_args(op: u8, b: u8) -> (r: usize)
    requires
        b <= 7,
    ensures
        r == args_before(op, b as int),
        r <= 7,
    decreases b,
{
    proof {
        args_before_bound(op, b as int);
    }
    if b == 0 {
        0
    } else {
        let n: usize = count_args(op, b - 1);
        if arg_present(op, b - 1) {
            proof {
                args_before_bound(op, b - 1);
            }
            n + 1
        } else {
            n
        }
    }
}

/// Reads the `b`-th argument byte of the instruction whose arguments begin
/// at `at`.
fn read_arg(data: &[u8], at: usize, op: u8, b: u8) -> (r: u64)
    requires
        b < 7,
        at + args_before(op, 7) <= data@.len(),
    ensures
        r == arg(op, data@.skip(at as int), b as int),
        r < 256,
{
    if arg_present(op, b) {
        let k: usize = count_args(op, b);
        proof {
            args_before_grows(op, b + 1, 7);
            assert(data@.skip(at as int)[k as int] == data@[at + k]);
            assert(data.len() == data@.len());
        }
        data[at + k] as u64
    } else {
        0
    }
}

/// Decodes a copy instruction whose arguments begin at `at`: the range that
/// it copies and the number of its argument bytes, or `None` if it is cut
/// off.
fn copy_range(data: &[u8], at: usize, op: u8) -> (r: Option<(u64, u64, usize)>)
    requires
        at <= data@.len(),
    ensures
        match r {
            Some((from, to, n)) => {
                let args = data@.skip(at as int);
                &&& n == args_before(op, 7)
                &&& n <= args.len()
                &&& from == copy_offset(op, args)
                &&& to == from + copy_size(op, args)
            },
            None => args_before(op, 7) > data@.skip(at as int).len(),
        },
{
    let n: usize = count_args(op, 7);
    if n > data.len() - at {
        return None;
    }
    let a0: u64 = read_arg(data, at, op, 0);
    let a1: u64 = read_arg(data, at, op, 1);
    let a2: u64 = read_arg(data, at, op, 2);
    let a3: u64 = read_arg(data, at, op, 3);
    let from: u64 = a0 + 0x100 * a1 + 0x1_0000 * a2 + 0x100_0000 * a3;
    let a4: u64 = read_arg(data, at, op, 4);
    let a5: u64 = read_arg(data, at, op, 5);
    let a6: u64 = read_arg(data, at, op, 6);
    let given: u64 = a4 + 0x100 * a5 + 0x1_0000 * a6;
    let size: u64 = if given == 0 {
        0x1_0000
    } else {
        given
    };
    Some((from, from + size, n))
}

/// Carries out delta instructions from `at` on.
fn run_instructions(base: &[u8], delta: &[u8], at: usize) -> (r: Option<Vec<u8>>)
    requires
        at <= delta@.len(),
    ensures
        match r {
            Some(out) => run_delta(base@, delta@.skip(at as int)) == Some(out@),
            None => run_delta(base@, delta@.skip(at as int)) is None,
        },
{
    let ghost body = delta@.skip(at as int);
    let mut out: Vec<u8> = Vec::new();
    let mut cursor: usize = at;
    proof {
        match run_delta(base@, body) {
            Some(rest) => {
                assert(out@ + rest =~= rest);
            },
            None => {},
        }
        assert(delta.len() == delta@.len());
    }
    while cursor < delta.len()
        invariant
            cursor <= delta@.len() <= usize::MAX,
            body == delta@.skip(at as int),
            match run_delta(base@, delta@.skip(cursor as int)) {
                Some(rest) => run_delta(base@, body) == Some(out@ + rest),
                None => run_delta(base@, body) is None,
            },
        decreases delta.len() - cursor,
    {
        let ghost here = delta@.skip(cursor as int);
        let ghost before = out@;
        let op: u8 = delta[cursor];
        cursor += 1;
        let ghost args = here.skip(1);
        proof {
            assert(here[0] == op);
            assert(args =~= delta@.skip(cursor as int));
        }
        if op >= 128 {
            let (from, to, n) = match copy_range(delta, cursor, op) {
                Some(x) => x,
                None => return None,
            };
            if to > base.len() as u64 {
                return None;
            }
            push_all(&mut out, &base[from as usize..to as usize]);
            cursor += n;
            proof {
                assert(args.skip(n as int) =~= delta@.skip(cursor as int));
                match run_delta(base@, args.skip(n as int)) {
                    Some(rest) => {
                        assert(before + (base@.subrange(from as int, to as int) + rest) =~= out@
                            + rest);
                    },
                    None => {},
                }
            }
        } else if op == 0 {
            return None;
        } else {
            let n: usize = op as usize;
            if n > delta.len() - cursor {
                return None;
            }
            push_all(&mut out, &delta[cursor..cursor + n]);
            proof {
                assert(args.take(n as int) =~= delta@.subrange(cursor as int, cursor + n));
                assert(args.skip(n as int) =~= delta@.skip(cursor + n));
                match run_delta(base@, args.skip(n as int)) {
                    Some(rest) => {
                        assert(before + (args.take(n as int) + rest) =~= out@ + rest);
                    },
                    None => {},
                }
            }
            cursor += n;
        }
    }
    proof {
        assert(delta@.skip(cursor as int).len() == 0);
        assert(out@ + Seq::<u8>::empty() =~= out@);
    }
    Some(out)
}

/// Applies a delta to a base.
pub fn apply_delta(base: &[u8], delta: &[u8]) -> (r: Result<Vec<u8>, PackError>)
    ensures
        match r {
            Ok(out) => delta_result(base@, delta@) == Ok::<_, PackErrorView>(out@),
            Err(e) => delta_result(base@, delta@) == Err::<Seq<u8>, _>(e@),
        },
{
    assert(delta@.skip(0) =~= delta@);
    let (source, n1) = match read_delta_size_varint(delta, 0) {
        Some(x) => x,
        None => return Err(PackError::BadDelta),
    };
    let (target, n2) = match read_delta_size_varint(delta, n1) {
        Some(x) => x,
        None => return Err(PackError::BadDelta),
    };
    if source != base.len() as u64 {
        return Err(PackError::BadDelta);
    }
    if target > DELTA_TARGET_CAP {
        return Err(PackError::DeltaTargetTooLarge(target, DELTA_TARGET_CAP));
    }
    let out = match run_instructions(base, delta, n1 + n2) {
        Some(out) => out,
        None => return Err(PackError::BadDelta),
    };
    if out.len() as u64 != target {
        return Err(PackError::BadDelta);
    }
    Ok(out)
}

/// Law: a delta that applies says how long its result is, and the result is
/// no longer than the cap.
pub proof fn law_delta_target_size(base: Seq<u8>, delta: Seq<u8>)
    requires
        delta_result(base, delta) is Ok,
    ensures
        ({
            let n1 = (delta_size(delta)->0).1;
            &&& (delta_size(delta)->0).0 == base.len()
            &&& (delta_size(delta.skip(n1 as int))->0).0 == delta_result(base, delta)->Ok_0.len()
            &&& delta_result(base, delta)->Ok_0.len() <= DELTA_TARGET_CAP
        }),
{
}

} // verus!
