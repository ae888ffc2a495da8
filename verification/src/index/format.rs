//! The index file.

use vstd::prelude::*;

use super::{
    entries_view, extensions_view, in_order, in_order_fixed, insert_sorted, ordered, Index,
    IndexEntry, IndexEntryView, IndexError, IndexErrorView, IndexView, Time,
};
use crate::bytes::{
    ascii, be_bytes, be_bytes_len, be_round_trip, be_round_trip_bytes, be_value, byte_capacities,
    find, push_all, push_be16, push_be32, push_text, read_be16, read_be32, same_bytes, text, to_vec,
    upto, upto_is, upto_spec, NUL,
};
use crate::codec::{sha1, sha1_digest};
use crate::object::ObjectId;

verus! {

// ---------------------------------------------------------------------
// Reading
// ---------------------------------------------------------------------

/// The 32-bit field at `at`.
pub open spec fn field(b: Seq<u8>, at: int) -> u32 {
    be_value(b.subrange(at, at + 4)) as u32
}

/// The flags of the entry at `at`.
pub open spec fn entry_flags(b: Seq<u8>, at: int) -> nat {
    be_value(b.subrange(at + 60, at + 62))
}

/// Where the path of the entry at `at` ends, if it ends properly: at the
/// stated length with a NUL behind it, or, where the length does not fit
/// into its field, at the first NUL.
pub open spec fn path_end(b: Seq<u8>, body: int, at: int) -> Option<int> {
    let n = (entry_flags(b, at) % 0x1000) as int;
    if n < 0xfff {
        let end = at + 62 + n;
        if end > body || b[end] != NUL {
            None
        } else {
            Some(end)
        }
    } else {
        let rest = b.subrange(at + 62, body);
        if upto(rest, NUL) == rest.len() {
            None
        } else {
            Some(at + 62 + upto(rest, NUL))
        }
    }
}

/// `n` rounded up to a multiple of eight.
pub open spec fn padded(n: int) -> int {
    n + (8 - n % 8) % 8
}

/// The entry at `at` and where the next one begins, if it can be read.
pub open spec fn read_entry(b: Seq<u8>, body: int, at: int) -> Option<(IndexEntryView, int)> {
    let flags = entry_flags(b, at);
    if at + 62 > body || (flags / 0x4000) % 2 == 1 {
        None
    } else {
        match path_end(b, body, at) {
            None => None,
            Some(end) => Some(
                (
                    IndexEntryView {
                        ctime: Time { secs: field(b, at), nanos: field(b, at + 4) },
                        mtime: Time { secs: field(b, at + 8), nanos: field(b, at + 12) },
                        dev: field(b, at + 16),
                        ino: field(b, at + 20),
                        mode: field(b, at + 24),
                        uid: field(b, at + 28),
                        gid: field(b, at + 32),
                        size: field(b, at + 36),
                        id: b.subrange(at + 40, at + 60),
                        assume_valid: flags >= 0x8000,
                        stage: ((flags / 0x1000) % 4) as u8,
                        path: b.subrange(at + 62, end),
                    },
                    at + padded(end + 1 - at),
                ),
            ),
        }
    }
}

/// The first `n` entries, in the order of the file, and where they end.
pub open spec fn read_entries(b: Seq<u8>, body: int, n: nat) -> Option<(Seq<IndexEntryView>, int)>
    decreases n,
{
    if n == 0 {
        Some((Seq::empty(), 12))
    } else {
        match read_entries(b, body, (n - 1) as nat) {
            None => None,
            Some((done, at)) => match read_entry(b, body, at) {
                None => None,
                Some((e, next)) => Some((done.push(e), next)),
            },
        }
    }
}

/// The extension blocks from `at` on; fewer than eight bytes at the end are
/// no block.
pub open spec fn read_extensions(b: Seq<u8>, body: int, at: int) -> Option<
    Seq<(Seq<u8>, Seq<u8>)>,
>
    decreases body - at,
{
    if at + 8 > body {
        Some(Seq::empty())
    } else {
        let size = be_value(b.subrange(at + 4, at + 8));
        if at + 8 + size > body {
            None
        } else {
            match read_extensions(b, body, at + 8 + size) {
                None => None,
                Some(rest) => Some(
                    seq![(b.subrange(at, at + 4), b.subrange(at + 8, at + 8 + size))]
                        + rest,
                ),
            }
        }
    }
}

/// What an index file says, or what is wrong with it.
pub open spec fn index_contents(b: Seq<u8>) -> Result<IndexView, IndexErrorView> {
    let body = b.len() - 20;
    if b.len() < 32 || b.take(4) != ascii("DIRC"@) || be_value(b.subrange(4, 8)) != 2 {
        Err(IndexErrorView::BadHeader)
    } else if b.skip(body) != sha1_digest(b.take(body)) {
        Err(IndexErrorView::BadTrailer)
    } else {
        match read_entries(b, body, be_value(b.subrange(8, 12))) {
            None => Err(IndexErrorView::MalformedEntry),
            Some((entries, at)) => match read_extensions(b, body, at) {
                None => Err(IndexErrorView::MalformedEntry),
                Some(extensions) => Ok(IndexView { entries: in_order(entries), extensions }),
            },
        }
    }
}

/// An entry that cannot be read makes the list unreadable.
proof fn read_entries_error(b: Seq<u8>, body: int, k: nat, n: nat)
    requires
        k <= n,
        read_entries(b, body, k) is None,
    ensures
        read_entries(b, body, n) is None,
    decreases n,
{
    if k < n {
        read_entries_error(b, body, k, (n - 1) as nat);
    }
}

/// Finds the end of the path of the entry at `at`.
fn find_path_end(b: &[u8], body: usize, at: usize, flags: u16) -> (r: Option<usize>)
    requires
        at + 62 <= body < b@.len(),
        flags as nat == entry_flags(b@, at as int),
    ensures
        match r {
            Some(end) => path_end(b@, body as int, at as int) == Some(end as int) && at + 62 <= end
                <= body,
            None => path_end(b@, body as int, at as int) is None,
        },
{
    assert(b.len() == b@.len());
    let n: usize = (flags % 0x1000) as usize;
    let start: usize = at + 62;
    if n < 0xfff {
        if n > body - start {
            return None;
        }
        let end: usize = start + n;
        if b[end] != NUL {
            None
        } else {
            Some(end)
        }
    } else {
        let rest = &b[start..body];
        let p: usize = find(rest, NUL);
        if p == rest.len() {
            None
        } else {
            Some(start + p)
        }
    }
}

/// Parses the entry at `at`: the entry and where the next one begins.
fn parse_entry(b: &[u8], body: usize, at: usize) -> (r: Option<(IndexEntry, usize)>)
    requires
        body + 20 == b@.len(),
        at <= body + 8,
    ensures
        match r {
            Some((e, next)) => read_entry(b@, body as int, at as int) == Some((e@, next as int))
                && next <= body + 8,
            None => read_entry(b@, body as int, at as int) is None,
        },
{
    assert(b.len() == b@.len());
    if at > body || body - at < 62 {
        return None;
    }
    let flags: u16 = read_be16(b, at + 60);
    if (flags / 0x4000) % 2 == 1 {
        return None;
    }
    let end: usize = match find_path_end(b, body, at, flags) {
        Some(end) => end,
        None => return None,
    };
    let entry = IndexEntry {
        ctime: Time { secs: read_be32(b, at), nanos: read_be32(b, at + 4) },
        mtime: Time { secs: read_be32(b, at + 8), nanos: read_be32(b, at + 12) },
        dev: read_be32(b, at + 16),
        ino: read_be32(b, at + 20),
        mode: read_be32(b, at + 24),
        uid: read_be32(b, at + 28),
        gid: read_be32(b, at + 32),
        size: read_be32(b, at + 36),
        id: ObjectId::from_slice(b, at + 40),
        assume_valid: flags >= 0x8000,
        stage: ((flags / 0x1000) % 4) as u8,
        path: to_vec(&b[at + 62..end]),
    };
    let len: usize = end + 1 - at;
    let next: usize = at + len + (8 - len % 8) % 8;
    Some((entry, next))
}

/// Parses the extension blocks from `at` on.
fn parse_extensions(b: &[u8], body: usize, at: usize) -> (r: Option<Vec<(Vec<u8>, Vec<u8>)>>)
    requires
        body + 20 == b@.len(),
        at <= body + 8,
    ensures
        match r {
            Some(xs) => read_extensions(b@, body as int, at as int) == Some(extensions_view(xs@)),
            None => read_extensions(b@, body as int, at as int) is None,
        },
{
    let mut out: Vec<(Vec<u8>, Vec<u8>)> = Vec::new();
    let mut cursor: usize = at;
    assert(b.len() == b@.len());
    proof {
        match read_extensions(b@, body as int, at as int) {
            Some(rest) => {
                assert(extensions_view(out@) + rest =~= rest);
            },
            None => {},
        }
    }
    while cursor <= body && body - cursor >= 8
        invariant
            body + 20 == b@.len(),
            b@.len() <= usize::MAX,
            cursor <= body + 8,
            match read_extensions(b@, body as int, cursor as int) {
                Some(rest) => read_extensions(b@, body as int, at as int) == Some(
                    extensions_view(out@) + rest,
                ),
                None => read_extensions(b@, body as int, at as int) is None,
            },
        decreases body - cursor,
    {
        let size: usize = read_be32(b, cursor + 4) as usize;
        let start: usize = cursor + 8;
        if size > body - start {
            return None;
        }
        let ghost before = out@;
        let sig = to_vec(&b[cursor..cursor + 4]);
        let data = to_vec(&b[start..start + size]);
        let ghost x = (sig@, data@);
        out.push((sig, data));
        proof {
            assert(x.0 == b@.subrange(cursor as int, cursor + 4));
            assert(extensions_view(out@) =~= extensions_view(before).push(x));
            match read_extensions(b@, body as int, start + size) {
                Some(rest) => {
                    assert(extensions_view(before) + (seq![x] + rest) =~= extensions_view(out@)
                        + rest);
                },
                None => {},
            }
        }
        cursor = start + size;
    }
    assert(extensions_view(out@) + Seq::<(Seq<u8>, Seq<u8>)>::empty() =~= extensions_view(out@));
    Some(out)
}

/// Parses an index file.
pub fn parse_index(b: &[u8]) -> (r: Result<Index, IndexError>)
    ensures
        match r {
            Ok(index) => index_contents(b@) == Ok::<_, IndexErrorView>(index@),
            Err(e) => index_contents(b@) == Err::<IndexView, _>(e@),
        },
{
    if b.len() < 32 {
        return Err(IndexError::BadHeader);
    }
    proof {
        reveal_strlit("DIRC");
        assert(b@.subrange(0, 4) =~= b@.take(4));
    }
    if !same_bytes(&b[0..4], text("DIRC")) {
        return Err(IndexError::BadHeader);
    }
    if read_be32(b, 4) != 2 {
        return Err(IndexError::BadHeader);
    }
    let n: u32 = read_be32(b, 8);
    let body: usize = b.len() - 20;
    assert(b@.subrange(0, body as int) =~= b@.take(body as int));
    let digest = sha1(&b[0..body]);
    assert(b@.subrange(body as int, b@.len() as int) =~= b@.skip(body as int));
    if !same_bytes(&b[body..b.len()], &digest) {
        return Err(IndexError::BadTrailer);
    }
    let mut entries: Vec<IndexEntry> = Vec::new();
    let ghost mut raw: Seq<IndexEntryView> = Seq::empty();
    let mut cursor: usize = 12;
    let mut i: u32 = 0;
    assert(entries_view(entries@) =~= in_order(raw));
    while i < n
        invariant
            i <= n,
            body + 20 == b@.len(),
            cursor <= body + 8,
            read_entries(b@, body as int, i as nat) == Some((raw, cursor as int)),
            entries_view(entries@) == in_order(raw),
            ordered(entries_view(entries@)),
            read_entries(b@, body as int, n as nat) is None ==> index_contents(b@) == Err::<
                IndexView,
                _,
            >(IndexErrorView::MalformedEntry),
        decreases n - i,
    {
        match parse_entry(b, body, cursor) {
            None => {
                proof {
                    read_entries_error(b@, body as int, (i + 1) as nat, n as nat);
                }
                return Err(IndexError::MalformedEntry);
            },
            Some((entry, next)) => {
                proof {
                    assert(raw.push(entry@).drop_last() =~= raw);
                    raw = raw.push(entry@);
                }
                insert_sorted(&mut entries, entry);
                cursor = next;
            },
        }
        i += 1;
    }
    match parse_extensions(b, body, cursor) {
        None => Err(IndexError::MalformedEntry),
        Some(extensions) => Ok(Index::from_parts(entries, extensions)),
    }
}

// ---------------------------------------------------------------------
// Writing
// ---------------------------------------------------------------------

/// The flags of an entry.
pub open spec fn flags_of(e: IndexEntryView) -> nat {
    (if e.assume_valid {
        0x8000nat
    } else {
        0nat
    }) + (e.stage % 4) as nat * 0x1000 + (if e.path.len() < 0xfff {
        e.path.len()
    } else {
        0xfff
    })
}

/// `n` zero bytes.
pub open spec fn zeros(n: nat) -> Seq<u8> {
    Seq::new(n, |i: int| NUL)
}

/// The fixed part of an entry.
pub open spec fn entry_prefix(e: IndexEntryView) -> Seq<u8> {
    be_bytes(e.ctime.secs as nat, 4) + be_bytes(e.ctime.nanos as nat, 4) + be_bytes(
        e.mtime.secs as nat,
        4,
    ) + be_bytes(e.mtime.nanos as nat, 4) + be_bytes(e.dev as nat, 4) + be_bytes(e.ino as nat, 4)
        + be_bytes(e.mode as nat, 4) + be_bytes(e.uid as nat, 4) + be_bytes(e.gid as nat, 4)
        + be_bytes(e.size as nat, 4) + e.id + be_bytes(flags_of(e), 2)
}

/// The bytes of an entry: fixed part, path, NUL, and padding to a multiple
/// of eight.
#[verifier::opaque]
pub open spec fn entry_bytes(e: IndexEntryView) -> Seq<u8> {
    entry_prefix(e) + e.path + seq![NUL] + zeros(
        (padded(63 + e.path.len() as int) - (63 + e.path.len())) as nat,
    )
}

/// The bytes of the entries, one after the other.
pub open spec fn entries_bytes(es: Seq<IndexEntryView>) -> Seq<u8>
    decreases es.len(),
{
    if es.len() == 0 {
        Seq::empty()
    } else {
        entries_bytes(es.drop_last()) + entry_bytes(es.last())
    }
}

/// The bytes of an extension block; one whose signature has not four bytes
/// is left out.
pub open spec fn extension_bytes(x: (Seq<u8>, Seq<u8>)) -> Seq<u8> {
    if x.0.len() == 4 {
        x.0 + be_bytes(x.1.len() % 0x1_0000_0000, 4) + x.1
    } else {
        Seq::empty()
    }
}

/// The bytes of the extension blocks, one after the other.
pub open spec fn extensions_bytes(xs: Seq<(Seq<u8>, Seq<u8>)>) -> Seq<u8>
    decreases xs.len(),
{
    if xs.len() == 0 {
        Seq::empty()
    } else {
        extension_bytes(xs[0]) + extensions_bytes(xs.drop_first())
    }
}

/// Everything before the trailer.
pub open spec fn index_body(v: IndexView) -> Seq<u8> {
    ascii("DIRC"@) + be_bytes(2, 4) + be_bytes(v.entries.len() % 0x1_0000_0000, 4) + entries_bytes(
        v.entries,
    ) + extensions_bytes(v.extensions)
}

/// The bytes of an index file.
pub open spec fn index_bytes(v: IndexView) -> Seq<u8> {
    index_body(v) + sha1_digest(index_body(v))
}

/// The fixed part has 62 bytes.
pub proof fn entry_prefix_len(e: IndexEntryView)
    requires
        e.id.len() == 20,
    ensures
        entry_prefix(e).len() == 62,
{
    be_bytes_len(e.ctime.secs as nat, 4);
    be_bytes_len(e.ctime.nanos as nat, 4);
    be_bytes_len(e.mtime.secs as nat, 4);
    be_bytes_len(e.mtime.nanos as nat, 4);
    be_bytes_len(e.dev as nat, 4);
    be_bytes_len(e.ino as nat, 4);
    be_bytes_len(e.mode as nat, 4);
    be_bytes_len(e.uid as nat, 4);
    be_bytes_len(e.gid as nat, 4);
    be_bytes_len(e.size as nat, 4);
    be_bytes_len(flags_of(e), 2);
}

/// Appends the fixed part of an entry.
fn push_prefix(out: &mut Vec<u8>, e: &IndexEntry)
    ensures
        final(out)@ == old(out)@ + entry_prefix(e@),
{
    let ghost before = out@;
    push_be32(out, e.ctime.secs);
    push_be32(out, e.ctime.nanos);
    push_be32(out, e.mtime.secs);
    push_be32(out, e.mtime.nanos);
    push_be32(out, e.dev);
    push_be32(out, e.ino);
    push_be32(out, e.mode);
    push_be32(out, e.uid);
    push_be32(out, e.gid);
    push_be32(out, e.size);
    push_all(out, e.id.as_bytes());
    let name: u16 = if e.path.len() < 0xfff {
        e.path.len() as u16
    } else {
        0xfff
    };
    let valid: u16 = if e.assume_valid {
        0x8000
    } else {
        0
    };
    let flags: u16 = valid + (e.stage % 4) as u16 * 0x1000 + name;
    push_be16(out, flags);
    assert(out@ =~= before + entry_prefix(e@));
}

/// Appends `n` zero bytes.
fn push_zeros(out: &mut Vec<u8>, n: usize)
    ensures
        final(out)@ == old(out)@ + zeros(n as nat),
{
    let mut i: usize = 0;
    assert(out@ =~= old(out)@ + zeros(0));
    while i < n
        invariant
            i <= n,
            out@ == old(out)@ + zeros(i as nat),
        decreases n - i,
    {
        out.push(NUL);
        assert(out@ =~= old(out)@ + zeros((i + 1) as nat));
        i += 1;
    }
}

/// Appends an entry.
fn push_entry(out: &mut Vec<u8>, e: &IndexEntry)
    ensures
        final(out)@ == old(out)@ + entry_bytes(e@),
{
    push_prefix(out, e);
    push_all(out, &e.path);
    out.push(NUL);
    let len: usize = 7 + e.path.len() % 8;
    let pad: usize = (8 - len % 8) % 8;
    push_zeros(out, pad);
    proof {
        reveal(entry_bytes);
        let prefix = entry_prefix(e@);
        assert(pad == padded(63 + e.path@.len() as int) - (63 + e.path@.len()));
        assert(out@ =~= old(out)@ + (prefix + e.path@ + seq![NUL] + zeros(pad as nat)));
    }
}

/// Serializes an index. Where its contents fit the format, parsing gives
/// them back.
pub fn serialize_index(index: &Index) -> (r: Vec<u8>)
    ensures
        r@ == index_bytes(index@),
        index_ok(index@) ==> index_contents(r@) == Ok::<_, IndexErrorView>(index@),
{
    let ghost v = index@;
    let mut out: Vec<u8> = Vec::new();
    proof {
        reveal_strlit("DIRC");
    }
    push_text(&mut out, "DIRC");
    push_be32(&mut out, 2);
    let entries = index.entries();
    push_be32(&mut out, (entries.len() as u64 % 0x1_0000_0000) as u32);
    let ghost head = out@;
    let mut i: usize = 0;
    assert(out@ =~= head + entries_bytes(v.entries.take(0)));
    while i < entries.len()
        invariant
            i <= entries@.len(),
            v.entries == entries_view(entries@),
            out@ == head + entries_bytes(v.entries.take(i as int)),
        decreases entries.len() - i,
    {
        proof {
            let t = v.entries.take(i + 1);
            assert(t.drop_last() =~= v.entries.take(i as int));
            assert(t.last() == entries@[i as int]@);
        }
        push_entry(&mut out, &entries[i]);
        assert(out@ =~= head + entries_bytes(v.entries.take(i + 1)));
        i += 1;
    }
    assert(v.entries.take(i as int) =~= v.entries);
    let extensions = index.blocks();
    let ghost head = out@;
    let ghost xs = v.extensions;
    let mut i: usize = 0;
    assert(xs.skip(0) =~= xs);
    while i < extensions.len()
        invariant
            i <= extensions@.len(),
            xs == extensions_view(extensions@),
            out@ + extensions_bytes(xs.skip(i as int)) == head + extensions_bytes(xs),
        decreases extensions.len() - i,
    {
        let x = &extensions[i];
        let sig = &x.0;
        let ghost before = out@;
        proof {
            assert(xs.skip(i as int)[0] == (x.0@, x.1@));
            assert(xs.skip(i as int).drop_first() =~= xs.skip(i + 1));
        }
        if sig.len() == 4 {
            push_all(&mut out, sig);
            push_be32(&mut out, (x.1.len() as u64 % 0x1_0000_0000) as u32);
            push_all(&mut out, &x.1);
        }
        assert(out@ =~= before + extension_bytes((x.0@, x.1@)));
        assert(out@ + extensions_bytes(xs.skip(i + 1)) =~= before + extensions_bytes(
            xs.skip(i as int),
        ));
        i += 1;
    }
    assert(out@ + extensions_bytes(xs.skip(i as int)) =~= out@);
    assert(out@ =~= index_body(v));
    let trailer = sha1(&out);
    push_all(&mut out, &trailer);
    proof {
        if index_ok(v) {
            law_index_round_trip(v);
        }
    }
    out
}

// ---------------------------------------------------------------------
// Laws
// ---------------------------------------------------------------------

/// An entry that the format can carry: an id of 20 bytes, a stage below
/// four, and no NUL in a path whose length does not fit its field.
pub open spec fn entry_ok(e: IndexEntryView) -> bool {
    &&& e.id.len() == 20
    &&& e.stage < 4
    &&& e.path.len() >= 0xfff ==> !e.path.contains(NUL)
}

/// An extension that the format can carry: a signature of four bytes and a
/// 32-bit length.
pub open spec fn extension_ok(x: (Seq<u8>, Seq<u8>)) -> bool {
    x.0.len() == 4 && x.1.len() < 0x1_0000_0000
}

/// An index that the format can carry.
pub open spec fn index_ok(v: IndexView) -> bool {
    &&& ordered(v.entries)
    &&& v.entries.len() < 0x1_0000_0000
    &&& forall|i: int| 0 <= i < v.entries.len() ==> entry_ok(#[trigger] v.entries[i])
    &&& forall|i: int| 0 <= i < v.extensions.len() ==> extension_ok(#[trigger] v.extensions[i])
}

/// A 32-bit field of a written entry.
proof fn field_of(b: Seq<u8>, at: int, n: u32)
    requires
        b.subrange(at, at + 4) == be_bytes(n as nat, 4),
    ensures
        field(b, at) == n,
{
    byte_capacities();
    be_round_trip(n as nat, 4);
}

/// A part of a string that stands inside a longer one.
proof fn part_of(b: Seq<u8>, at: int, p: Seq<u8>, k: int, w: int)
    requires
        0 <= at,
        0 <= k,
        0 <= w,
        k + w <= p.len(),
        at + p.len() <= b.len(),
        b.subrange(at, at + p.len()) == p,
    ensures
        b.subrange(at + k, at + k + w) == p.subrange(k, k + w),
{
    assert(b.subrange(at + k, at + k + w) =~= b.subrange(at, at + p.len()).subrange(k, k + w));
}

/// The fields of a written entry.
#[verifier::rlimit(30)]
proof fn prefix_fields(b: Seq<u8>, at: int, e: IndexEntryView)
    requires
        e.id.len() == 20,
        e.stage < 4,
        0 <= at,
        at + 62 <= b.len(),
        b.subrange(at, at + 62) == entry_prefix(e),
    ensures
        field(b, at) == e.ctime.secs,
        field(b, at + 4) == e.ctime.nanos,
        field(b, at + 8) == e.mtime.secs,
        field(b, at + 12) == e.mtime.nanos,
        field(b, at + 16) == e.dev,
        field(b, at + 20) == e.ino,
        field(b, at + 24) == e.mode,
        field(b, at + 28) == e.uid,
        field(b, at + 32) == e.gid,
        field(b, at + 36) == e.size,
        b.subrange(at + 40, at + 60) == e.id,
        entry_flags(b, at) == flags_of(e),
        flags_of(e) >= 0x8000 <==> e.assume_valid,
        (flags_of(e) / 0x4000) % 2 == 0,
        (flags_of(e) / 0x1000) % 4 == e.stage,
        flags_of(e) % 0x1000 == if e.path.len() < 0xfff {
            e.path.len()
        } else {
            0xfff
        },
{
    entry_prefix_len(e);
    let p = entry_prefix(e);
    let (f0, f1, f2, f3, f4) = (
        be_bytes(e.ctime.secs as nat, 4),
        be_bytes(e.ctime.nanos as nat, 4),
        be_bytes(e.mtime.secs as nat, 4),
        be_bytes(e.mtime.nanos as nat, 4),
        be_bytes(e.dev as nat, 4),
    );
    let (f5, f6, f7, f8, f9) = (
        be_bytes(e.ino as nat, 4),
        be_bytes(e.mode as nat, 4),
        be_bytes(e.uid as nat, 4),
        be_bytes(e.gid as nat, 4),
        be_bytes(e.size as nat, 4),
    );
    let f10 = be_bytes(flags_of(e), 2);
    be_bytes_len(e.ctime.secs as nat, 4);
    be_bytes_len(e.ctime.nanos as nat, 4);
    be_bytes_len(e.mtime.secs as nat, 4);
    be_bytes_len(e.mtime.nanos as nat, 4);
    be_bytes_len(e.dev as nat, 4);
    be_bytes_len(e.ino as nat, 4);
    be_bytes_len(e.mode as nat, 4);
    be_bytes_len(e.uid as nat, 4);
    be_bytes_len(e.gid as nat, 4);
    be_bytes_len(e.size as nat, 4);
    be_bytes_len(flags_of(e), 2);
    assert(p == f0 + f1 + f2 + f3 + f4 + f5 + f6 + f7 + f8 + f9 + e.id + f10);
    assert(p.subrange(0, 4) =~= f0);
    part_of(b, at, p, 0, 4);
    field_of(b, at, e.ctime.secs);
    assert(p.subrange(4, 8) =~= f1);
    part_of(b, at, p, 4, 4);
    field_of(b, at + 4, e.ctime.nanos);
    assert(p.subrange(8, 12) =~= f2);
    part_of(b, at, p, 8, 4);
    field_of(b, at + 8, e.mtime.secs);
    assert(p.subrange(12, 16) =~= f3);
    part_of(b, at, p, 12, 4);
    field_of(b, at + 12, e.mtime.nanos);
    assert(p.subrange(16, 20) =~= f4);
    part_of(b, at, p, 16, 4);
    field_of(b, at + 16, e.dev);
    assert(p.subrange(20, 24) =~= f5);
    part_of(b, at, p, 20, 4);
    field_of(b, at + 20, e.ino);
    assert(p.subrange(24, 28) =~= f6);
    part_of(b, at, p, 24, 4);
    field_of(b, at + 24, e.mode);
    assert(p.subrange(28, 32) =~= f7);
    part_of(b, at, p, 28, 4);
    field_of(b, at + 28, e.uid);
    assert(p.subrange(32, 36) =~= f8);
    part_of(b, at, p, 32, 4);
    field_of(b, at + 32, e.gid);
    assert(p.subrange(36, 40) =~= f9);
    part_of(b, at, p, 36, 4);
    field_of(b, at + 36, e.size);
    assert(p.subrange(40, 60) =~= e.id);
    part_of(b, at, p, 40, 20);
    assert(p.subrange(60, 62) =~= f10);
    part_of(b, at, p, 60, 2);
    byte_capacities();
    be_round_trip(flags_of(e), 2);
}

/// A written entry reads back as the entry.
proof fn read_written_entry(b: Seq<u8>, body: int, at: int, e: IndexEntryView)
    requires
        entry_ok(e),
        0 <= at,
        at + entry_bytes(e).len() <= body <= b.len(),
        b.subrange(at, at + entry_bytes(e).len()) == entry_bytes(e),
    ensures
        read_entry(b, body, at) == Some((e, at + entry_bytes(e).len())),
{
    reveal(entry_bytes);
    let t = entry_bytes(e);
    let n = e.path.len() as int;
    entry_prefix_len(e);
    assert(t.len() == padded(63 + n));
    assert forall|k: int| 0 <= k < t.len() implies b[at + k] == t[k] by {
        assert(b.subrange(at, at + t.len())[k] == b[at + k]);
    }
    assert(b.subrange(at, at + 62) =~= entry_prefix(e)) by {
        assert(t.subrange(0, 62) =~= entry_prefix(e));
    }
    prefix_fields(b, at, e);
    assert(b.subrange(at + 62, at + 62 + n) =~= e.path) by {
        assert forall|k: int| 0 <= k < n implies b[at + 62 + k] == e.path[k] by {
            assert(b[at + (62 + k)] == t[62 + k]);
        }
    }
    assert(b[at + (62 + n)] == t[62 + n]);
    assert(b[at + 62 + n] == NUL);
    if n >= 0xfff {
        let rest = b.subrange(at + 62, body);
        assert forall|k: int| 0 <= k < n implies rest[k] != NUL by {
            assert(rest[k] == b[at + 62 + k]);
            assert(b.subrange(at + 62, at + 62 + n)[k] == e.path[k]);
            assert(e.path.contains(e.path[k]));
        }
        assert(rest[n] == b[at + 62 + n]);
        upto_is(rest, NUL, n);
    }
}

/// Written entries read back as the entries.
proof fn read_written_entries(b: Seq<u8>, body: int, es: Seq<IndexEntryView>, k: nat)
    requires
        forall|i: int| 0 <= i < es.len() ==> entry_ok(#[trigger] es[i]),
        k <= es.len(),
        12 + entries_bytes(es).len() <= body <= b.len(),
        b.subrange(12, 12 + entries_bytes(es).len() as int) == entries_bytes(es),
    ensures
        read_entries(b, body, k) == Some(
            (es.take(k as int), 12 + entries_bytes(es.take(k as int)).len() as int),
        ),
    decreases k,
{
    if k == 0 {
        assert(es.take(0) =~= Seq::<IndexEntryView>::empty());
    } else {
        let m = k - 1;
        read_written_entries(b, body, es, m as nat);
        let t = es.take(k as int);
        assert(t.drop_last() =~= es.take(m));
        assert(t.last() == es[m]);
        entries_bytes_prefix(es, k as int);
        let at = 12 + entries_bytes(es.take(m)).len();
        let w = entry_bytes(es[m]).len();
        let all = entries_bytes(es);
        assert(entries_bytes(t) == all.take(entries_bytes(t).len() as int));
        assert(b.subrange(at as int, (at + w) as int) =~= entry_bytes(es[m])) by {
            assert forall|i: int| 0 <= i < w implies b[at + i] == entry_bytes(es[m])[i] by {
                assert(b[12 + (at - 12 + i)] == b.subrange(12, 12 + all.len() as int)[at - 12 + i]);
                assert(entries_bytes(t)[at - 12 + i] == entry_bytes(es[m])[i]);
            }
        }
        assert(entry_ok(es[m]));
        read_written_entry(b, body, at as int, es[m]);
        assert(es.take(m).push(es[m]) =~= t);
    }
}

/// The bytes of the first entries are the first bytes of the entries.
proof fn entries_bytes_prefix(es: Seq<IndexEntryView>, k: int)
    requires
        0 <= k <= es.len(),
    ensures
        entries_bytes(es.take(k)).len() <= entries_bytes(es).len(),
        entries_bytes(es.take(k)) == entries_bytes(es).take(entries_bytes(es.take(k)).len() as int),
    decreases es.len(),
{
    let all = entries_bytes(es);
    if k == es.len() {
        assert(es.take(k) =~= es);
        assert(all.take(all.len() as int) =~= all);
    } else {
        let t = es.drop_last();
        entries_bytes_prefix(t, k);
        assert(t.take(k) =~= es.take(k));
        let n = entries_bytes(es.take(k)).len() as int;
        assert(all.take(n) =~= entries_bytes(t).take(n));
    }
}

/// Written extensions read back as the extensions.
proof fn read_written_extensions(b: Seq<u8>, body: int, at: int, xs: Seq<(Seq<u8>, Seq<u8>)>)
    requires
        forall|i: int| 0 <= i < xs.len() ==> extension_ok(#[trigger] xs[i]),
        0 <= at,
        body == at + extensions_bytes(xs).len(),
        body <= b.len(),
        b.subrange(at, body) == extensions_bytes(xs),
    ensures
        read_extensions(b, body, at) == Some(xs),
    decreases xs.len(),
{
    if xs.len() == 0 {
        assert(xs =~= Seq::<(Seq<u8>, Seq<u8>)>::empty());
    } else {
        let x = xs[0];
        let t = xs.drop_first();
        assert(extension_ok(xs[0]));
        assert forall|i: int| 0 <= i < t.len() implies extension_ok(#[trigger] t[i]) by {
            assert(extension_ok(xs[i + 1]));
        }
        let sig = x.0;
        let size = be_bytes(x.1.len(), 4);
        be_bytes_len(x.1.len(), 4);
        let all = extensions_bytes(xs);
        let head = extension_bytes(x);
        assert(head == sig + size + x.1);
        assert(all == head + extensions_bytes(t));
        let next = at + head.len();
        assert forall|k: int| 0 <= k < all.len() implies b[at + k] == all[k] by {
            assert(b.subrange(at, body)[k] == b[at + k]);
        }
        assert(b.subrange(at, at + 4) =~= sig);
        assert(b.subrange(at + 4, at + 8) =~= size) by {
            assert forall|k: int| 0 <= k < 4 implies b[at + 4 + k] == size[k] by {
                assert(b[at + (4 + k)] == all[4 + k]);
            }
        }
        let n = x.1.len() as int;
        assert(b.subrange(at + 8, at + 8 + n) =~= x.1) by {
            assert forall|k: int| 0 <= k < n implies b[at + 8 + k] == x.1[k] by {
                assert(b[at + (8 + k)] == all[8 + k]);
            }
        }
        assert(b.subrange(next, body) =~= extensions_bytes(t)) by {
            assert forall|k: int| 0 <= k < extensions_bytes(t).len() implies b[next + k]
                == extensions_bytes(t)[k] by {
                assert(b[at + (head.len() + k)] == all[head.len() + k]);
            }
        }
        byte_capacities();
        be_round_trip(x.1.len(), 4);
        read_written_extensions(b, body, next, t);
        assert(seq![x] + t =~= xs);
    }
}

/// The header of a written index.
proof fn header_fields(b: Seq<u8>, n: nat, rest: Seq<u8>)
    requires
        n < 0x1_0000_0000,
        b == ascii("DIRC"@) + be_bytes(2, 4) + be_bytes(n, 4) + rest,
    ensures
        b.take(4) == ascii("DIRC"@),
        be_value(b.subrange(4, 8)) == 2,
        be_value(b.subrange(8, 12)) == n,
        b.len() == 12 + rest.len(),
        b.skip(12) == rest,
{
    reveal_strlit("DIRC");
    byte_capacities();
    be_bytes_len(2, 4);
    be_bytes_len(n, 4);
    be_round_trip(2, 4);
    be_round_trip(n, 4);
    assert(b.take(4) =~= ascii("DIRC"@));
    assert(b.subrange(4, 8) =~= be_bytes(2, 4));
    assert(b.subrange(8, 12) =~= be_bytes(n, 4));
    assert(b.skip(12) =~= rest);
}

/// Where the parts of a file stand.
proof fn parts_stand(head: Seq<u8>, es: Seq<u8>, xs: Seq<u8>, trailer: Seq<u8>)
    requires
        head.len() == 12,
        trailer.len() == 20,
    ensures
        ({
            let b = head + es + xs + trailer;
            let body = b.len() - 20;
            &&& b == head + (es + xs + trailer)
            &&& b.take(body) == head + es + xs
            &&& b.skip(body) == trailer
            &&& b.subrange(12, 12 + es.len() as int) == es
            &&& b.subrange(12 + es.len() as int, body) == xs
        }),
{
    let b = head + es + xs + trailer;
    let body = b.len() - 20;
    assert(b =~= head + (es + xs + trailer));
    assert(b.take(body) =~= head + es + xs);
    assert(b.skip(body) =~= trailer);
    assert(b.subrange(12, 12 + es.len() as int) =~= es);
    assert(b.subrange(12 + es.len() as int, body) =~= xs);
}

/// The entries and extensions of a written index are read back.
proof fn written_parts(v: IndexView, b: Seq<u8>)
    requires
        index_ok(v),
        b.len() == 32 + entries_bytes(v.entries).len() + extensions_bytes(v.extensions).len(),
        b.subrange(12, 12 + entries_bytes(v.entries).len() as int) == entries_bytes(v.entries),
        b.subrange(12 + entries_bytes(v.entries).len() as int, b.len() - 20) == extensions_bytes(
            v.extensions,
        ),
    ensures
        ({
            let at = 12 + entries_bytes(v.entries).len() as int;
            &&& read_entries(b, b.len() - 20, v.entries.len()) == Some((v.entries, at))
            &&& read_extensions(b, b.len() - 20, at) == Some(v.extensions)
        }),
{
    let n = v.entries.len();
    let body = b.len() - 20;
    let at = 12 + entries_bytes(v.entries).len() as int;
    read_written_entries(b, body, v.entries, n);
    assert(v.entries.take(n as int) =~= v.entries);
    read_written_extensions(b, body, at, v.extensions);
}

/// Law: parsing a written index gives the index.
pub proof fn law_index_round_trip(v: IndexView)
    requires
        index_ok(v),
        sha1_digest(index_body(v)).len() == 20,
    ensures
        index_contents(index_bytes(v)) == Ok::<_, IndexErrorView>(v),
{
    let b = index_bytes(v);
    let n = v.entries.len();
    let head = ascii("DIRC"@) + be_bytes(2, 4) + be_bytes(n, 4);
    let es = entries_bytes(v.entries);
    let xs = extensions_bytes(v.extensions);
    let trailer = sha1_digest(index_body(v));
    assert(head.len() == 12) by {
        reveal_strlit("DIRC");
        be_bytes_len(2, 4);
        be_bytes_len(n, 4);
    }
    assert(index_body(v) == head + es + xs);
    parts_stand(head, es, xs, trailer);
    assert(b == head + es + xs + trailer);
    header_fields(b, n, es + xs + trailer);
    written_parts(v, b);
    in_order_fixed(v.entries);
}

/// Blocks that were read are written as the bytes they were read from.
proof fn read_blocks_bytes(b: Seq<u8>, body: int, at: int)
    requires
        0 <= at <= body <= b.len(),
        read_extensions(b, body, at) is Some,
    ensures
        ({
            let n = extensions_bytes(read_extensions(b, body, at)->0).len();
            &&& at + n <= body < at + n + 8
            &&& b.subrange(at, at + n) == extensions_bytes(read_extensions(b, body, at)->0)
        }),
    decreases body - at,
{
    let xs = read_extensions(b, body, at)->0;
    if at + 8 > body {
        assert(b.subrange(at, at) =~= Seq::<u8>::empty());
    } else {
        let size = be_value(b.subrange(at + 4, at + 8));
        let next = at + 8 + size;
        let x = (b.subrange(at, at + 4), b.subrange(at + 8, next));
        let rest = read_extensions(b, body, next)->0;
        read_blocks_bytes(b, body, next);
        be_round_trip_bytes(b.subrange(at + 4, at + 8));
        byte_capacities();
        assert(xs =~= seq![x] + rest);
        assert(xs.drop_first() =~= rest);
        let n = extensions_bytes(xs).len();
        assert(extension_bytes(x) == x.0 + b.subrange(at + 4, at + 8) + x.1);
        assert(b.subrange(at, at + n) =~= extension_bytes(x) + extensions_bytes(rest));
    }
}

/// Law: the extension blocks of an index that was read are written as they
/// stood in the file, byte for byte.
pub proof fn law_extensions_kept(b: Seq<u8>)
    requires
        index_contents(b) is Ok,
    ensures
        ({
            let body = b.len() - 20;
            let at = (read_entries(b, body, be_value(b.subrange(8, 12)))->0).1;
            let blocks = extensions_bytes(index_contents(b)->Ok_0.extensions);
            at <= body ==> at + blocks.len() <= body < at + blocks.len() + 8 && b.subrange(
                at,
                at + blocks.len(),
            ) == blocks
        }),
{
    let body = b.len() - 20;
    let n = be_value(b.subrange(8, 12));
    read_entries_start(b, body, n);
    let at = (read_entries(b, body, n)->0).1;
    if at <= body {
        read_blocks_bytes(b, body, at);
    }
}

/// Entries end behind the header.
proof fn read_entries_start(b: Seq<u8>, body: int, n: nat)
    ensures
        read_entries(b, body, n) matches Some((_, at)) ==> at >= 12,
    decreases n,
{
    if n > 0 {
        read_entries_start(b, body, (n - 1) as nat);
        if let Some((_, at)) = read_entries(b, body, (n - 1) as nat) {
            upto_spec(b.subrange(at + 62, body), NUL);
        }
    }
}

} // verus!
