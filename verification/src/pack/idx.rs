//! Pack index files (version 2).

use vstd::prelude::*;

use super::{PackError, PackErrorView};
use crate::bytes::{
    be_bytes, be_bytes_len, be_round_trip, be_value, byte_capacities, push_all, push_be32,
    push_be64, read_be32, read_be64, same_bytes,
};
use crate::codec::{sha1, sha1_digest};
use crate::object::commit::ids_view;
use crate::object::ObjectId;

verus! {

/// Offsets from here on go into the table of 8-byte offsets.
pub const LARGE_OFFSET: u64 = 0x8000_0000;

/// One object of an index.
#[derive(Clone, Copy, Debug)]
pub struct IdxEntry {
    pub id: ObjectId,
    pub offset: u64,
    pub crc: u32,
}

/// What an [`IdxEntry`] holds.
pub struct IdxEntryView {
    pub id: Seq<u8>,
    pub offset: nat,
    pub crc: nat,
}

impl View for IdxEntry {
    type V = IdxEntryView;

    open spec fn view(&self) -> IdxEntryView {
        IdxEntryView { id: self.id@, offset: self.offset as nat, crc: self.crc as nat }
    }
}

/// A parsed index.
pub struct ParsedIdx {
    pub pack_sha: ObjectId,
    pub ids: Vec<ObjectId>,
    pub offsets: Vec<u64>,
}

/// What an index says.
pub struct ParsedIdxView {
    pub pack_sha: Seq<u8>,
    pub ids: Seq<Seq<u8>>,
    pub offsets: Seq<nat>,
}

/// The offsets of a list.
pub open spec fn offsets_view(offsets: Seq<u64>) -> Seq<nat> {
    offsets.map_values(|o: u64| o as nat)
}

impl View for ParsedIdx {
    type V = ParsedIdxView;

    open spec fn view(&self) -> ParsedIdxView {
        ParsedIdxView {
            pack_sha: self.pack_sha@,
            ids: ids_view(self.ids@),
            offsets: offsets_view(self.offsets@),
        }
    }
}

/// `\377tOc`.
pub open spec fn idx_magic() -> Seq<u8> {
    seq![255u8, 116u8, 79u8, 99u8]
}

// ---------------------------------------------------------------------
// Tables
// ---------------------------------------------------------------------

/// `n` rows one after the other.
pub open spec fn table(n: nat, row: spec_fn(int) -> Seq<u8>) -> Seq<u8>
    decreases n,
{
    if n == 0 {
        Seq::empty()
    } else {
        table((n - 1) as nat, row) + row(n - 1)
    }
}

/// Rows of equal width make a table of that many widths.
pub proof fn table_len(n: nat, row: spec_fn(int) -> Seq<u8>, w: nat)
    requires
        forall|i: int| 0 <= i < n ==> (#[trigger] row(i)).len() == w,
    ensures
        table(n, row).len() == n * w,
    decreases n,
{
    if n > 0 {
        let m = (n - 1) as nat;
        table_len(m, row, w);
        assert(n * w == m * w + w) by (nonlinear_arith)
            requires
                n == m + 1,
        ;
        assert(row(m as int).len() == w);
    } else {
        assert(n * w == 0) by (nonlinear_arith)
            requires
                n == 0,
        ;
    }
}

/// Rows of equal width stand at multiples of the width.
pub proof fn table_row(n: nat, row: spec_fn(int) -> Seq<u8>, w: nat, i: int)
    requires
        forall|i: int| 0 <= i < n ==> (#[trigger] row(i)).len() == w,
        0 <= i < n,
    ensures
        table(n, row).len() == n * w,
        0 <= i * w,
        i * w + w <= n * w,
        table(n, row).subrange(i * w, i * w + w) == row(i),
    decreases n,
{
    let m = (n - 1) as nat;
    let t = table(n, row);
    table_len(n, row, w);
    table_len(m, row, w);
    assert(row(m as int).len() == w);
    assert(0 <= i * w && i * w + w <= n * w) by (nonlinear_arith)
        requires
            0 <= i < n,
    ;
    if i < m {
        table_row(m, row, w, i);
        assert(t.subrange(i * w, i * w + w) =~= table(m, row).subrange(i * w, i * w + w));
    } else {
        assert(i * w == m * w);
        assert(t.subrange(i * w, i * w + w) =~= row(i));
    }
}

// ---------------------------------------------------------------------
// Reading
// ---------------------------------------------------------------------

/// The number of objects that the last fanout slot states.
pub open spec fn idx_count(b: Seq<u8>) -> nat {
    be_value(b.subrange(1028, 1032))
}

/// The `i`-th slot of the table of 4-byte offsets.
pub open spec fn slot(b: Seq<u8>, i: int) -> nat {
    let at = 1032 + 24 * idx_count(b) + 4 * i;
    be_value(b.subrange(at, at + 4))
}

/// How many of the first `i` slots refer to the table of 8-byte offsets.
pub open spec fn large_before(b: Seq<u8>, i: int) -> nat
    decreases i,
{
    if i <= 0 {
        0
    } else if slot(b, i - 1) >= LARGE_OFFSET {
        large_before(b, i - 1) + 1
    } else {
        large_before(b, i - 1)
    }
}

/// Where the table of 8-byte offsets begins.
pub open spec fn large_start(b: Seq<u8>) -> int {
    1032 + 28 * idx_count(b) as int
}

/// The `i`-th offset. The 8-byte offsets are taken in their order.
pub open spec fn offset_at(b: Seq<u8>, i: int) -> nat {
    if slot(b, i) >= LARGE_OFFSET {
        let at = large_start(b) + 8 * large_before(b, i);
        be_value(b.subrange(at, at + 8))
    } else {
        slot(b, i)
    }
}

/// What the bytes of an index file say, or why they say nothing.
pub open spec fn idx_contents(b: Seq<u8>) -> Result<ParsedIdxView, PackErrorView> {
    let body = b.len() - 20;
    let n = idx_count(b);
    let large = large_before(b, n as int);
    if b.len() < 1072 || b.take(4) != idx_magic() || be_value(b.subrange(4, 8)) != 2 {
        Err(PackErrorView::BadIndexHeader)
    } else if b.skip(body) != sha1_digest(b.take(body)) {
        Err(PackErrorView::BadIndexSha)
    } else if large_start(b) > b.len() || (large > 0 && large_start(b) + 8 * large > body - 20) {
        Err(PackErrorView::BadIndexHeader)
    } else {
        Ok(
            ParsedIdxView {
                pack_sha: b.subrange(body - 20, body),
                ids: Seq::new(n, |i: int| b.subrange(1032 + 20 * i, 1052 + 20 * i)),
                offsets: Seq::new(n, |i: int| offset_at(b, i)),
            },
        )
    }
}

/// More slots, no fewer large ones.
proof fn large_before_grows(b: Seq<u8>, i: int, j: int)
    requires
        0 <= i <= j,
    ensures
        large_before(b, i) <= large_before(b, j),
    decreases j,
{
    if i < j {
        large_before_grows(b, i, j - 1);
    }
}

/// Parses an index file.
pub fn parse_idx(b: &[u8]) -> (r: Result<ParsedIdx, PackError>)
    ensures
        match r {
            Ok(p) => idx_contents(b@) == Ok::<_, PackErrorView>(p@) && p.ids@.len()
                == p.offsets@.len(),
            Err(e) => idx_contents(b@) == Err::<ParsedIdxView, _>(e@),
        },
{
    if b.len() < 1072 {
        return Err(PackError::BadIndexHeader);
    }
    let magic: [u8; 4] = [255u8, 116u8, 79u8, 99u8];
    assert(magic@ =~= idx_magic());
    assert(b@.subrange(0, 4) =~= b@.take(4));
    if !same_bytes(&b[0..4], &magic) {
        return Err(PackError::BadIndexHeader);
    }
    if read_be32(b, 4) != 2 {
        return Err(PackError::BadIndexHeader);
    }
    let body: usize = b.len() - 20;
    assert(b@.subrange(0, body as int) =~= b@.take(body as int));
    let digest = sha1(&b[0..body]);
    assert(b@.subrange(body as int, b@.len() as int) =~= b@.skip(body as int));
    if !same_bytes(&b[body..b.len()], &digest) {
        return Err(PackError::BadIndexSha);
    }
    let n: usize = read_be32(b, 1028) as usize;
    if n as u64 > (b.len() - 1032) as u64 / 28 {
        return Err(PackError::BadIndexHeader);
    }
    let ghost count = idx_count(b@);
    assert(count == n);
    let mut ids: Vec<ObjectId> = Vec::new();
    let mut i: usize = 0;
    while i < n
        invariant
            i <= n,
            1032 + 28 * n <= b@.len() <= usize::MAX,
            ids_view(ids@) == Seq::new(
                i as nat,
                |i: int| b@.subrange(1032 + 20 * i, 1052 + 20 * i),
            ),
        decreases n - i,
    {
        let ghost before = ids@;
        let id = ObjectId::from_slice(b, 1032 + i * 20);
        ids.push(id);
        assert(ids_view(ids@) =~= ids_view(before).push(id@));
        assert(ids_view(ids@) =~= Seq::new(
            (i + 1) as nat,
            |i: int| b@.subrange(1032 + 20 * i, 1052 + 20 * i),
        ));
        i += 1;
    }
    let slots: usize = 1032 + 24 * n;
    let large: usize = 1032 + 28 * n;
    let mut offsets: Vec<u64> = Vec::new();
    let mut next: usize = large;
    let mut i: usize = 0;
    while i < n
        invariant
            i <= n,
            n == idx_count(b@),
            slots == 1032 + 24 * n,
            large == 1032 + 28 * n,
            body == b@.len() - 20,
            large <= b@.len() <= usize::MAX,
            b@.len() >= 1072,
            next == large + 8 * large_before(b@, i as int),
            next <= b@.len(),
            large_before(b@, i as int) > 0 ==> next <= body - 20,
            offsets_view(offsets@) == Seq::new(i as nat, |i: int| offset_at(b@, i)),
            idx_contents(b@) == (if large_before(b@, n as int) > 0 && large + 8 * large_before(
                b@,
                n as int,
            ) > body - 20 {
                Err::<ParsedIdxView, _>(PackErrorView::BadIndexHeader)
            } else {
                Ok::<_, PackErrorView>(
                    ParsedIdxView {
                        pack_sha: b@.subrange(body - 20, body as int),
                        ids: Seq::new(n as nat, |i: int| b@.subrange(1032 + 20 * i, 1052 + 20 * i)),
                        offsets: Seq::new(n as nat, |i: int| offset_at(b@, i)),
                    },
                )
            }),
        decreases n - i,
    {
        let ghost before = offsets@;
        let raw: u32 = read_be32(b, slots + i * 4);
        assert(raw as nat == slot(b@, i as int));
        let offset: u64 = if raw as u64 >= LARGE_OFFSET {
            if next > body - 20 || body - 20 - next < 8 {
                proof {
                    large_before_grows(b@, i + 1, n as int);
                }
                return Err(PackError::BadIndexHeader);
            }
            let big: u64 = read_be64(b, next);
            next += 8;
            big
        } else {
            raw as u64
        };
        offsets.push(offset);
        proof {
            assert(offset as nat == offset_at(b@, i as int));
            assert(offsets_view(offsets@) =~= offsets_view(before).push(offset as nat));
            assert(offsets_view(offsets@) =~= Seq::new((i + 1) as nat, |i: int| offset_at(b@, i)));
        }
        i += 1;
    }
    let pack_sha = ObjectId::from_slice(b, body - 20);
    Ok(ParsedIdx { pack_sha, ids, offsets })
}

// ---------------------------------------------------------------------
// Writing
// ---------------------------------------------------------------------

/// What the entries of a list hold.
pub open spec fn entries_view(es: Seq<IdxEntry>) -> Seq<IdxEntryView> {
    es.map_values(|e: IdxEntry| e@)
}

/// How many ids begin with a byte of at most `k`.
pub open spec fn fanout(es: Seq<IdxEntryView>, k: int) -> nat
    decreases es.len(),
{
    if es.len() == 0 {
        0
    } else if es.last().id[0] <= k {
        fanout(es.drop_last(), k) + 1
    } else {
        fanout(es.drop_last(), k)
    }
}

/// The offsets that need 8 bytes, in order.
pub open spec fn large_offsets(es: Seq<IdxEntryView>) -> Seq<nat>
    decreases es.len(),
{
    if es.len() == 0 {
        Seq::empty()
    } else if es.last().offset >= LARGE_OFFSET {
        large_offsets(es.drop_last()).push(es.last().offset)
    } else {
        large_offsets(es.drop_last())
    }
}

/// The 4-byte slot of the `i`-th offset: the offset, or its position in the
/// table of 8-byte offsets with the high bit set.
pub open spec fn offset_slot(es: Seq<IdxEntryView>, i: int) -> nat {
    if es[i].offset >= LARGE_OFFSET {
        LARGE_OFFSET as nat + large_offsets(es.take(i)).len() % (LARGE_OFFSET as nat)
    } else {
        es[i].offset
    }
}

/// The rows of the fanout table.
pub open spec fn fanout_row(es: Seq<IdxEntryView>) -> spec_fn(int) -> Seq<u8> {
    |k: int| be_bytes(fanout(es, k), 4)
}

/// The rows of the name table.
pub open spec fn name_row(es: Seq<IdxEntryView>) -> spec_fn(int) -> Seq<u8> {
    |i: int| es[i].id
}

/// The rows of the checksum table.
pub open spec fn crc_row(es: Seq<IdxEntryView>) -> spec_fn(int) -> Seq<u8> {
    |i: int| be_bytes(es[i].crc, 4)
}

/// The rows of the table of 4-byte offsets.
pub open spec fn slot_row(es: Seq<IdxEntryView>) -> spec_fn(int) -> Seq<u8> {
    |i: int| be_bytes(offset_slot(es, i), 4)
}

/// The rows of the table of 8-byte offsets.
pub open spec fn large_row(large: Seq<nat>) -> spec_fn(int) -> Seq<u8> {
    |i: int| be_bytes(large[i], 8)
}

/// Everything before the trailer.
pub open spec fn idx_body(es: Seq<IdxEntryView>, pack_sha: Seq<u8>) -> Seq<u8> {
    idx_magic() + be_bytes(2, 4) + table(256, fanout_row(es)) + table(es.len(), name_row(es))
        + table(es.len(), crc_row(es)) + table(es.len(), slot_row(es)) + table(
        large_offsets(es).len(),
        large_row(large_offsets(es)),
    ) + pack_sha
}

/// The bytes of an index file for the given entries.
pub open spec fn idx_bytes(es: Seq<IdxEntryView>, pack_sha: Seq<u8>) -> Seq<u8> {
    idx_body(es, pack_sha) + sha1_digest(idx_body(es, pack_sha))
}

/// One more row.
proof fn table_push(n: nat, row: spec_fn(int) -> Seq<u8>)
    ensures
        table(n + 1, row) == table(n, row) + row(n as int),
{
}

/// No fanout slot counts more than there are.
proof fn fanout_bound(es: Seq<IdxEntryView>, k: int)
    ensures
        fanout(es, k) <= es.len(),
        k >= 255 ==> fanout(es, k) == es.len(),
    decreases es.len(),
{
    if es.len() > 0 {
        fanout_bound(es.drop_last(), k);
    }
}

/// Counts the ids whose first byte is at most `k`.
fn count_fanout(es: &Vec<IdxEntry>, k: u32) -> (r: u32)
    requires
        es@.len() <= u32::MAX,
    ensures
        r as nat == fanout(entries_view(es@), k as int),
{
    let mut n: u32 = 0;
    let mut i: usize = 0;
    while i < es.len()
        invariant
            i <= es@.len(),
            n <= i,
            es@.len() <= u32::MAX,
            n as nat == fanout(entries_view(es@).take(i as int), k as int),
        decreases es.len() - i,
    {
        proof {
            assert(entries_view(es@).take(i + 1).drop_last() =~= entries_view(es@).take(i as int));
            assert(entries_view(es@).take(i + 1).last() == es@[i as int]@);
        }
        if es[i].id.as_bytes()[0] as u32 <= k {
            n += 1;
        }
        i += 1;
    }
    assert(entries_view(es@).take(i as int) =~= entries_view(es@));
    n
}

/// Writes an index file. Reading it gives the ids and offsets back.
pub fn write_idx(es: &Vec<IdxEntry>, pack_sha: &ObjectId) -> (r: Vec<u8>)
    requires
        es@.len() <= u32::MAX,
    ensures
        r@ == idx_bytes(entries_view(es@), pack_sha@),
        idx_contents(r@) == Ok::<_, PackErrorView>(
            entries_idx(entries_view(es@), pack_sha@),
        ),
{
    let ghost v = entries_view(es@);
    let mut out: Vec<u8> = vec![255u8, 116u8, 79u8, 99u8];
    push_be32(&mut out, 2);
    let ghost head = out@;
    assert(head =~= idx_magic() + be_bytes(2, 4));
    let mut k: u32 = 0;
    while k < 256
        invariant
            k <= 256,
            es@.len() <= u32::MAX,
            v == entries_view(es@),
            out@ == head + table(k as nat, fanout_row(v)),
        decreases 256 - k,
    {
        let ghost before = out@;
        let n: u32 = count_fanout(es, k);
        push_be32(&mut out, n);
        proof {
            table_push(k as nat, fanout_row(v));
            assert(out@ =~= head + table((k + 1) as nat, fanout_row(v)));
        }
        k += 1;
    }
    let ghost head = out@;
    let mut i: usize = 0;
    while i < es.len()
        invariant
            i <= es@.len(),
            v == entries_view(es@),
            out@ == head + table(i as nat, name_row(v)),
        decreases es.len() - i,
    {
        push_all(&mut out, es[i].id.as_bytes());
        proof {
            table_push(i as nat, name_row(v));
            assert(out@ =~= head + table((i + 1) as nat, name_row(v)));
        }
        i += 1;
    }
    let ghost head = out@;
    let mut i: usize = 0;
    while i < es.len()
        invariant
            i <= es@.len(),
            v == entries_view(es@),
            out@ == head + table(i as nat, crc_row(v)),
        decreases es.len() - i,
    {
        push_be32(&mut out, es[i].crc);
        proof {
            table_push(i as nat, crc_row(v));
            assert(out@ =~= head + table((i + 1) as nat, crc_row(v)));
        }
        i += 1;
    }
    let ghost head = out@;
    let mut large: Vec<u64> = Vec::new();
    let mut i: usize = 0;
    assert(offsets_view(large@) =~= large_offsets(v.take(0)));
    while i < es.len()
        invariant
            i <= es@.len(),
            es@.len() <= u32::MAX,
            v == entries_view(es@),
            out@ == head + table(i as nat, slot_row(v)),
            offsets_view(large@) == large_offsets(v.take(i as int)),
            large@.len() <= i,
        decreases es.len() - i,
    {
        let ghost large_then = large@;
        proof {
            assert(v.take(i + 1).drop_last() =~= v.take(i as int));
            assert(v.take(i + 1).last() == v[i as int]);
            table_push(i as nat, slot_row(v));
        }
        if es[i].offset >= LARGE_OFFSET {
            let at: u64 = LARGE_OFFSET + large.len() as u64 % LARGE_OFFSET;
            push_be32(&mut out, at as u32);
            large.push(es[i].offset);
            assert(offsets_view(large@) =~= offsets_view(large_then).push(v[i as int].offset));
            assert(offset_slot(v, i as int) == at as nat);
        } else {
            push_be32(&mut out, es[i].offset as u32);
        }
        assert(out@ =~= head + table((i + 1) as nat, slot_row(v)));
        i += 1;
    }
    assert(v.take(i as int) =~= v);
    let ghost head = out@;
    let ghost lv = large_offsets(v);
    let mut i: usize = 0;
    while i < large.len()
        invariant
            i <= large@.len(),
            lv == offsets_view(large@),
            out@ == head + table(i as nat, large_row(lv)),
        decreases large.len() - i,
    {
        push_be64(&mut out, large[i]);
        proof {
            table_push(i as nat, large_row(lv));
            assert(out@ =~= head + table((i + 1) as nat, large_row(lv)));
        }
        i += 1;
    }
    push_all(&mut out, pack_sha.as_bytes());
    assert(out@ =~= idx_body(v, pack_sha@));
    let trailer = sha1(&out);
    push_all(&mut out, &trailer);
    proof {
        assert forall|i: int| 0 <= i < v.len() implies idx_entry_ok(#[trigger] v[i]) by {
            assert(v[i] == es@[i]@);
            ObjectId::view_len(es@[i].id);
        }
        ObjectId::view_len(*pack_sha);
        law_idx_round_trip(v, pack_sha@);
    }
    out
}

// ---------------------------------------------------------------------
// Laws
// ---------------------------------------------------------------------

/// An entry that an index can carry.
pub open spec fn idx_entry_ok(e: IdxEntryView) -> bool {
    &&& e.id.len() == 20
    &&& e.offset < 0x1_0000_0000_0000_0000
    &&& e.crc < 0x1_0000_0000
}

/// What an index for the given entries says.
pub open spec fn entries_idx(es: Seq<IdxEntryView>, pack_sha: Seq<u8>) -> ParsedIdxView {
    ParsedIdxView {
        pack_sha,
        ids: es.map_values(|e: IdxEntryView| e.id),
        offsets: es.map_values(|e: IdxEntryView| e.offset),
    }
}

/// The large slots read so far are the large offsets written so far.
proof fn large_before_written(b: Seq<u8>, es: Seq<IdxEntryView>, i: int)
    requires
        0 <= i <= es.len(),
        forall|j: int| 0 <= j < es.len() ==> #[trigger] slot(b, j) == offset_slot(es, j),
    ensures
        large_before(b, i) == large_offsets(es.take(i)).len(),
    decreases i,
{
    if i > 0 {
        large_before_written(b, es, i - 1);
        assert(es.take(i).drop_last() =~= es.take(i - 1));
        assert(es.take(i).last() == es[i - 1]);
        assert(slot(b, i - 1) == offset_slot(es, i - 1));
    } else {
        assert(es.take(0) =~= Seq::<IdxEntryView>::empty());
    }
}

/// A large offset stands in the table at the number of large ones before.
proof fn large_offset_at(es: Seq<IdxEntryView>, i: int)
    requires
        0 <= i < es.len(),
        es[i].offset >= LARGE_OFFSET,
    ensures
        large_offsets(es.take(i)).len() < large_offsets(es).len(),
        large_offsets(es)[large_offsets(es.take(i)).len() as int] == es[i].offset,
    decreases es.len(),
{
    let t = es.drop_last();
    if i == t.len() {
        assert(es.take(i) =~= t);
    } else {
        large_offset_at(t, i);
        assert(t.take(i) =~= es.take(i));
    }
}

/// Every large offset comes from an entry, so it fits into 64 bits.
proof fn large_offsets_fit(es: Seq<IdxEntryView>)
    requires
        forall|i: int| 0 <= i < es.len() ==> idx_entry_ok(#[trigger] es[i]),
    ensures
        forall|i: int|
            0 <= i < large_offsets(es).len() ==> #[trigger] large_offsets(es)[i]
                < 0x1_0000_0000_0000_0000,
    decreases es.len(),
{
    if es.len() > 0 {
        let t = es.drop_last();
        assert forall|i: int| 0 <= i < t.len() implies idx_entry_ok(#[trigger] t[i]) by {
            assert(idx_entry_ok(es[i]));
        }
        large_offsets_fit(t);
        assert(idx_entry_ok(es[es.len() - 1]));
        let all = large_offsets(es);
        assert forall|i: int| 0 <= i < all.len() implies #[trigger] all[i]
            < 0x1_0000_0000_0000_0000 by {
            if i < large_offsets(t).len() {
                assert(all[i] == large_offsets(t)[i]);
            }
        }
    }
}

/// A row of a table that stands inside a longer string.
pub proof fn table_inside(
    b: Seq<u8>,
    at: int,
    n: nat,
    row: spec_fn(int) -> Seq<u8>,
    w: nat,
    i: int,
)
    requires
        forall|i: int| 0 <= i < n ==> (#[trigger] row(i)).len() == w,
        0 <= i < n,
        0 <= at,
        at + n * w <= b.len(),
        b.subrange(at, at + n * w) == table(n, row),
    ensures
        b.subrange(at + i * w, at + i * w + w) == row(i),
{
    table_row(n, row, w, i);
    assert(b.subrange(at + i * w, at + i * w + w) =~= b.subrange(at, at + n * w).subrange(
        i * w,
        i * w + w,
    ));
}

/// The parts of an index file and where they stand.
#[verifier::rlimit(40)]
pub proof fn idx_layout(es: Seq<IdxEntryView>, pack_sha: Seq<u8>)
    requires
        es.len() <= u32::MAX,
        forall|i: int| 0 <= i < es.len() ==> idx_entry_ok(#[trigger] es[i]),
        pack_sha.len() == 20,
        sha1_digest(idx_body(es, pack_sha)).len() == 20,
    ensures
        ({
            let b = idx_bytes(es, pack_sha);
            let n = es.len() as int;
            let m = large_offsets(es).len() as int;
            &&& b.len() == 1072 + 28 * n + 8 * m
            &&& b.take(4) == idx_magic()
            &&& b.subrange(4, 8) == be_bytes(2, 4)
            &&& b.subrange(8, 1032) == table(256, fanout_row(es))
            &&& b.subrange(1032, 1032 + 20 * n) == table(n as nat, name_row(es))
            &&& b.subrange(1032 + 24 * n, 1032 + 28 * n) == table(n as nat, slot_row(es))
            &&& b.subrange(1032 + 28 * n, 1032 + 28 * n + 8 * m) == table(
                m as nat,
                large_row(large_offsets(es)),
            )
            &&& b.subrange(b.len() - 40, b.len() - 20) == pack_sha
            &&& b.take(b.len() - 20) == idx_body(es, pack_sha)
            &&& b.skip(b.len() - 20) == sha1_digest(idx_body(es, pack_sha))
        }),
{
    let b = idx_bytes(es, pack_sha);
    let n = es.len();
    let large = large_offsets(es);
    let m = large.len();
    assert forall|k: int| 0 <= k < 256 implies (#[trigger] fanout_row(es)(k)).len() == 4 by {
        be_bytes_len(fanout(es, k), 4);
    }
    assert forall|i: int| 0 <= i < n implies (#[trigger] name_row(es)(i)).len() == 20 by {
        assert(idx_entry_ok(es[i]));
    }
    assert forall|i: int| 0 <= i < n implies (#[trigger] crc_row(es)(i)).len() == 4 by {
        be_bytes_len(es[i].crc, 4);
    }
    assert forall|i: int| 0 <= i < n implies (#[trigger] slot_row(es)(i)).len() == 4 by {
        be_bytes_len(offset_slot(es, i), 4);
    }
    assert forall|i: int| 0 <= i < m implies (#[trigger] large_row(large)(i)).len() == 8 by {
        be_bytes_len(large[i], 8);
    }
    table_len(256, fanout_row(es), 4);
    table_len(n, name_row(es), 20);
    table_len(n, crc_row(es), 4);
    table_len(n, slot_row(es), 4);
    table_len(m, large_row(large), 8);
    be_bytes_len(2, 4);
    let p1 = idx_magic();
    let p2 = be_bytes(2, 4);
    let p3 = table(256, fanout_row(es));
    let p4 = table(n, name_row(es));
    let p5 = table(n, crc_row(es));
    let p6 = table(n, slot_row(es));
    let p7 = table(m, large_row(large));
    let p9 = sha1_digest(idx_body(es, pack_sha));
    assert(b =~= p1 + p2 + p3 + p4 + p5 + p6 + p7 + pack_sha + p9);
    assert(b.take(4) =~= p1);
    assert(b.subrange(4, 8) =~= p2);
    assert(b.subrange(8, 1032) =~= p3);
    let ni = n as int;
    let mi = m as int;
    assert(b.subrange(1032, 1032 + 20 * ni) =~= p4);
    assert(b.subrange(1032 + 24 * ni, 1032 + 28 * ni) =~= p6);
    assert(b.subrange(1032 + 28 * ni, 1032 + 28 * ni + 8 * mi) =~= p7);
    assert(b.subrange(b.len() - 40, b.len() - 20) =~= pack_sha);
    assert(b.take(b.len() - 20) =~= idx_body(es, pack_sha));
    assert(b.skip(b.len() - 20) =~= p9);
}

/// What an index file needs to carry its entries.
pub open spec fn idx_ok(es: Seq<IdxEntryView>, pack_sha: Seq<u8>) -> bool {
    &&& es.len() <= u32::MAX
    &&& forall|i: int| 0 <= i < es.len() ==> idx_entry_ok(#[trigger] es[i])
    &&& pack_sha.len() == 20
    &&& sha1_digest(idx_body(es, pack_sha)).len() == 20
}

/// The last fanout slot of a written index counts its entries.
pub proof fn written_count(es: Seq<IdxEntryView>, pack_sha: Seq<u8>)
    requires
        idx_ok(es, pack_sha),
    ensures
        idx_count(idx_bytes(es, pack_sha)) == es.len(),
{
    let b = idx_bytes(es, pack_sha);
    idx_layout(es, pack_sha);
    byte_capacities();
    assert forall|k: int| 0 <= k < 256 implies (#[trigger] fanout_row(es)(k)).len() == 4 by {
        be_bytes_len(fanout(es, k), 4);
    }
    table_inside(b, 8, 256, fanout_row(es), 4, 255);
    fanout_bound(es, 255);
    be_round_trip(es.len(), 4);
}

/// A slot of a written index.
pub proof fn written_slot(es: Seq<IdxEntryView>, pack_sha: Seq<u8>, i: int)
    requires
        idx_ok(es, pack_sha),
        0 <= i < es.len(),
    ensures
        slot(idx_bytes(es, pack_sha), i) == offset_slot(es, i),
{
    let b = idx_bytes(es, pack_sha);
    let n = es.len();
    written_count(es, pack_sha);
    idx_layout(es, pack_sha);
    byte_capacities();
    assert forall|k: int| 0 <= k < n implies (#[trigger] slot_row(es)(k)).len() == 4 by {
        be_bytes_len(offset_slot(es, k), 4);
    }
    table_inside(b, 1032 + 24 * n as int, n, slot_row(es), 4, i);
    be_round_trip(offset_slot(es, i), 4);
}

/// An offset of a written index.
pub proof fn written_offset(es: Seq<IdxEntryView>, pack_sha: Seq<u8>, i: int)
    requires
        idx_ok(es, pack_sha),
        0 <= i < es.len(),
    ensures
        offset_at(idx_bytes(es, pack_sha), i) == es[i].offset,
{
    let b = idx_bytes(es, pack_sha);
    let n = es.len();
    let large = large_offsets(es);
    let m = large.len();
    written_count(es, pack_sha);
    written_slot(es, pack_sha, i);
    assert(idx_entry_ok(es[i]));
    if es[i].offset >= LARGE_OFFSET {
        assert forall|j: int| 0 <= j < n implies #[trigger] slot(b, j) == offset_slot(es, j) by {
            written_slot(es, pack_sha, j);
        }
        large_before_written(b, es, i);
        large_offset_at(es, i);
        large_offsets_fit(es);
        idx_layout(es, pack_sha);
        byte_capacities();
        assert forall|k: int| 0 <= k < m implies (#[trigger] large_row(large)(k)).len() == 8 by {
            be_bytes_len(large[k], 8);
        }
        let k = large_offsets(es.take(i)).len() as int;
        table_inside(b, 1032 + 28 * n as int, m, large_row(large), 8, k);
        be_round_trip(large[k], 8);
    }
}

/// An id of a written index.
pub proof fn written_id(es: Seq<IdxEntryView>, pack_sha: Seq<u8>, i: int)
    requires
        idx_ok(es, pack_sha),
        0 <= i < es.len(),
    ensures
        idx_bytes(es, pack_sha).subrange(1032 + 20 * i, 1052 + 20 * i) == es[i].id,
{
    let b = idx_bytes(es, pack_sha);
    idx_layout(es, pack_sha);
    assert forall|k: int| 0 <= k < es.len() implies (#[trigger] name_row(es)(k)).len() == 20 by {
        assert(idx_entry_ok(es[k]));
    }
    table_inside(b, 1032, es.len(), name_row(es), 20, i);
}

/// The ids and offsets of a written index.
proof fn written_tables(es: Seq<IdxEntryView>, pack_sha: Seq<u8>)
    requires
        idx_ok(es, pack_sha),
    ensures
        ({
            let b = idx_bytes(es, pack_sha);
            let parsed = entries_idx(es, pack_sha);
            &&& Seq::new(es.len(), |i: int| offset_at(b, i)) == parsed.offsets
            &&& Seq::new(es.len(), |i: int| b.subrange(1032 + 20 * i, 1052 + 20 * i))
                == parsed.ids
        }),
{
    let b = idx_bytes(es, pack_sha);
    let n = es.len();
    let parsed = entries_idx(es, pack_sha);
    assert(Seq::new(n, |i: int| offset_at(b, i)) =~= parsed.offsets) by {
        assert forall|i: int| 0 <= i < n implies offset_at(b, i) == es[i].offset by {
            written_offset(es, pack_sha, i);
        }
    }
    assert(Seq::new(n, |i: int| b.subrange(1032 + 20 * i, 1052 + 20 * i)) =~= parsed.ids) by {
        assert forall|i: int| 0 <= i < n implies b.subrange(1032 + 20 * i, 1052 + 20 * i)
            == es[i].id by {
            written_id(es, pack_sha, i);
        }
    }
}

/// How many large offsets a written index has.
proof fn written_large(es: Seq<IdxEntryView>, pack_sha: Seq<u8>)
    requires
        idx_ok(es, pack_sha),
    ensures
        large_before(idx_bytes(es, pack_sha), es.len() as int) == large_offsets(es).len(),
{
    let b = idx_bytes(es, pack_sha);
    let n = es.len();
    assert forall|i: int| 0 <= i < n implies #[trigger] slot(b, i) == offset_slot(es, i) by {
        written_slot(es, pack_sha, i);
    }
    large_before_written(b, es, n as int);
    assert(es.take(n as int) =~= es);
}

/// Law: reading a written index gives the ids, the offsets and the pack's
/// hash, in the order they were written.
pub proof fn law_idx_round_trip(es: Seq<IdxEntryView>, pack_sha: Seq<u8>)
    requires
        idx_ok(es, pack_sha),
    ensures
        idx_contents(idx_bytes(es, pack_sha)) == Ok::<_, PackErrorView>(entries_idx(es, pack_sha)),
{
    let b = idx_bytes(es, pack_sha);
    let n = es.len();
    idx_layout(es, pack_sha);
    written_count(es, pack_sha);
    byte_capacities();
    be_round_trip(2, 4);
    written_large(es, pack_sha);
    written_tables(es, pack_sha);
}

} // verus!
