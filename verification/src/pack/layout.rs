//! How the bytes of a pack's index are laid out.

use vstd::prelude::*;

use super::idx::{
    crc_row, fanout, fanout_row, idx_bytes, idx_contents, idx_entry_ok, idx_layout, idx_ok,
    name_row, slot, table, table_inside, table_len, written_count, written_id, written_slot,
    IdxEntryView,
};
use crate::bytes::{be_bytes_len, be_round_trip, be_value, byte_capacities};
use crate::codec::sha1_digest;

verus! {

/// How many ids begin with a byte of at most `k`.
pub open spec fn begin_up_to(es: Seq<IdxEntryView>, k: int) -> nat {
    es.filter(|e: IdxEntryView| e.id[0] <= k).len()
}

/// The fanout counts.
proof fn fanout_counts(es: Seq<IdxEntryView>, k: int)
    ensures
        fanout(es, k) == begin_up_to(es, k),
        fanout(es, k) <= es.len(),
    decreases es.len(),
{
    let f = |e: IdxEntryView| e.id[0] <= k;
    reveal(Seq::filter);
    if es.len() > 0 {
        fanout_counts(es.drop_last(), k);
        assert(es.filter(f) == if f(es.last()) {
            es.drop_last().filter(f).push(es.last())
        } else {
            es.drop_last().filter(f)
        });
    }
}

/// The checksums stand behind the ids.
proof fn written_crc(es: Seq<IdxEntryView>, pack_sha: Seq<u8>, i: int)
    requires
        idx_ok(es, pack_sha),
        0 <= i < es.len(),
    ensures
        ({
            let at = 1032 + 20 * es.len() as int + 4 * i;
            be_value(idx_bytes(es, pack_sha).subrange(at, at + 4)) == es[i].crc
        }),
{
    let b = idx_bytes(es, pack_sha);
    let n = es.len();
    idx_layout(es, pack_sha);
    assert forall|k: int| 0 <= k < 256 implies (#[trigger] fanout_row(es)(k)).len() == 4 by {
        be_bytes_len(fanout(es, k), 4);
    }
    assert forall|k: int| 0 <= k < n implies (#[trigger] name_row(es)(k)).len() == 20 by {
        assert(idx_entry_ok(es[k]));
    }
    assert forall|k: int| 0 <= k < n implies (#[trigger] crc_row(es)(k)).len() == 4 by {
        be_bytes_len(es[k].crc, 4);
    }
    table_len(256, fanout_row(es), 4);
    table_len(n, name_row(es), 20);
    table_len(n, crc_row(es), 4);
    be_bytes_len(2, 4);
    let from = 1032 + 20 * n as int;
    assert(b.subrange(from, from + 4 * n) =~= table(n, crc_row(es)));
    table_inside(b, from, n, crc_row(es), 4, i);
    byte_capacities();
    assert(idx_entry_ok(es[i]));
    be_round_trip(es[i].crc, 4);
}

/// Law: a pack's index begins with `\377tOc` and version 2. There follow, for
/// each first byte, the number of ids up to it; the ids; their checksums; and
/// their offsets, where those below two to the 31st stand as they are. It ends
/// in the pack's hash and the digest of what stands before.
pub proof fn law_idx_layout(es: Seq<IdxEntryView>, pack_sha: Seq<u8>, i: int, k: int)
    requires
        idx_ok(es, pack_sha),
        0 <= i < es.len(),
        0 <= k < 256,
    ensures
        ({
            let b = idx_bytes(es, pack_sha);
            let n = es.len() as int;
            let ids = 1032 + 20 * i;
            let crcs = 1032 + 20 * n + 4 * i;
            let offsets = 1032 + 24 * n + 4 * i;
            &&& b.take(8) == seq![255u8, 116u8, 79u8, 99u8, 0u8, 0u8, 0u8, 2u8]
            &&& be_value(b.subrange(8 + 4 * k, 12 + 4 * k)) == begin_up_to(es, k)
            &&& b.subrange(ids, ids + 20) == es[i].id
            &&& be_value(b.subrange(crcs, crcs + 4)) == es[i].crc
            &&& es[i].offset < 0x8000_0000 ==> be_value(b.subrange(offsets, offsets + 4))
                == es[i].offset
            &&& es[i].offset >= 0x8000_0000 ==> be_value(b.subrange(offsets, offsets + 4))
                >= 0x8000_0000
            &&& b.subrange(b.len() - 40, b.len() - 20) == pack_sha
            &&& b.skip(b.len() - 20) == sha1_digest(b.take(b.len() - 20))
        }),
{
    let b = idx_bytes(es, pack_sha);
    let n = es.len();
    idx_layout(es, pack_sha);
    byte_capacities();
    crate::index::layout::law_four_bytes(0, 0, 0, 2);
    assert(b.take(8) =~= b.take(4) + b.subrange(4, 8));
    assert(b.take(8) =~= seq![255u8, 116u8, 79u8, 99u8, 0u8, 0u8, 0u8, 2u8]);
    assert forall|j: int| 0 <= j < 256 implies (#[trigger] fanout_row(es)(j)).len() == 4 by {
        be_bytes_len(fanout(es, j), 4);
    }
    table_inside(b, 8, 256, fanout_row(es), 4, k);
    fanout_counts(es, k);
    be_round_trip(fanout(es, k), 4);
    written_id(es, pack_sha, i);
    written_crc(es, pack_sha, i);
    written_slot(es, pack_sha, i);
    written_count(es, pack_sha);
    assert(slot(b, i) == be_value(b.subrange(1032 + 24 * n + 4 * i, 1032 + 24 * n + 4 * i + 4)));
}

/// Law: a file that is read as a pack's index begins with `\377tOc` and version
/// 2 and ends in the digest of what stands before; its ids stand in a table
/// behind the fanout, as many as the last slot of the fanout says.
pub proof fn law_idx_contents(b: Seq<u8>, i: int)
    requires
        idx_contents(b) is Ok,
        0 <= i < be_value(b.subrange(1028, 1032)),
    ensures
        b.len() >= 1072,
        b.take(4) == seq![255u8, 116u8, 79u8, 99u8],
        be_value(b.subrange(4, 8)) == 2,
        b.skip(b.len() - 20) == sha1_digest(b.take(b.len() - 20)),
        idx_contents(b)->Ok_0.pack_sha == b.subrange(b.len() - 40, b.len() - 20),
        idx_contents(b)->Ok_0.ids.len() == be_value(b.subrange(1028, 1032)),
        idx_contents(b)->Ok_0.offsets.len() == be_value(b.subrange(1028, 1032)),
        idx_contents(b)->Ok_0.ids[i] == b.subrange(1032 + 20 * i, 1052 + 20 * i),
        ({
            let at = 1032 + 24 * be_value(b.subrange(1028, 1032)) + 4 * i;
            be_value(b.subrange(at, at + 4)) < 0x8000_0000 ==> idx_contents(b)->Ok_0.offsets[i]
                == be_value(b.subrange(at, at + 4))
        }),
{
}

} // verus!
