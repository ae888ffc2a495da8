//! What the index of a pack says of the pack.

use vstd::prelude::*;

use super::idx::IdxEntryView;
use super::indexing::{
    index_entry, pack_index, pack_objects, plain_object, plain_objects, plain_objects_each, walk,
    Objects, RawView,
};
use super::laws::{
    all_objects_justified, gaps_are_deltas, index_entries_members, justified,
    plain_objects_justified, walk_entries_at,
};
use super::PackErrorView;
use crate::bytes::{be_value, lex_lt};
use crate::codec::crc32_checksum;
use crate::object::object_id;

verus! {

/// The entries stand one behind the other.
proof fn walk_contiguous(bytes: Seq<u8>, n: nat)
    requires
        walk(bytes, n) is Ok,
    ensures
        walk(bytes, n)->Ok_0.len() == n,
        n > 0 ==> walk(bytes, n)->Ok_0[0].start == 12,
        forall|i: int, j: int|
            0 <= i && j == i + 1 && j < n ==> (#[trigger] walk(bytes, n)->Ok_0[i]).end == (
            #[trigger] walk(bytes, n)->Ok_0[j]).start,
    decreases n,
{
    if n > 0 {
        let m = (n - 1) as nat;
        walk_contiguous(bytes, m);
        let done = walk(bytes, m)->Ok_0;
        let all = walk(bytes, n)->Ok_0;
        let at = super::indexing::walk_end(done);
        assert(all == done.push(super::indexing::entry_at(bytes, at)->Ok_0));
        assert(all[m as int].start == at);
        assert forall|i: int, j: int| 0 <= i && j == i + 1 && j < n implies (
        #[trigger] all[i]).end == (#[trigger] all[j]).start by {
            if j < m {
                assert(done[i].end == done[j].start);
            }
        }
    }
}

/// Law: a pack has as many entries as its header says, the first behind the
/// header and each other one behind the one before; and each object is what its
/// entry holds, or what its delta makes of the object that it stands on.
pub proof fn law_pack_objects(bytes: Seq<u8>)
    requires
        pack_objects(bytes) is Ok,
    ensures
        ({
            let (raw, objects) = pack_objects(bytes)->Ok_0;
            let n = be_value(bytes.subrange(8, 12));
            &&& raw.len() == n
            &&& objects.len() == n
            &&& n > 0 ==> raw[0].start == 12
            &&& forall|i: int, j: int|
                0 <= i && j == i + 1 && j < n ==> (#[trigger] raw[i]).end == (
                #[trigger] raw[j]).start
            &&& justified(bytes, raw, objects)
        }),
{
    let (raw, objects) = pack_objects(bytes)->Ok_0;
    let n = be_value(bytes.subrange(8, 12));
    walk_contiguous(bytes, n);
    let plain = plain_objects(bytes, raw, raw.len())->Ok_0;
    walk_entries_at(bytes, n);
    plain_objects_each(bytes, raw, raw.len());
    plain_objects_justified(bytes, raw);
    assert(gaps_are_deltas(raw, plain)) by {
        assert forall|i: int|
            0 <= i < plain.len() && (#[trigger] plain[i]) is None implies super::entry::code_kind(
            raw[i].code,
        ) is None by {
            assert(plain_object(bytes, raw, i, 0) == Ok::<_, PackErrorView>(plain[i]));
        }
    }
    all_objects_justified(bytes, raw, plain);
}

/// Ids in ascending order.
proof fn ids_ascend(bytes: Seq<u8>, raw: Seq<RawView>, objects: Objects, n: nat)
    requires
        super::indexing::index_entries(bytes, raw, objects, n) is Ok,
    ensures
        super::indexing::ids_ascending(
            super::indexing::index_entries(bytes, raw, objects, n)->Ok_0,
        ),
    decreases n,
{
    if n > 0 {
        let m = (n - 1) as nat;
        ids_ascend(bytes, raw, objects, m);
        let es = super::indexing::index_entries(bytes, raw, objects, m)->Ok_0;
        let e = index_entry(bytes, raw, objects, n - 1);
        insert_ascends(es, e);
    }
}

/// An entry with a new id that is put in its place.
proof fn insert_ascends(es: Seq<IdxEntryView>, e: IdxEntryView)
    requires
        super::indexing::ids_ascending(es),
        !super::indexing::indexed(es, e.id),
    ensures
        super::indexing::ids_ascending(super::indexing::insert_by_id(es, e)),
        forall|x: IdxEntryView| #[trigger]
            super::indexing::insert_by_id(es, e).contains(x) ==> x == e || es.contains(x),
    decreases es.len(),
{
    let r = super::indexing::insert_by_id(es, e);
    if es.len() == 0 || !lex_lt(e.id, es.last().id) {
        assert forall|i: int, j: int| 0 <= i < j < r.len() implies lex_lt(
            (#[trigger] r[i]).id,
            (#[trigger] r[j]).id,
        ) by {
            if j == es.len() {
                crate::bytes::lex_lt_total(e.id, es.last().id);
                assert(es[es.len() - 1].id != e.id);
                if i < es.len() - 1 {
                    assert(lex_lt(es[i].id, es[es.len() - 1].id));
                    crate::bytes::lex_lt_transitive(es[i].id, es.last().id, e.id);
                }
            }
        }
        assert forall|x: IdxEntryView| #[trigger] r.contains(x) implies x == e || es.contains(
            x,
        ) by {
            let i = choose|i: int| 0 <= i < r.len() && r[i] == x;
            if i < es.len() {
                assert(es[i] == x);
            }
        }
    } else {
        let t = es.drop_last();
        assert(!super::indexing::indexed(t, e.id)) by {
            if super::indexing::indexed(t, e.id) {
                let i = choose|i: int| 0 <= i < t.len() && (#[trigger] t[i]).id == e.id;
                assert(es[i].id == e.id);
            }
        }
        assert forall|i: int, j: int| 0 <= i < j < t.len() implies lex_lt(
            (#[trigger] t[i]).id,
            (#[trigger] t[j]).id,
        ) by {
            assert(lex_lt(es[i].id, es[j].id));
        }
        insert_ascends(t, e);
        let u = super::indexing::insert_by_id(t, e);
        assert forall|i: int, j: int| 0 <= i < j < r.len() implies lex_lt(
            (#[trigger] r[i]).id,
            (#[trigger] r[j]).id,
        ) by {
            if j == u.len() {
                assert(u.contains(u[i]));
                if u[i] != e {
                    let k = choose|k: int| 0 <= k < t.len() && t[k] == u[i];
                    assert(lex_lt(es[k].id, es[es.len() - 1].id));
                }
            } else {
                assert(lex_lt(u[i].id, u[j].id));
            }
        }
        assert forall|x: IdxEntryView| #[trigger] r.contains(x) implies x == e || es.contains(
            x,
        ) by {
            let i = choose|i: int| 0 <= i < r.len() && r[i] == x;
            if i < u.len() {
                assert(u.contains(u[i]));
                if x != e {
                    let k = choose|k: int| 0 <= k < t.len() && t[k] == x;
                    assert(es[k] == x);
                }
            } else {
                assert(es[es.len() - 1] == x);
            }
        }
    }
}

/// Law: the index of a pack has an entry for each of its objects and no other,
/// by ascending id, with the object's id, where its entry begins, and the
/// checksum of the entry's bytes.
pub proof fn law_pack_index(bytes: Seq<u8>)
    requires
        pack_index(bytes) is Ok,
    ensures
        pack_objects(bytes) is Ok,
        ({
            let (raw, objects) = pack_objects(bytes)->Ok_0;
            let es = pack_index(bytes)->Ok_0;
            &&& es.len() == objects.len()
            &&& forall|i: int, j: int|
                0 <= i < j < es.len() ==> lex_lt((#[trigger] es[i]).id, (#[trigger] es[j]).id)
            &&& forall|i: int| #![trigger raw[i]]
                0 <= i < objects.len() ==> es.contains(
                    IdxEntryView {
                        id: object_id((objects[i]->0).0, (objects[i]->0).1),
                        offset: raw[i].start as nat,
                        crc: crc32_checksum(bytes.subrange(raw[i].start, raw[i].end)) as nat,
                    },
                )
        }),
{
    let (raw, objects) = pack_objects(bytes)->Ok_0;
    let n = objects.len();
    index_entries_members(bytes, raw, objects, n);
    ids_ascend(bytes, raw, objects, n);
    let es = pack_index(bytes)->Ok_0;
    assert forall|i: int| #![trigger raw[i]] 0 <= i < n implies es.contains(
        IdxEntryView {
            id: object_id((objects[i]->0).0, (objects[i]->0).1),
            offset: raw[i].start as nat,
            crc: crc32_checksum(bytes.subrange(raw[i].start, raw[i].end)) as nat,
        },
    ) by {
        assert(es.contains(index_entry(bytes, raw, objects, i)));
    }
}

} // verus!
