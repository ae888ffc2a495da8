//! What packs, their indexes and lookups promise together.

use vstd::prelude::*;

use super::entry::{
    code_kind, delta_at, entry_object, header_at, id_index, id_index_spec, OFS_DELTA,
};
use super::idx::{entries_idx, IdxEntryView};
use super::indexing::{
    all_objects, base_index, entry_at, has_id, idle_sweep, index_entries, index_entry, indexed,
    insert_by_id, none_unresolved, object_index, object_index_spec, pack_count, pack_index,
    pack_objects, plain_object, plain_objects, plain_objects_each, ref_step, ref_sweep,
    ref_sweep_shape, resolved_all, start_index, start_index_spec, unresolved, walk, Objects,
    RawView,
};
use super::varint::two64;
use super::writer::{
    as_objects, deflatable, inflatable, pack_body, pack_bytes, packed_entry_reads, packed_raws,
};
use super::{pack_hash, PackErrorView, PackView, MAX_DELTA_CHAIN};
use crate::bytes::{ascii, be_bytes, be_bytes_len, be_round_trip, be_value, byte_capacities, lex_lt};
use crate::codec::{sha1_digest, zlib_inflated};
use crate::object::{object_id, ObjectKind};

verus! {

// ---------------------------------------------------------------------
// The index lists every object once
// ---------------------------------------------------------------------

/// Where an inserted entry comes to stand.
proof fn insert_by_id_somewhere(es: Seq<IdxEntryView>, e: IdxEntryView) -> (k: int)
    ensures
        0 <= k <= es.len(),
        insert_by_id(es, e) == es.insert(k, e),
    decreases es.len(),
{
    if es.len() == 0 || !lex_lt(e.id, es.last().id) {
        assert(es.insert(es.len() as int, e) =~= es.push(e));
        es.len() as int
    } else {
        let k = insert_by_id_somewhere(es.drop_last(), e);
        assert(es.insert(k, e) =~= es.drop_last().insert(k, e).push(es.last()));
        k
    }
}

/// The index entries are those of the objects, and no two objects share an
/// id.
pub proof fn index_entries_members(bytes: Seq<u8>, raw: Seq<RawView>, objects: Objects, n: nat)
    requires
        index_entries(bytes, raw, objects, n) is Ok,
    ensures
        ({
            let es = index_entries(bytes, raw, objects, n)->Ok_0;
            &&& es.len() == n
            &&& forall|k: int|
                0 <= k < n ==> exists|j: int|
                    0 <= j < n && #[trigger] es[k] == #[trigger] index_entry(bytes, raw, objects, j)
            &&& forall|j: int| #![trigger index_entry(bytes, raw, objects, j)]
                0 <= j < n ==> es.contains(index_entry(bytes, raw, objects, j))
            &&& forall|i: int, j: int|
                0 <= i < j < n ==> (#[trigger] index_entry(bytes, raw, objects, i)).id != (
                #[trigger] index_entry(bytes, raw, objects, j)).id
        }),
    decreases n,
{
    if n > 0 {
        let m = (n - 1) as nat;
        index_entries_members(bytes, raw, objects, m);
        let es = index_entries(bytes, raw, objects, m)->Ok_0;
        let e = index_entry(bytes, raw, objects, m as int);
        let all = index_entries(bytes, raw, objects, n)->Ok_0;
        let at = insert_by_id_somewhere(es, e);
        assert(all == es.insert(at, e));
        assert forall|k: int| 0 <= k < n implies exists|j: int|
            0 <= j < n && #[trigger] all[k] == #[trigger] index_entry(bytes, raw, objects, j) by {
            if k == at {
                assert(all[k] == index_entry(bytes, raw, objects, m as int));
            } else {
                let k0 = if k < at {
                    k
                } else {
                    k - 1
                };
                assert(all[k] == es[k0]);
                let j = choose|j: int|
                    0 <= j < m && #[trigger] es[k0] == #[trigger] index_entry(
                        bytes,
                        raw,
                        objects,
                        j,
                    );
                assert(all[k] == index_entry(bytes, raw, objects, j));
            }
        }
        assert forall|j: int| #![trigger index_entry(bytes, raw, objects, j)] 0 <= j
            < n implies all.contains(index_entry(bytes, raw, objects, j)) by {
            if j == m {
                assert(all[at] == e);
            } else {
                let x = index_entry(bytes, raw, objects, j);
                assert(es.contains(x));
                let k = choose|k: int| 0 <= k < es.len() && es[k] == x;
                let k1 = if k < at {
                    k
                } else {
                    k + 1
                };
                assert(all[k1] == x);
            }
        }
        assert forall|i: int, j: int| 0 <= i < j < n implies (#[trigger] index_entry(
            bytes,
            raw,
            objects,
            i,
        )).id != (#[trigger] index_entry(bytes, raw, objects, j)).id by {
            if j == m {
                let x = index_entry(bytes, raw, objects, i);
                assert(es.contains(x));
                let k = choose|k: int| 0 <= k < es.len() && es[k] == x;
                if x.id == e.id {
                    assert(es[k].id == e.id);
                    assert(indexed(es, e.id));
                }
            }
        }
    }
}

/// The index position of an object, and back.
proof fn index_finds(bytes: Seq<u8>, raw: Seq<RawView>, objects: Objects, id: Seq<u8>)
    requires
        index_entries(bytes, raw, objects, objects.len()) is Ok,
        raw.len() == objects.len(),
        forall|i: int| 0 <= i < raw.len() ==> (#[trigger] raw[i]).start >= 0,
    ensures
        ({
            let es = index_entries(bytes, raw, objects, objects.len())->Ok_0;
            let idx = entries_idx(es, Seq::empty());
            match id_index(idx.ids, id) {
                Some(k) => exists|j: int|
                    0 <= j < objects.len() && #[trigger] index_entry(bytes, raw, objects, j).id
                        == id && idx.offsets[k] == raw[j].start,
                None => forall|j: int|
                    0 <= j < objects.len() ==> (#[trigger] index_entry(bytes, raw, objects, j)).id
                        != id,
            }
        }),
{
    let n = objects.len();
    let es = index_entries(bytes, raw, objects, n)->Ok_0;
    let idx = entries_idx(es, Seq::empty());
    index_entries_members(bytes, raw, objects, n);
    id_index_spec(idx.ids, id);
    match id_index(idx.ids, id) {
        Some(k) => {
            let j = choose|j: int|
                0 <= j < n && #[trigger] es[k] == #[trigger] index_entry(bytes, raw, objects, j);
            assert(idx.ids[k] == es[k].id);
            assert(index_entry(bytes, raw, objects, j).id == id);
            assert(raw[j].start >= 0);
        },
        None => {
            assert forall|j: int| 0 <= j < n implies (#[trigger] index_entry(
                bytes,
                raw,
                objects,
                j,
            )).id != id by {
                let x = index_entry(bytes, raw, objects, j);
                assert(es.contains(x));
                let k = choose|k: int| 0 <= k < es.len() && es[k] == x;
                assert(idx.ids[k] == x.id);
                assert(idx.ids.contains(x.id));
            }
        },
    }
}

// ---------------------------------------------------------------------
// Lookups agree with the index
// ---------------------------------------------------------------------

/// Every resolved object is what its entry says, given the others.
pub open spec fn justified(bytes: Seq<u8>, raw: Seq<RawView>, objects: Objects) -> bool {
    forall|i: int|
        0 <= i < objects.len() && (#[trigger] objects[i]) is Some ==> object_justified(
            bytes,
            raw,
            objects,
            i,
        )
}

/// The `b`-th object is resolved and is what the `i`-th entry stands on.
pub open spec fn stands_on(raw: Seq<RawView>, objects: Objects, i: int, b: int) -> bool {
    &&& 0 <= b < objects.len()
    &&& objects[b] is Some
    &&& match raw[i].ref_base {
        Some(id) => has_id(objects, b, id),
        None => raw[i].ofs_base is Some && start_index(raw, raw[i].ofs_base->0) == Some(b),
    }
}

/// The `i`-th object is what its entry says, given the others: what a full
/// entry holds, or what a delta makes of the object that it stands on.
pub open spec fn object_justified(
    bytes: Seq<u8>,
    raw: Seq<RawView>,
    objects: Objects,
    i: int,
) -> bool {
    if code_kind(raw[i].code) is Some {
        zlib_inflated(bytes.skip(raw[i].body)) matches Some((payload, _)) && objects[i] == Some(
            (code_kind(raw[i].code)->0, payload),
        )
    } else {
        exists|b: int| #[trigger]
            stands_on(raw, objects, i, b) && delta_at(
                bytes,
                raw[i].body,
                (objects[b]->0).0,
                (objects[b]->0).1,
            ) == Ok::<_, PackErrorView>(objects[i]->0)
    }
}

/// The first pass justifies what it resolves.
pub proof fn plain_objects_justified(bytes: Seq<u8>, raw: Seq<RawView>)
    requires
        plain_objects(bytes, raw, raw.len()) is Ok,
    ensures
        plain_objects(bytes, raw, raw.len())->Ok_0.len() == raw.len(),
        justified(bytes, raw, plain_objects(bytes, raw, raw.len())->Ok_0),
{
    plain_objects_each(bytes, raw, raw.len());
    let all = plain_objects(bytes, raw, raw.len())->Ok_0;
    assert forall|i: int| 0 <= i < all.len() && (#[trigger] all[i]) is Some implies object_justified(
        bytes,
        raw,
        all,
        i,
    ) by {
        assert(plain_object(bytes, raw, i, 0) == Ok::<_, PackErrorView>(all[i]));
        if code_kind(raw[i].code) is None {
            let base = raw[i].ofs_base->0;
            start_index_spec(raw, base);
            let j = start_index(raw, base)->0;
            plain_object_depth(bytes, raw, j, 1);
            assert(plain_object(bytes, raw, j, 0) == Ok::<_, PackErrorView>(all[j]));
            assert(stands_on(raw, all, i, j));
        }
    }
}

/// A sweep justifies what it resolves.
proof fn ref_sweep_justified(bytes: Seq<u8>, raw: Seq<RawView>, objects: Objects, n: nat)
    requires
        n <= objects.len(),
        raw.len() == objects.len(),
        justified(bytes, raw, objects),
        gaps_are_deltas(raw, objects),
        ref_sweep(bytes, raw, objects, n) is Ok,
    ensures
        justified(bytes, raw, ref_sweep(bytes, raw, objects, n)->Ok_0),
        gaps_are_deltas(raw, ref_sweep(bytes, raw, objects, n)->Ok_0),
    decreases n,
{
    if n > 0 {
        let m = n - 1;
        ref_sweep_justified(bytes, raw, objects, m as nat);
        ref_sweep_shape(bytes, raw, objects, m as nat);
        let s = ref_sweep(bytes, raw, objects, m as nat)->Ok_0;
        let next = ref_step(bytes, raw, s, m)->Ok_0;
        if s[m] is None && base_index(raw, s, m) is Some {
            let b = base_index(raw, s, m)->0;
            match raw[m].ref_base {
                Some(id) => object_index_spec(s, id),
                None => start_index_spec(raw, raw[m].ofs_base->0),
            }
            assert(stands_on(raw, s, m, b));
            assert(b != m);
            assert forall|i: int, c: int| #[trigger] stands_on(raw, s, i, c) implies stands_on(
                raw,
                next,
                i,
                c,
            ) && next[c] == s[c] by {
                assert(c != m);
            }
            assert forall|i: int| 0 <= i < next.len() && (#[trigger] next[i]) is Some implies object_justified(
                bytes,
                raw,
                next,
                i,
            ) by {
                if i == m {
                    assert(stands_on(raw, next, m, b));
                } else {
                    assert(next[i] == s[i]);
                    assert(object_justified(bytes, raw, s, i));
                    if code_kind(raw[i].code) is None {
                        let c = choose|c: int| #[trigger]
                            stands_on(raw, s, i, c) && delta_at(
                                bytes,
                                raw[i].body,
                                (s[c]->0).0,
                                (s[c]->0).1,
                            ) == Ok::<_, PackErrorView>(s[i]->0);
                        assert(stands_on(raw, next, i, c));
                    }
                }
            }
        }
    }
}

/// Only deltas are unresolved.
pub open spec fn gaps_are_deltas(raw: Seq<RawView>, objects: Objects) -> bool {
    forall|i: int|
        0 <= i < objects.len() && (#[trigger] objects[i]) is None ==> code_kind(raw[i].code) is None
}

/// All objects of a pack are justified and resolved.
pub proof fn all_objects_justified(bytes: Seq<u8>, raw: Seq<RawView>, objects: Objects)
    requires
        raw.len() == objects.len(),
        justified(bytes, raw, objects),
        gaps_are_deltas(raw, objects),
        all_objects(bytes, raw, objects) is Ok,
    ensures
        ({
            let all = all_objects(bytes, raw, objects)->Ok_0;
            &&& all.len() == objects.len()
            &&& justified(bytes, raw, all)
            &&& forall|i: int| 0 <= i < all.len() ==> (#[trigger] all[i]) is Some
        }),
    decreases unresolved(objects),
{
    ref_sweep_justified(bytes, raw, objects, objects.len());
    ref_sweep_shape(bytes, raw, objects, objects.len());
    let next = ref_sweep(bytes, raw, objects, objects.len())->Ok_0;
    if unresolved(next) == 0 {
        resolved_all(next);
    } else {
        all_objects_justified(bytes, raw, next);
    }
}

/// The walk finds each entry where it begins.
pub proof fn walk_entries_at(bytes: Seq<u8>, n: nat)
    requires
        walk(bytes, n) is Ok,
    ensures
        walk(bytes, n)->Ok_0.len() == n,
        forall|i: int|
            0 <= i < n ==> entry_at(bytes, (#[trigger] walk(bytes, n)->Ok_0[i]).start) == Ok::<
                _,
                PackErrorView,
            >(walk(bytes, n)->Ok_0[i]) && walk(bytes, n)->Ok_0[i].start >= 0,
    decreases n,
{
    if n > 0 {
        walk_entries_at(bytes, (n - 1) as nat);
        let done = walk(bytes, (n - 1) as nat)->Ok_0;
        let all = walk(bytes, n)->Ok_0;
        assert forall|i: int| 0 <= i < n implies entry_at(bytes, (#[trigger] all[i]).start) == Ok::<
            _,
            PackErrorView,
        >(all[i]) && all[i].start >= 0 by {
            if i < n - 1 {
                assert(all[i] == done[i]);
            }
        }
    }
}

/// A chain that is within the limit from some depth on is so from none on.
proof fn plain_object_depth(bytes: Seq<u8>, raw: Seq<RawView>, i: int, depth: nat)
    requires
        plain_object(bytes, raw, i, depth) is Ok,
        depth > 0,
    ensures
        plain_object(bytes, raw, i, (depth - 1) as nat) == plain_object(bytes, raw, i, depth),
    decreases MAX_DELTA_CHAIN + 1 - depth,
{
    if code_kind(raw[i].code) is None && raw[i].ref_base is None {
        let j = start_index(raw, raw[i].ofs_base->0)->0;
        plain_object_depth(bytes, raw, j, depth + 1);
    }
}

/// What is read at an entry is the object that the index was built from.
proof fn entry_object_sound(
    bytes: Seq<u8>,
    raw: Seq<RawView>,
    objects: Objects,
    i: int,
    depth: nat,
)
    requires
        0 <= i < raw.len(),
        raw.len() == objects.len(),
        forall|i: int|
            0 <= i < raw.len() ==> entry_at(bytes, (#[trigger] raw[i]).start) == Ok::<
                _,
                PackErrorView,
            >(raw[i]) && raw[i].start >= 0,
        justified(bytes, raw, objects),
        forall|i: int| 0 <= i < objects.len() ==> (#[trigger] objects[i]) is Some,
        index_entries(bytes, raw, objects, objects.len()) is Ok,
    ensures
        ({
            let idx = entries_idx(
                index_entries(bytes, raw, objects, objects.len())->Ok_0,
                Seq::empty(),
            );
            entry_object(bytes, idx.ids, idx.offsets, raw[i].start, depth) matches Ok(o)
                ==> objects[i] == Some(o)
        }),
    decreases MAX_DELTA_CHAIN + 1 - depth,
{
    let es = index_entries(bytes, raw, objects, objects.len())->Ok_0;
    let idx = entries_idx(es, Seq::empty());
    if entry_object(bytes, idx.ids, idx.offsets, raw[i].start, depth) is Ok {
        assert(entry_at(bytes, raw[i].start) == Ok::<_, PackErrorView>(raw[i]));
        assert(objects[i] is Some);
        assert(object_justified(bytes, raw, objects, i));
        let (code, size, n) = header_at(bytes, raw[i].start)->0;
        assert(raw[i].code == code);
        if code_kind(code) is Some {
        } else if code == OFS_DELTA {
            let j = choose|j: int| #[trigger]
                stands_on(raw, objects, i, j) && delta_at(
                    bytes,
                    raw[i].body,
                    (objects[j]->0).0,
                    (objects[j]->0).1,
                ) == Ok::<_, PackErrorView>(objects[i]->0);
            start_index_spec(raw, raw[i].ofs_base->0);
            entry_object_sound(bytes, raw, objects, j, depth + 1);
        } else {
            let id = raw[i].ref_base->0;
            index_finds(bytes, raw, objects, id);
            let k = id_index(idx.ids, id)->0;
            let j = choose|j: int|
                0 <= j < objects.len() && #[trigger] index_entry(bytes, raw, objects, j).id == id
                    && idx.offsets[k] == raw[j].start;
            let b = choose|b: int| #[trigger]
                stands_on(raw, objects, i, b) && delta_at(
                    bytes,
                    raw[i].body,
                    (objects[b]->0).0,
                    (objects[b]->0).1,
                ) == Ok::<_, PackErrorView>(objects[i]->0);
            assert(index_entry(bytes, raw, objects, b).id == id);
            index_entries_members(bytes, raw, objects, objects.len());
            assert(j == b);
            entry_object_sound(bytes, raw, objects, j, depth + 1);
        }
    }
}

/// The pack with the index that was built for it.
pub open spec fn with_built_index(path: Seq<u8>, bytes: Seq<u8>) -> PackView {
    let idx = entries_idx(pack_index(bytes)->Ok_0, Seq::empty());
    PackView { path, sha: pack_hash(bytes)->Ok_0, bytes, ids: idx.ids, offsets: idx.offsets }
}

/// Law: in a pack with the index built for it, a lookup that finds an
/// object finds one with the id asked for, and a lookup finds nothing just
/// where no object of the pack has the id.
pub proof fn law_lookup_matches_id(path: Seq<u8>, bytes: Seq<u8>, id: Seq<u8>)
    requires
        pack_index(bytes) is Ok,
    ensures
        with_built_index(path, bytes).object(id) matches Ok(Some((kind, payload))) ==> object_id(
            kind,
            payload,
        ) == id && pack_objects(bytes)->Ok_0.1.contains(Some((kind, payload))),
        with_built_index(path, bytes).object(id) == Ok::<
            Option<(ObjectKind, Seq<u8>)>,
            PackErrorView,
        >(None) <==> forall|i: int|
            0 <= i < pack_objects(bytes)->Ok_0.1.len() ==> !#[trigger] has_id(
                pack_objects(bytes)->Ok_0.1,
                i,
                id,
            ),
{
    let (raw, objects) = pack_objects(bytes)->Ok_0;
    let plain = plain_objects(bytes, raw, raw.len())->Ok_0;
    walk_entries_at(bytes, pack_count(bytes));
    plain_objects_each(bytes, raw, raw.len());
    plain_objects_justified(bytes, raw);
    assert(gaps_are_deltas(raw, plain)) by {
        assert forall|i: int| 0 <= i < plain.len() && (#[trigger] plain[i]) is None implies code_kind(
            raw[i].code,
        ) is None by {
            assert(plain_object(bytes, raw, i, 0) == Ok::<_, PackErrorView>(plain[i]));
        }
    }
    all_objects_justified(bytes, raw, plain);
    index_finds(bytes, raw, objects, id);
    let p = with_built_index(path, bytes);
    match id_index(p.ids, id) {
        Some(k) => {
            let j = choose|j: int|
                0 <= j < objects.len() && #[trigger] index_entry(bytes, raw, objects, j).id == id
                    && p.offsets[k] == raw[j].start;
            entry_object_sound(bytes, raw, objects, j, 0);
            assert(objects[j] is Some);
            assert(has_id(objects, j, id));
        },
        None => {
            assert forall|i: int| 0 <= i < objects.len() implies !#[trigger] has_id(
                objects,
                i,
                id,
            ) by {
                assert(index_entry(bytes, raw, objects, i).id != id);
            }
        },
    }
}

// ---------------------------------------------------------------------
// Deltas within a pack are resolved
// ---------------------------------------------------------------------

/// What is resolved is what `all` says.
spec fn agrees(objects: Objects, all: Objects) -> bool {
    &&& objects.len() == all.len()
    &&& forall|i: int|
        0 <= i < objects.len() && (#[trigger] objects[i]) is Some ==> objects[i] == all[i]
}

/// Everything is resolved.
pub open spec fn all_resolved(objects: Objects) -> bool {
    forall|i: int| 0 <= i < objects.len() ==> (#[trigger] objects[i]) is Some
}

/// No two objects have the same id.
pub open spec fn one_of_each(objects: Objects) -> bool {
    forall|i: int, j: int, id: Seq<u8>|
        0 <= i < objects.len() && 0 <= j < objects.len() && #[trigger] has_id(objects, i, id)
            && #[trigger] has_id(objects, j, id) ==> i == j
}

/// Each delta stands on an object of lower rank.
pub open spec fn deltas_ranked(
    raw: Seq<RawView>,
    objects: Objects,
    rank: spec_fn(int) -> nat,
) -> bool {
    forall|i: int, b: int|
        0 <= i < raw.len() && code_kind(raw[i].code) is None && #[trigger] stands_on(
            raw,
            objects,
            i,
            b,
        ) ==> rank(b) < rank(i)
}

/// What the first pass resolves is what `all` says.
proof fn plain_object_agrees(
    bytes: Seq<u8>,
    raw: Seq<RawView>,
    all: Objects,
    i: int,
    depth: nat,
)
    requires
        raw.len() == all.len(),
        all_resolved(all),
        justified(bytes, raw, all),
        0 <= i < raw.len(),
        plain_object(bytes, raw, i, depth) matches Ok(Some(_)),
    ensures
        plain_object(bytes, raw, i, depth)->Ok_0 == all[i],
    decreases MAX_DELTA_CHAIN + 1 - depth,
{
    assert(all[i] is Some);
    assert(object_justified(bytes, raw, all, i));
    if code_kind(raw[i].code) is None {
        let j = start_index(raw, raw[i].ofs_base->0)->0;
        start_index_spec(raw, raw[i].ofs_base->0);
        plain_object_agrees(bytes, raw, all, j, depth + 1);
    }
}

/// The base that is found for a delta is the one it stands on.
proof fn base_agrees(raw: Seq<RawView>, objects: Objects, all: Objects, i: int)
    requires
        raw.len() == all.len(),
        agrees(objects, all),
        base_index(raw, objects, i) is Some,
    ensures
        ({
            let b = base_index(raw, objects, i)->0;
            &&& 0 <= b < objects.len()
            &&& objects[b] is Some
            &&& objects[b] == all[b]
            &&& stands_on(raw, all, i, b)
        }),
{
    match raw[i].ref_base {
        Some(id) => {
            object_index_spec(objects, id);
            let b = object_index(objects, id)->0;
            assert(has_id(objects, b, id));
            assert(has_id(all, b, id));
        },
        None => start_index_spec(raw, raw[i].ofs_base->0),
    }
}

/// A sweep succeeds, and resolves to what `all` says.
proof fn sweep_agrees(bytes: Seq<u8>, raw: Seq<RawView>, objects: Objects, all: Objects, n: nat)
    requires
        raw.len() == all.len(),
        all_resolved(all),
        justified(bytes, raw, all),
        one_of_each(all),
        agrees(objects, all),
        gaps_are_deltas(raw, objects),
        n <= objects.len(),
    ensures
        ref_sweep(bytes, raw, objects, n) is Ok,
        agrees(ref_sweep(bytes, raw, objects, n)->Ok_0, all),
        gaps_are_deltas(raw, ref_sweep(bytes, raw, objects, n)->Ok_0),
    decreases n,
{
    if n > 0 {
        let m = n - 1;
        sweep_agrees(bytes, raw, objects, all, m as nat);
        let s = ref_sweep(bytes, raw, objects, m as nat)->Ok_0;
        if s[m] is None && base_index(raw, s, m) is Some {
            base_agrees(raw, s, all, m);
            let b = base_index(raw, s, m)->0;
            assert(all[m] is Some);
            assert(object_justified(bytes, raw, all, m));
            let c = choose|c: int| #[trigger]
                stands_on(raw, all, m, c) && delta_at(
                    bytes,
                    raw[m].body,
                    (all[c]->0).0,
                    (all[c]->0).1,
                ) == Ok::<_, PackErrorView>(all[m]->0);
            assert(b == c) by {
                if let Some(id) = raw[m].ref_base {
                    assert(has_id(all, b, id) && has_id(all, c, id));
                }
            }
        }
    }
}

/// An open delta whose way down is ranked finds a base somewhere on it.
proof fn open_delta_finds(
    bytes: Seq<u8>,
    raw: Seq<RawView>,
    objects: Objects,
    all: Objects,
    rank: spec_fn(int) -> nat,
    i: int,
) -> (k: int)
    requires
        raw.len() == all.len(),
        all_resolved(all),
        justified(bytes, raw, all),
        deltas_ranked(raw, all, rank),
        agrees(objects, all),
        gaps_are_deltas(raw, objects),
        0 <= i < objects.len(),
        objects[i] is None,
    ensures
        0 <= k < objects.len(),
        objects[k] is None,
        base_index(raw, objects, k) is Some,
    decreases rank(i),
{
    assert(all[i] is Some);
    assert(object_justified(bytes, raw, all, i));
    let b = choose|b: int| #[trigger]
        stands_on(raw, all, i, b) && delta_at(
            bytes,
            raw[i].body,
            (all[b]->0).0,
            (all[b]->0).1,
        ) == Ok::<_, PackErrorView>(all[i]->0);
    if objects[b] is Some {
        if let Some(id) = raw[i].ref_base {
            assert(has_id(objects, b, id));
            object_index_spec(objects, id);
        }
        i
    } else {
        open_delta_finds(bytes, raw, objects, all, rank, b)
    }
}

/// Sweeps resolve everything.
proof fn sweeps_resolve(
    bytes: Seq<u8>,
    raw: Seq<RawView>,
    objects: Objects,
    all: Objects,
    rank: spec_fn(int) -> nat,
)
    requires
        raw.len() == all.len(),
        all_resolved(all),
        justified(bytes, raw, all),
        one_of_each(all),
        deltas_ranked(raw, all, rank),
        agrees(objects, all),
        gaps_are_deltas(raw, objects),
    ensures
        all_objects(bytes, raw, objects) == Ok::<_, PackErrorView>(all),
    decreases unresolved(objects),
{
    let n = objects.len();
    sweep_agrees(bytes, raw, objects, all, n);
    ref_sweep_shape(bytes, raw, objects, n);
    let next = ref_sweep(bytes, raw, objects, n)->Ok_0;
    if unresolved(next) == 0 {
        resolved_all(next);
        assert(next =~= all);
    } else if unresolved(next) >= unresolved(objects) {
        idle_sweep(bytes, raw, objects, n);
        if all_resolved(objects) {
            none_unresolved(objects);
        }
        let i = choose|i: int| 0 <= i < objects.len() && (#[trigger] objects[i]) is None;
        let k = open_delta_finds(bytes, raw, objects, all, rank, i);
        assert(objects[k] is None);
    } else {
        sweeps_resolve(bytes, raw, next, all, rank);
    }
}

/// Law: a pack whose deltas all stand, step by step, on objects of the pack is
/// resolved to these objects, whether a delta names its base or points to it,
/// and in whatever order they come. `plain_objects` fails only on a broken
/// entry or on too long a chain of offset deltas.
pub proof fn law_deltas_resolve(bytes: Seq<u8>, all: Objects, rank: spec_fn(int) -> nat)
    requires
        walk(bytes, pack_count(bytes)) is Ok,
        ({
            let raw = walk(bytes, pack_count(bytes))->Ok_0;
            &&& plain_objects(bytes, raw, raw.len()) is Ok
            &&& raw.len() == all.len()
            &&& justified(bytes, raw, all)
            &&& deltas_ranked(raw, all, rank)
        }),
        all_resolved(all),
        one_of_each(all),
    ensures
        pack_objects(bytes) == Ok::<_, PackErrorView>(
            (walk(bytes, pack_count(bytes))->Ok_0, all),
        ),
{
    let raw = walk(bytes, pack_count(bytes))->Ok_0;
    let plain = plain_objects(bytes, raw, raw.len())->Ok_0;
    plain_objects_each(bytes, raw, raw.len());
    assert forall|i: int| 0 <= i < plain.len() && (#[trigger] plain[i]) is Some implies plain[i]
        == all[i] by {
        assert(plain_object(bytes, raw, i, 0) == Ok::<_, PackErrorView>(plain[i]));
        plain_object_agrees(bytes, raw, all, i, 0);
    }
    assert forall|i: int| 0 <= i < plain.len() && (#[trigger] plain[i]) is None implies code_kind(
        raw[i].code,
    ) is None by {
        assert(plain_object(bytes, raw, i, 0) == Ok::<_, PackErrorView>(plain[i]));
    }
    sweeps_resolve(bytes, raw, plain, all, rank);
}

// ---------------------------------------------------------------------
// Written packs
// ---------------------------------------------------------------------

/// No two objects have the same id.
pub open spec fn ids_distinct(es: Seq<(ObjectKind, Seq<u8>)>) -> bool {
    forall|i: int, j: int|
        0 <= i < j < es.len() ==> object_id((#[trigger] es[i]).0, es[i].1) != object_id(
            (#[trigger] es[j]).0,
            es[j].1,
        )
}

/// Indexing objects with distinct ids succeeds.
proof fn distinct_indexes(bytes: Seq<u8>, raw: Seq<RawView>, es: Seq<(ObjectKind, Seq<u8>)>, n: nat)
    requires
        ids_distinct(es),
        n <= es.len(),
    ensures
        index_entries(bytes, raw, as_objects(es), n) is Ok,
    decreases n,
{
    if n > 0 {
        let m = (n - 1) as nat;
        let objects = as_objects(es);
        distinct_indexes(bytes, raw, es, m);
        index_entries_members(bytes, raw, objects, m);
        let done = index_entries(bytes, raw, objects, m)->Ok_0;
        let e = index_entry(bytes, raw, objects, m as int);
        if indexed(done, e.id) {
            let k = choose|k: int| 0 <= k < done.len() && (#[trigger] done[k]).id == e.id;
            let j = choose|j: int|
                0 <= j < m && #[trigger] done[k] == #[trigger] index_entry(bytes, raw, objects, j);
            assert(objects[j] == Some(es[j]));
            assert(objects[m as int] == Some(es[m as int]));
        }
    }
}

/// Law: a written pack can be indexed, and with that index every object
/// that was added is found under its id. `inflatable` is what
/// [`super::PackWriter::finish`] ensures of the compressed payloads.
pub proof fn law_written_pack_lookup(path: Seq<u8>, es: Seq<(ObjectKind, Seq<u8>)>, i: int)
    requires
        deflatable(es),
        inflatable(es),
        ids_distinct(es),
        0 <= i < es.len() <= u32::MAX,
        pack_hash(pack_bytes(es)) is Ok,
        pack_objects(pack_bytes(es)) == Ok::<_, PackErrorView>((packed_raws(es), as_objects(es))),
        forall|k: int| 0 <= k < es.len() ==> (#[trigger] es[k]).1.len() < two64(),
    ensures
        pack_index(pack_bytes(es)) is Ok,
        with_built_index(path, pack_bytes(es)).object(object_id(es[i].0, es[i].1)) == Ok::<
            _,
            PackErrorView,
        >(Some(es[i])),
{
    let b = pack_bytes(es);
    let raw = packed_raws(es);
    let objects = as_objects(es);
    let id = object_id(es[i].0, es[i].1);
    distinct_indexes(b, raw, es, es.len());
    index_entries_members(b, raw, objects, es.len());
    assert forall|k: int| 0 <= k < raw.len() implies (#[trigger] raw[k]).start >= 0 by {}
    index_finds(b, raw, objects, id);
    let p = with_built_index(path, b);
    assert(objects[i] == Some(es[i]));
    assert(index_entry(b, raw, objects, i).id == id);
    let k = id_index(p.ids, id)->0;
    let j = choose|j: int|
        0 <= j < objects.len() && #[trigger] index_entry(b, raw, objects, j).id == id
            && p.offsets[k] == raw[j].start;
    assert(j == i);
    assert(es[i].1.len() < two64());
    packed_entry_reads(es, i);
}

/// Law: a written pack begins with `PACK`, version 2 and the number of its
/// objects, and ends in the digest of what stands before it. One without
/// objects is 32 bytes long.
pub proof fn law_pack_layout(es: Seq<(ObjectKind, Seq<u8>)>)
    requires
        es.len() <= u32::MAX,
        sha1_digest(pack_body(es)).len() == 20,
    ensures
        ({
            let b = pack_bytes(es);
            let end = b.len() - 20;
            &&& end >= 12
            &&& b.take(4) == ascii("PACK"@)
            &&& be_value(b.subrange(4, 8)) == 2
            &&& be_value(b.subrange(8, 12)) == es.len()
            &&& b.skip(end) == sha1_digest(b.take(end))
            &&& es.len() == 0 ==> b.len() == 32
        }),
{
    reveal_strlit("PACK");
    let b = pack_bytes(es);
    let n = es.len();
    be_bytes_len(2, 4);
    be_bytes_len(n, 4);
    byte_capacities();
    be_round_trip(2, 4);
    be_round_trip(n, 4);
    assert(n % 0x1_0000_0000 == n);
    assert(ascii("PACK"@).len() == 4);
    assert(b.take(4) =~= ascii("PACK"@));
    assert(b.subrange(4, 8) =~= be_bytes(2, 4));
    assert(b.subrange(8, 12) =~= be_bytes(n, 4));
    assert(b.take(b.len() - 20) =~= pack_body(es));
    assert(b.skip(b.len() - 20) =~= sha1_digest(pack_body(es)));
}

} // verus!
