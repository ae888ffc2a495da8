//! Building the index of a pack: walking its entries, resolving deltas and
//! naming every object.

use std::collections::HashMap;

use vstd::prelude::*;

use super::entry::{
    apply_delta_at, code_kind, delta_at, full_type_code_to_kind, header_at, zlib_decompress,
    OFS_DELTA, REF_DELTA,
};
use super::idx::{
    entries_idx, entries_view, idx_bytes, idx_contents, write_idx, IdxEntry, IdxEntryView,
};
use super::varint::{back_offset, read_offset_varint, read_size_varint};
use super::{pack_hash, validate_pack_bytes, PackError, PackErrorView, MAX_DELTA_CHAIN};
use crate::bytes::{
    be_value, bytes_lt, lex_lt, lex_lt_irreflexive, lex_lt_total, lex_lt_transitive, read_be32,
};
use crate::codec::{crc32, crc32_checksum, zlib_inflated};
use crate::object::{object_id, ObjectId, ObjectKind};

verus! {

// ---------------------------------------------------------------------
// Walking the entries
// ---------------------------------------------------------------------

/// Where an entry stands and what it is based on.
pub struct RawEntry {
    pub start: usize,
    pub end: usize,
    /// Where the zlib stream begins.
    pub body: usize,
    pub code: u8,
    /// For a delta against an earlier entry: where that entry begins.
    pub ofs_base: Option<u64>,
    /// For a delta against a named object: its id.
    pub ref_base: Option<ObjectId>,
}

/// What a [`RawEntry`] says.
pub struct RawView {
    pub start: int,
    pub end: int,
    pub body: int,
    pub code: u8,
    pub ofs_base: Option<int>,
    pub ref_base: Option<Seq<u8>>,
}

impl View for RawEntry {
    type V = RawView;

    open spec fn view(&self) -> RawView {
        RawView {
            start: self.start as int,
            end: self.end as int,
            body: self.body as int,
            code: self.code,
            ofs_base: match self.ofs_base {
                Some(o) => Some(o as int),
                None => None,
            },
            ref_base: match self.ref_base {
                Some(id) => Some(id@),
                None => None,
            },
        }
    }
}

/// What the entries of a list say.
pub open spec fn raws_view(raw: Seq<RawEntry>) -> Seq<RawView> {
    raw.map_values(|e: RawEntry| e@)
}

/// The entry without its end, or what is wrong with its header.
pub open spec fn entry_head(bytes: Seq<u8>, at: int) -> Result<RawView, PackErrorView> {
    match header_at(bytes, at) {
        None => Err(PackErrorView::TruncatedEntry),
        Some((code, _, n)) => {
            let c = at + n;
            if code_kind(code) is Some {
                Ok(RawView { start: at, end: at, body: c, code, ofs_base: None, ref_base: None })
            } else if code == OFS_DELTA {
                match back_offset(bytes.skip(c)) {
                    None => Err(PackErrorView::TruncatedEntry),
                    Some((back, m)) => if back >= at || back == 0 {
                        Err(PackErrorView::BadDelta)
                    } else {
                        Ok(
                            RawView {
                                start: at,
                                end: at,
                                body: c + m,
                                code,
                                ofs_base: Some(at - back),
                                ref_base: None,
                            },
                        )
                    },
                }
            } else if code == REF_DELTA {
                if c + 20 > bytes.len() {
                    Err(PackErrorView::TruncatedEntry)
                } else {
                    Ok(
                        RawView {
                            start: at,
                            end: at,
                            body: c + 20,
                            code,
                            ofs_base: None,
                            ref_base: Some(bytes.subrange(c, c + 20)),
                        },
                    )
                }
            } else {
                Err(PackErrorView::UnknownType(code))
            }
        },
    }
}

/// The entry at `at`, or what is wrong with it.
pub open spec fn entry_at(bytes: Seq<u8>, at: int) -> Result<RawView, PackErrorView> {
    match entry_head(bytes, at) {
        Err(e) => Err(e),
        Ok(head) => match zlib_inflated(bytes.skip(head.body)) {
            None => Err(PackErrorView::BadInflate),
            Some((_, used)) => Ok(RawView { end: head.body + used, ..head }),
        },
    }
}

/// The first `n` entries of a pack, one behind the other from the end of
/// the header on.
pub open spec fn walk(bytes: Seq<u8>, n: nat) -> Result<Seq<RawView>, PackErrorView>
    decreases n,
{
    if n == 0 {
        Ok(Seq::empty())
    } else {
        match walk(bytes, (n - 1) as nat) {
            Err(e) => Err(e),
            Ok(done) => match entry_at(bytes, walk_end(done)) {
                Err(e) => Err(e),
                Ok(entry) => Ok(done.push(entry)),
            },
        }
    }
}

/// Where the next entry begins.
pub open spec fn walk_end(done: Seq<RawView>) -> int {
    if done.len() == 0 {
        12
    } else {
        done.last().end
    }
}

/// An error early in the walk is the error of the walk.
proof fn walk_error(bytes: Seq<u8>, k: nat, n: nat)
    requires
        k <= n,
        walk(bytes, k) is Err,
    ensures
        walk(bytes, n) == walk(bytes, k),
    decreases n,
{
    if k < n {
        walk_error(bytes, k, (n - 1) as nat);
    }
}

/// Reads the head of the entry at `at`.
fn read_entry_head(bytes: &[u8], at: usize) -> (r: Result<RawEntry, PackError>)
    ensures
        match r {
            Ok(e) => entry_head(bytes@, at as int) == Ok::<_, PackErrorView>(e@) && e.body
                <= bytes@.len() && e.start < e.body,
            Err(e) => entry_head(bytes@, at as int) == Err::<RawView, _>(e@),
        },
{
    let (code, _, n) = match read_size_varint(bytes, at) {
        Some(x) => x,
        None => return Err(PackError::TruncatedEntry),
    };
    assert(bytes.len() == bytes@.len());
    let c: usize = at + n;
    if full_type_code_to_kind(code).is_some() {
        Ok(RawEntry { start: at, end: at, body: c, code, ofs_base: None, ref_base: None })
    } else if code == OFS_DELTA {
        match read_offset_varint(bytes, c) {
            None => Err(PackError::TruncatedEntry),
            Some((back, m)) => {
                if back >= at as u64 || back == 0 {
                    Err(PackError::BadDelta)
                } else {
                    Ok(
                        RawEntry {
                            start: at,
                            end: at,
                            body: c + m,
                            code,
                            ofs_base: Some(at as u64 - back),
                            ref_base: None,
                        },
                    )
                }
            },
        }
    } else if code == REF_DELTA {
        if bytes.len() - c < 20 {
            Err(PackError::TruncatedEntry)
        } else {
            Ok(
                RawEntry {
                    start: at,
                    end: at,
                    body: c + 20,
                    code,
                    ofs_base: None,
                    ref_base: Some(ObjectId::from_slice(bytes, c)),
                },
            )
        }
    } else {
        Err(PackError::UnknownType(code))
    }
}

/// Every entry lies within the pack.
pub open spec fn raws_inside(raw: Seq<RawEntry>, bytes: Seq<u8>) -> bool {
    forall|i: int|
        0 <= i < raw.len() ==> (#[trigger] raw[i]).start < raw[i].body <= raw[i].end <= bytes.len()
}

/// Walks the entries of a pack.
fn walk_entries(bytes: &[u8], n: u32) -> (r: Result<Vec<RawEntry>, PackError>)
    requires
        bytes@.len() >= 12,
    ensures
        match r {
            Ok(raw) => walk(bytes@, n as nat) == Ok::<_, PackErrorView>(raws_view(raw@))
                && raw@.len() == n && raws_inside(raw@, bytes@),
            Err(e) => walk(bytes@, n as nat) == Err::<Seq<RawView>, _>(e@),
        },
{
    let mut raw: Vec<RawEntry> = Vec::new();
    let mut cursor: usize = 12;
    let mut k: u32 = 0;
    assert(raws_view(raw@) =~= Seq::<RawView>::empty());
    while k < n
        invariant
            k <= n,
            raw@.len() == k,
            cursor <= bytes@.len(),
            walk(bytes@, k as nat) == Ok::<_, PackErrorView>(raws_view(raw@)),
            cursor == walk_end(raws_view(raw@)),
            raws_inside(raw@, bytes@),
        decreases n - k,
    {
        let ghost before = raw@;
        proof {
            if walk(bytes@, (k + 1) as nat) is Err {
                walk_error(bytes@, (k + 1) as nat, n as nat);
            }
        }
        let mut entry = match read_entry_head(bytes, cursor) {
            Ok(e) => e,
            Err(e) => return Err(e),
        };
        let used: usize = match zlib_decompress(bytes, entry.body) {
            Some((_, used)) => used,
            None => return Err(PackError::BadInflate),
        };
        assert(bytes.len() == bytes@.len());
        entry.end = entry.body + used;
        cursor = entry.end;
        let ghost view = entry@;
        raw.push(entry);
        assert(raws_view(raw@) =~= raws_view(before).push(view));
        k += 1;
    }
    Ok(raw)
}

// ---------------------------------------------------------------------
// Full objects and offset deltas on them
// ---------------------------------------------------------------------

/// The first entry that begins at `start`.
pub open spec fn start_index(raw: Seq<RawView>, start: int) -> Option<int>
    decreases raw.len(),
{
    if raw.len() == 0 {
        None
    } else if start_index(raw.drop_last(), start) is Some {
        start_index(raw.drop_last(), start)
    } else if raw.last().start == start {
        Some(raw.len() - 1)
    } else {
        None
    }
}

/// The object of an entry. A reference delta, and an offset delta on top of
/// one, is left open.
pub open spec fn plain_object(bytes: Seq<u8>, raw: Seq<RawView>, i: int, depth: nat) -> Result<
    Option<(ObjectKind, Seq<u8>)>,
    PackErrorView,
>
    decreases MAX_DELTA_CHAIN + 1 - depth,
{
    if depth > MAX_DELTA_CHAIN {
        Err(PackErrorView::DeltaChainTooDeep(MAX_DELTA_CHAIN as nat))
    } else if code_kind(raw[i].code) is Some {
        match zlib_inflated(bytes.skip(raw[i].body)) {
            None => Err(PackErrorView::BadInflate),
            Some((payload, _)) => Ok(Some((code_kind(raw[i].code)->0, payload))),
        }
    } else if raw[i].ref_base is Some {
        Ok(None)
    } else {
        match raw[i].ofs_base {
            None => Err(PackErrorView::BadDelta),
            Some(base) => match start_index(raw, base) {
                None => Err(PackErrorView::BadDelta),
                Some(j) => match plain_object(bytes, raw, j, depth + 1) {
                    Err(e) => Err(e),
                    Ok(None) => Ok(None),
                    Ok(Some((kind, payload))) => match delta_at(
                        bytes,
                        raw[i].body,
                        kind,
                        payload,
                    ) {
                        Err(e) => Err(e),
                        Ok(o) => Ok(Some(o)),
                    },
                },
            },
        }
    }
}

/// Maps the start of each entry to its position.
pub open spec fn starts_map(raw: Seq<RawEntry>, m: Map<u64, usize>) -> bool {
    forall|start: u64|
        match start_index(raws_view(raw), start as int) {
            Some(i) => #[trigger] m.contains_key(start) && m[start] == i && 0 <= i < raw.len(),
            None => !m.contains_key(start),
        }
}

/// Builds the map from starts to positions.
fn map_starts(raw: &Vec<RawEntry>) -> (r: HashMap<u64, usize>)
    ensures
        starts_map(raw@, r@),
{
    broadcast use vstd::std_specs::hash::group_hash_axioms;

    let mut m: HashMap<u64, usize> = HashMap::new();
    let mut i: usize = 0;
    assert(raws_view(raw@.take(0)) =~= Seq::<RawView>::empty());
    while i < raw.len()
        invariant
            i <= raw@.len(),
            starts_map(raw@.take(i as int), m@),
        decreases raw.len() - i,
    {
        let start: u64 = raw[i].start as u64;
        let ghost before = m@;
        proof {
            let t = raws_view(raw@.take(i + 1));
            assert(t.drop_last() =~= raws_view(raw@.take(i as int)));
            assert(t.last() == raw@[i as int]@);
        }
        if !m.contains_key(&start) {
            m.insert(start, i);
        }
        assert(starts_map(raw@.take(i + 1), m@)) by {
            assert forall|s: u64|
                match start_index(raws_view(raw@.take(i + 1)), s as int) {
                    Some(k) => #[trigger] m@.contains_key(s) && m@[s] == k && 0 <= k < i + 1,
                    None => !m@.contains_key(s),
                } by {
                assert(before.contains_key(s) <==> start_index(
                    raws_view(raw@.take(i as int)),
                    s as int,
                ) is Some);
            }
        }
        i += 1;
    }
    assert(raw@.take(i as int) =~= raw@);
    m
}

/// Resolves a full object or an offset delta on top of one.
fn resolve_payload(
    bytes: &[u8],
    raw: &Vec<RawEntry>,
    starts: &HashMap<u64, usize>,
    i: usize,
    depth: usize,
) -> (r: Result<Option<(ObjectKind, Vec<u8>)>, PackError>)
    requires
        i < raw@.len(),
        raws_inside(raw@, bytes@),
        starts_map(raw@, starts@),
        depth <= MAX_DELTA_CHAIN + 1,
    ensures
        match r {
            Ok(Some((k, p))) => plain_object(bytes@, raws_view(raw@), i as int, depth as nat)
                == Ok::<_, PackErrorView>(Some((k, p@))),
            Ok(None) => plain_object(bytes@, raws_view(raw@), i as int, depth as nat) == Ok::<
                Option<(ObjectKind, Seq<u8>)>,
                PackErrorView,
            >(None),
            Err(e) => plain_object(bytes@, raws_view(raw@), i as int, depth as nat) == Err::<
                Option<(ObjectKind, Seq<u8>)>,
                _,
            >(e@),
        },
    decreases MAX_DELTA_CHAIN + 1 - depth,
{
    broadcast use vstd::std_specs::hash::group_hash_axioms;

    if depth > MAX_DELTA_CHAIN {
        return Err(PackError::DeltaChainTooDeep(MAX_DELTA_CHAIN));
    }
    let entry = &raw[i];
    assert(raws_view(raw@)[i as int] == entry@);
    if let Some(kind) = full_type_code_to_kind(entry.code) {
        return match zlib_decompress(bytes, entry.body) {
            None => Err(PackError::BadInflate),
            Some((payload, _)) => Ok(Some((kind, payload))),
        };
    }
    if entry.ref_base.is_some() {
        return Ok(None);
    }
    let base: u64 = match entry.ofs_base {
        Some(b) => b,
        None => return Err(PackError::BadDelta),
    };
    let j: usize = match starts.get(&base) {
        Some(j) => *j,
        None => {
            assert(!starts@.contains_key(base));
            return Err(PackError::BadDelta);
        },
    };
    assert(starts@.contains_key(base));
    match resolve_payload(bytes, raw, starts, j, depth + 1) {
        Err(e) => Err(e),
        Ok(None) => Ok(None),
        Ok(Some((kind, payload))) => match apply_delta_at(bytes, entry.body, kind, &payload) {
            Err(e) => Err(e),
            Ok(o) => Ok(Some(o)),
        },
    }
}

// ---------------------------------------------------------------------
// Reference deltas and what stands on them
// ---------------------------------------------------------------------

/// The objects that are resolved so far.
pub type Objects = Seq<Option<(ObjectKind, Seq<u8>)>>;

/// The objects of the first `n` entries but for reference deltas and what
/// stands on them, or the first error.
pub open spec fn plain_objects(bytes: Seq<u8>, raw: Seq<RawView>, n: nat) -> Result<
    Objects,
    PackErrorView,
>
    decreases n,
{
    if n == 0 {
        Ok(Seq::empty())
    } else {
        match plain_objects(bytes, raw, (n - 1) as nat) {
            Err(e) => Err(e),
            Ok(done) => match plain_object(bytes, raw, n - 1, 0) {
                Err(e) => Err(e),
                Ok(o) => Ok(done.push(o)),
            },
        }
    }
}

/// Whether the `i`-th object is resolved and has the id.
pub open spec fn has_id(objects: Objects, i: int, id: Seq<u8>) -> bool {
    objects[i] matches Some((kind, payload)) && object_id(kind, payload) == id
}

/// The first resolved object with the id.
pub open spec fn object_index(objects: Objects, id: Seq<u8>) -> Option<int>
    decreases objects.len(),
{
    if objects.len() == 0 {
        None
    } else if object_index(objects.drop_last(), id) is Some {
        object_index(objects.drop_last(), id)
    } else if has_id(objects, objects.len() - 1, id) {
        Some(objects.len() - 1)
    } else {
        None
    }
}

/// The resolved object that a delta stands on: the first with the id that a
/// reference delta names, or that of the entry that an offset delta points
/// to.
pub open spec fn base_index(raw: Seq<RawView>, objects: Objects, i: int) -> Option<int> {
    match raw[i].ref_base {
        Some(id) => object_index(objects, id),
        None => match raw[i].ofs_base {
            None => None,
            Some(base) => match start_index(raw, base) {
                Some(j) => if objects[j] is Some {
                    Some(j)
                } else {
                    None
                },
                None => None,
            },
        },
    }
}

/// The objects after an attempt at the `i`-th entry: a delta whose base is
/// there gets resolved.
pub open spec fn ref_step(bytes: Seq<u8>, raw: Seq<RawView>, objects: Objects, i: int) -> Result<
    Objects,
    PackErrorView,
> {
    if objects[i] is Some {
        Ok(objects)
    } else {
        match base_index(raw, objects, i) {
            None => Ok(objects),
            Some(b) => match delta_at(
                bytes,
                raw[i].body,
                (objects[b]->0).0,
                (objects[b]->0).1,
            ) {
                Err(e) => Err(e),
                Ok(o) => Ok(objects.update(i, Some(o))),
            },
        }
    }
}

/// The objects after an attempt at each of the first `n` entries.
pub open spec fn ref_sweep(bytes: Seq<u8>, raw: Seq<RawView>, objects: Objects, n: nat) -> Result<
    Objects,
    PackErrorView,
>
    decreases n,
{
    if n == 0 {
        Ok(objects)
    } else {
        match ref_sweep(bytes, raw, objects, (n - 1) as nat) {
            Err(e) => Err(e),
            Ok(done) => ref_step(bytes, raw, done, n - 1),
        }
    }
}

/// How many objects are unresolved.
pub open spec fn unresolved(objects: Objects) -> nat
    decreases objects.len(),
{
    if objects.len() == 0 {
        0
    } else if objects.last() is None {
        unresolved(objects.drop_last()) + 1
    } else {
        unresolved(objects.drop_last())
    }
}

/// The base that the first unresolved reference delta waits for.
pub open spec fn missing_base(raw: Seq<RawView>, objects: Objects) -> Option<Seq<u8>>
    decreases objects.len(),
{
    if objects.len() == 0 {
        None
    } else if missing_base(raw, objects.drop_last()) is Some {
        missing_base(raw, objects.drop_last())
    } else if objects.last() is None {
        raw[objects.len() - 1].ref_base
    } else {
        None
    }
}

/// All objects: sweeps over the open deltas until everything is
/// resolved, or an error where a sweep resolves nothing more: then the pack
/// lacks the object that a reference delta names.
pub open spec fn all_objects(bytes: Seq<u8>, raw: Seq<RawView>, objects: Objects) -> Result<
    Objects,
    PackErrorView,
>
    decreases unresolved(objects),
{
    match ref_sweep(bytes, raw, objects, objects.len()) {
        Err(e) => Err(e),
        Ok(next) => if unresolved(next) == 0 {
            Ok(next)
        } else if unresolved(next) >= unresolved(objects) {
            Err(PackErrorView::ThinPackUnsupported(missing_base(raw, next)->0))
        } else {
            all_objects(bytes, raw, next)
        },
    }
}

/// A resolved object, or a gap.
pub type Slot = Option<(ObjectKind, ObjectId, Vec<u8>)>;

/// The objects of a list of slots.
pub open spec fn slots_view(slots: Seq<Slot>) -> Objects {
    slots.map_values(
        |s: Slot|
            match s {
                Some((kind, _, payload)) => Some((kind, payload@)),
                None => None,
            },
    )
}

/// Every resolved slot carries the id of its object.
pub open spec fn slots_named(slots: Seq<Slot>) -> bool {
    forall|i: int|
        0 <= i < slots.len() ==> match #[trigger] slots[i] {
            Some((kind, id, payload)) => id@ == object_id(kind, payload@),
            None => true,
        }
}

/// An error early in the list is the error of the list.
proof fn plain_objects_error(bytes: Seq<u8>, raw: Seq<RawView>, k: nat, n: nat)
    requires
        k <= n,
        plain_objects(bytes, raw, k) is Err,
    ensures
        plain_objects(bytes, raw, n) == plain_objects(bytes, raw, k),
    decreases n,
{
    if k < n {
        plain_objects_error(bytes, raw, k, (n - 1) as nat);
    }
}

/// Resolves everything but the reference deltas and what stands on them.
fn resolve_plain(bytes: &[u8], raw: &Vec<RawEntry>, starts: &HashMap<u64, usize>) -> (r: Result<
    Vec<Slot>,
    PackError,
>)
    requires
        raws_inside(raw@, bytes@),
        starts_map(raw@, starts@),
    ensures
        match r {
            Ok(slots) => plain_objects(bytes@, raws_view(raw@), raw@.len()) == Ok::<
                _,
                PackErrorView,
            >(slots_view(slots@)) && slots@.len() == raw@.len() && slots_named(slots@),
            Err(e) => plain_objects(bytes@, raws_view(raw@), raw@.len()) == Err::<Objects, _>(e@),
        },
{
    let mut slots: Vec<Slot> = Vec::new();
    let mut i: usize = 0;
    assert(slots_view(slots@) =~= Seq::empty());
    while i < raw.len()
        invariant
            i <= raw@.len(),
            slots@.len() == i,
            raws_inside(raw@, bytes@),
            starts_map(raw@, starts@),
            slots_named(slots@),
            plain_objects(bytes@, raws_view(raw@), i as nat) == Ok::<_, PackErrorView>(
                slots_view(slots@),
            ),
        decreases raw.len() - i,
    {
        let ghost before = slots@;
        assert(raws_view(raw@)[i as int] == raw@[i as int]@);
        match resolve_payload(bytes, raw, starts, i, 0) {
            Err(e) => {
                proof {
                    plain_objects_error(bytes@, raws_view(raw@), (i + 1) as nat, raw@.len());
                }
                return Err(e);
            },
            Ok(None) => {
                slots.push(None);
                assert(slots_view(slots@) =~= slots_view(before).push(None));
            },
            Ok(Some((kind, payload))) => {
                let id = ObjectId::compute(kind, &payload);
                let ghost view = Some((kind, payload@));
                slots.push(Some((kind, id, payload)));
                assert(slots_view(slots@) =~= slots_view(before).push(view));
            },
        }
        i += 1;
    }
    Ok(slots)
}

/// What [`object_index`] is.
pub proof fn object_index_spec(objects: Objects, id: Seq<u8>)
    ensures
        match object_index(objects, id) {
            Some(i) => 0 <= i < objects.len() && has_id(objects, i, id) && forall|j: int|
                0 <= j < i ==> !#[trigger] has_id(objects, j, id),
            None => forall|j: int| 0 <= j < objects.len() ==> !#[trigger] has_id(objects, j, id),
        },
    decreases objects.len(),
{
    if objects.len() > 0 {
        let t = objects.drop_last();
        object_index_spec(t, id);
        assert forall|j: int| 0 <= j < t.len() implies has_id(t, j, id) == #[trigger] has_id(
            objects,
            j,
            id,
        ) by {}
    }
}

/// Finds the first resolved object with the id.
fn find_object(slots: &Vec<Slot>, id: &ObjectId) -> (r: Option<usize>)
    requires
        slots_named(slots@),
    ensures
        match r {
            Some(i) => object_index(slots_view(slots@), id@) == Some(i as int) && i < slots@.len()
                && slots@[i as int] is Some,
            None => object_index(slots_view(slots@), id@) is None,
        },
{
    let ghost v = slots_view(slots@);
    proof {
        object_index_spec(v, id@);
    }
    let mut i: usize = 0;
    while i < slots.len()
        invariant
            i <= slots@.len(),
            v == slots_view(slots@),
            slots_named(slots@),
            forall|j: int| 0 <= j < i ==> !#[trigger] has_id(v, j, id@),
            match object_index(v, id@) {
                Some(i) => 0 <= i < v.len() && has_id(v, i, id@) && forall|j: int|
                    0 <= j < i ==> !#[trigger] has_id(v, j, id@),
                None => forall|j: int| 0 <= j < v.len() ==> !#[trigger] has_id(v, j, id@),
            },
        decreases slots.len() - i,
    {
        if let Some((_, found, _)) = &slots[i] {
            if *found == *id {
                assert(has_id(v, i as int, id@));
                return Some(i);
            }
        }
        assert(!has_id(v, i as int, id@));
        i += 1;
    }
    None
}

/// Resolving one more object.
proof fn unresolved_update(objects: Objects, i: int, o: (ObjectKind, Seq<u8>))
    requires
        0 <= i < objects.len(),
        objects[i] is None,
    ensures
        unresolved(objects.update(i, Some(o))) + 1 == unresolved(objects),
    decreases objects.len(),
{
    let t = objects.drop_last();
    let u = objects.update(i, Some(o));
    if i == objects.len() - 1 {
        assert(u.drop_last() =~= t);
    } else {
        unresolved_update(t, i, o);
        assert(u.drop_last() =~= t.update(i, Some(o)));
    }
}

/// A sweep never loses an object, and what it leaves is no more than there
/// was.
pub proof fn ref_sweep_shape(bytes: Seq<u8>, raw: Seq<RawView>, objects: Objects, n: nat)
    requires
        n <= objects.len(),
        ref_sweep(bytes, raw, objects, n) is Ok,
    ensures
        ({
            let next = ref_sweep(bytes, raw, objects, n)->Ok_0;
            &&& next.len() == objects.len()
            &&& unresolved(next) <= unresolved(objects)
            &&& forall|i: int| 0 <= i < objects.len() && (#[trigger] objects[i]) is Some ==> next[i] == objects[i]
        }),
    decreases n,
{
    if n > 0 {
        ref_sweep_shape(bytes, raw, objects, (n - 1) as nat);
        let done = ref_sweep(bytes, raw, objects, (n - 1) as nat)->Ok_0;
        if done[n - 1] is None && base_index(raw, done, n - 1) is Some {
            let b = base_index(raw, done, n - 1)->0;
            let o = delta_at(bytes, raw[n - 1].body, (done[b]->0).0, (done[b]->0).1)->Ok_0;
            unresolved_update(done, n - 1, o);
        }
    }
}

/// An error early in a sweep is the error of the sweep.
proof fn ref_sweep_error(bytes: Seq<u8>, raw: Seq<RawView>, objects: Objects, k: nat, n: nat)
    requires
        k <= n,
        ref_sweep(bytes, raw, objects, k) is Err,
    ensures
        ref_sweep(bytes, raw, objects, n) == ref_sweep(bytes, raw, objects, k),
    decreases n,
{
    if k < n {
        ref_sweep_error(bytes, raw, objects, k, (n - 1) as nat);
    }
}

/// Finds the resolved object that a delta stands on.
fn find_base(
    raw: &Vec<RawEntry>,
    starts: &HashMap<u64, usize>,
    slots: &Vec<Slot>,
    i: usize,
) -> (r: Option<usize>)
    requires
        i < raw@.len(),
        slots@.len() == raw@.len(),
        slots_named(slots@),
        starts_map(raw@, starts@),
    ensures
        match r {
            Some(b) => base_index(raws_view(raw@), slots_view(slots@), i as int) == Some(b as int)
                && b < slots@.len() && slots@[b as int] is Some,
            None => base_index(raws_view(raw@), slots_view(slots@), i as int) is None,
        },
{
    broadcast use vstd::std_specs::hash::group_hash_axioms;

    assert(raws_view(raw@)[i as int] == raw@[i as int]@);
    if let Some(id) = &raw[i].ref_base {
        return find_object(slots, id);
    }
    let base: u64 = match raw[i].ofs_base {
        Some(b) => b,
        None => return None,
    };
    match starts.get(&base) {
        Some(j) => {
            assert(starts@.contains_key(base));
            assert(slots_view(slots@)[*j as int] is Some <==> slots@[*j as int] is Some);
            if slots[*j].is_some() {
                Some(*j)
            } else {
                None
            }
        },
        None => {
            assert(!starts@.contains_key(base));
            None
        },
    }
}

/// One sweep over the open deltas.
fn sweep_refs(
    bytes: &[u8],
    raw: &Vec<RawEntry>,
    starts: &HashMap<u64, usize>,
    slots: &mut Vec<Slot>,
) -> (r: Result<(), PackError>)
    requires
        old(slots)@.len() == raw@.len(),
        slots_named(old(slots)@),
        raws_inside(raw@, bytes@),
        starts_map(raw@, starts@),
    ensures
        match r {
            Ok(_) => ref_sweep(bytes@, raws_view(raw@), slots_view(old(slots)@), raw@.len()) == Ok::<
                _,
                PackErrorView,
            >(slots_view(final(slots)@)) && final(slots)@.len() == raw@.len() && slots_named(
                final(slots)@,
            ),
            Err(e) => ref_sweep(bytes@, raws_view(raw@), slots_view(old(slots)@), raw@.len())
                == Err::<Objects, _>(e@),
        },
{
    let ghost first = slots_view(slots@);
    let ghost rv = raws_view(raw@);
    let mut i: usize = 0;
    while i < raw.len()
        invariant
            i <= raw@.len(),
            slots@.len() == raw@.len(),
            slots_named(slots@),
            raws_inside(raw@, bytes@),
            starts_map(raw@, starts@),
            rv == raws_view(raw@),
            ref_sweep(bytes@, rv, first, i as nat) == Ok::<_, PackErrorView>(slots_view(slots@)),
            first == slots_view(old(slots)@),
        decreases raw.len() - i,
    {
        let ghost before = slots@;
        assert(rv[i as int] == raw@[i as int]@);
        assert(slots_view(slots@)[i as int] is None <==> slots@[i as int] is None);
        if slots[i].is_none() {
            if let Some(b) = find_base(raw, starts, slots, i) {
                if let Some((kind, _, payload)) = &slots[b] {
                    match apply_delta_at(bytes, raw[i].body, *kind, payload) {
                        Err(e) => {
                            proof {
                                ref_sweep_error(bytes@, rv, first, (i + 1) as nat, raw@.len());
                            }
                            return Err(e);
                        },
                        Ok((k, p)) => {
                            let id = ObjectId::compute(k, &p);
                            let ghost o = (k, p@);
                            slots.set(i, Some((k, id, p)));
                            assert(slots_view(slots@) =~= slots_view(before).update(
                                i as int,
                                Some(o),
                            ));
                        },
                    }
                }
            }
        }
        i += 1;
    }
    Ok(())
}

/// Counts the gaps.
fn count_unresolved(slots: &Vec<Slot>) -> (r: usize)
    ensures
        r == unresolved(slots_view(slots@)),
{
    let mut n: usize = 0;
    let mut i: usize = 0;
    let ghost v = slots_view(slots@);
    while i < slots.len()
        invariant
            i <= slots@.len(),
            n <= i,
            v == slots_view(slots@),
            n == unresolved(v.take(i as int)),
        decreases slots.len() - i,
    {
        proof {
            assert(v.take(i + 1).drop_last() =~= v.take(i as int));
            assert(v.take(i + 1).last() == v[i as int]);
        }
        if slots[i].is_none() {
            n += 1;
        }
        i += 1;
    }
    assert(v.take(i as int) =~= v);
    n
}

/// The first base that is missing stays the first.
proof fn missing_base_more(raw: Seq<RawView>, objects: Objects, k: int)
    requires
        0 <= k <= objects.len(),
        missing_base(raw, objects.take(k)) is Some,
    ensures
        missing_base(raw, objects) == missing_base(raw, objects.take(k)),
    decreases objects.len(),
{
    if k == objects.len() {
        assert(objects.take(k) =~= objects);
    } else {
        let t = objects.drop_last();
        assert(t.take(k) =~= objects.take(k));
        missing_base_more(raw, t, k);
    }
}

/// Whether each open delta names its base, or points to an earlier entry.
pub open spec fn gaps_based(raw: Seq<RawView>, objects: Objects) -> bool {
    forall|i: int|
        0 <= i < objects.len() && (#[trigger] objects[i]) is None ==> raw[i].ref_base is Some
            || points_back(raw, i)
}

/// Whether an entry points to an earlier one.
pub open spec fn points_back(raw: Seq<RawView>, i: int) -> bool {
    raw[i].ofs_base matches Some(base) && (start_index(raw, base) matches Some(j) && 0 <= j
        < raw.len() && 0 <= raw[j].start < raw[i].start)
}

/// A reference delta that is left over has a base that is missing.
proof fn open_reference_misses(raw: Seq<RawView>, objects: Objects, i: int)
    requires
        0 <= i < objects.len(),
        objects[i] is None,
        raw[i].ref_base is Some,
    ensures
        missing_base(raw, objects) is Some,
    decreases objects.len(),
{
    if i < objects.len() - 1 {
        open_reference_misses(raw, objects.drop_last(), i);
    }
}

/// A sweep that resolves nothing leaves everything as it was, and finds no
/// base for what is open.
pub proof fn idle_sweep(bytes: Seq<u8>, raw: Seq<RawView>, objects: Objects, n: nat)
    requires
        n <= objects.len(),
        ref_sweep(bytes, raw, objects, n) is Ok,
        unresolved(ref_sweep(bytes, raw, objects, n)->Ok_0) >= unresolved(objects),
    ensures
        ref_sweep(bytes, raw, objects, n)->Ok_0 == objects,
        forall|i: int|
            0 <= i < n && (#[trigger] objects[i]) is None ==> base_index(raw, objects, i) is None,
    decreases n,
{
    if n > 0 {
        let m = (n - 1) as nat;
        ref_sweep_shape(bytes, raw, objects, m);
        let done = ref_sweep(bytes, raw, objects, m)->Ok_0;
        if done[m as int] is None && base_index(raw, done, m as int) is Some {
            let b = base_index(raw, done, m as int)->0;
            let o = delta_at(bytes, raw[m as int].body, (done[b]->0).0, (done[b]->0).1)->Ok_0;
            unresolved_update(done, m as int, o);
        }
        idle_sweep(bytes, raw, objects, m);
    }
}

/// From an open delta without a base, the way back ends at a reference delta
/// whose base is missing.
proof fn open_delta_misses(raw: Seq<RawView>, objects: Objects, i: int)
    requires
        raw.len() == objects.len(),
        gaps_based(raw, objects),
        forall|k: int|
            0 <= k < objects.len() && (#[trigger] objects[k]) is None ==> base_index(
                raw,
                objects,
                k,
            ) is None,
        0 <= i < objects.len(),
        objects[i] is None,
    ensures
        missing_base(raw, objects) is Some,
    decreases raw[i].start,
{
    assert(base_index(raw, objects, i) is None);
    if raw[i].ref_base is Some {
        open_reference_misses(raw, objects, i);
    } else {
        assert(points_back(raw, i));
        let j = start_index(raw, raw[i].ofs_base->0)->0;
        assert(objects[j] is None);
        open_delta_misses(raw, objects, j);
    }
}

/// A missing base is that of a reference delta.
proof fn missing_base_named(raw: Seq<RawView>, objects: Objects) -> (i: int)
    requires
        missing_base(raw, objects) is Some,
    ensures
        0 <= i < objects.len(),
        objects[i] is None,
        raw[i].ref_base == missing_base(raw, objects),
    decreases objects.len(),
{
    if missing_base(raw, objects.drop_last()) is Some {
        missing_base_named(raw, objects.drop_last())
    } else {
        objects.len() - 1
    }
}

/// Law: where a sweep resolves nothing more, a reference delta is left over
/// whose base is missing: no resolved object has the id that it names.
pub proof fn law_base_missing(bytes: Seq<u8>, raw: Seq<RawView>, objects: Objects)
    requires
        raw.len() == objects.len(),
        gaps_based(raw, objects),
        ref_sweep(bytes, raw, objects, objects.len()) is Ok,
        unresolved(ref_sweep(bytes, raw, objects, objects.len())->Ok_0) >= unresolved(objects),
        unresolved(objects) > 0,
    ensures
        ref_sweep(bytes, raw, objects, objects.len())->Ok_0 == objects,
        missing_base(raw, objects) is Some,
        forall|j: int|
            0 <= j < objects.len() ==> !#[trigger] has_id(
                objects,
                j,
                missing_base(raw, objects)->0,
            ),
{
    idle_sweep(bytes, raw, objects, objects.len());
    if forall|k: int| 0 <= k < objects.len() ==> (#[trigger] objects[k]) is Some {
        none_unresolved(objects);
    }
    let i = choose|i: int| 0 <= i < objects.len() && (#[trigger] objects[i]) is None;
    open_delta_misses(raw, objects, i);
    let k = missing_base_named(raw, objects);
    assert(base_index(raw, objects, k) is None);
    object_index_spec(objects, missing_base(raw, objects)->0);
}

/// Says which base is missing where deltas are left over.
fn describe_unresolved(raw: &Vec<RawEntry>, slots: &Vec<Slot>) -> (r: PackError)
    requires
        slots@.len() == raw@.len(),
        missing_base(raws_view(raw@), slots_view(slots@)) is Some,
    ensures
        r@ == PackErrorView::ThinPackUnsupported(
            missing_base(raws_view(raw@), slots_view(slots@))->0,
        ),
{
    let ghost rv = raws_view(raw@);
    let ghost v = slots_view(slots@);
    let mut k: usize = 0;
    while k < slots.len()
        invariant
            k <= slots@.len(),
            slots@.len() == raw@.len(),
            v == slots_view(slots@),
            rv == raws_view(raw@),
            missing_base(rv, v.take(k as int)) is None,
        decreases slots.len() - k,
    {
        proof {
            assert(v.take(k + 1).drop_last() =~= v.take(k as int));
            assert(v.take(k + 1).last() == v[k as int]);
            assert(rv[k as int] == raw@[k as int]@);
        }
        if slots[k].is_none() {
            if let Some(base) = raw[k].ref_base {
                proof {
                    missing_base_more(rv, v, k + 1);
                }
                return PackError::ThinPackUnsupported(base);
            }
        }
        k += 1;
    }
    assert(v.take(k as int) =~= v);
    assert(false);
    PackError::BadDelta
}

/// Where nothing is unresolved, everything is resolved.
pub proof fn resolved_all(objects: Objects)
    requires
        unresolved(objects) == 0,
    ensures
        forall|i: int| 0 <= i < objects.len() ==> (#[trigger] objects[i]) is Some,
    decreases objects.len(),
{
    if objects.len() > 0 {
        let t = objects.drop_last();
        resolved_all(t);
        assert forall|i: int| 0 <= i < objects.len() implies (#[trigger] objects[i]) is Some by {
            if i < t.len() {
                assert(t[i] is Some);
            }
        }
    }
}

/// Resolves the open deltas.
fn resolve_refs(
    bytes: &[u8],
    raw: &Vec<RawEntry>,
    starts: &HashMap<u64, usize>,
    slots: Vec<Slot>,
) -> (r: Result<Vec<Slot>, PackError>)
    requires
        slots@.len() == raw@.len(),
        slots_named(slots@),
        raws_inside(raw@, bytes@),
        starts_map(raw@, starts@),
        gaps_based(raws_view(raw@), slots_view(slots@)),
    ensures
        match r {
            Ok(done) => all_objects(bytes@, raws_view(raw@), slots_view(slots@)) == Ok::<
                _,
                PackErrorView,
            >(slots_view(done@)) && done@.len() == raw@.len() && slots_named(done@) && forall|
                i: int,
            |
                0 <= i < done@.len() ==> (#[trigger] done@[i]) is Some,
            Err(e) => all_objects(bytes@, raws_view(raw@), slots_view(slots@)) == Err::<Objects, _>(
                e@,
            ),
        },
{
    let ghost rv = raws_view(raw@);
    let ghost goal = all_objects(bytes@, rv, slots_view(slots@));
    let mut work = slots;
    let mut left: usize = count_unresolved(&work);
    loop
        invariant
            work@.len() == raw@.len(),
            slots_named(work@),
            raws_inside(raw@, bytes@),
            starts_map(raw@, starts@),
            rv == raws_view(raw@),
            goal == all_objects(bytes@, rv, slots_view(slots@)),
            goal == all_objects(bytes@, rv, slots_view(work@)),
            left == unresolved(slots_view(work@)),
            gaps_based(rv, slots_view(work@)),
        decreases left,
    {
        let ghost before = slots_view(work@);
        match sweep_refs(bytes, raw, starts, &mut work) {
            Err(e) => return Err(e),
            Ok(_) => {},
        }
        let ghost after = slots_view(work@);
        proof {
            ref_sweep_shape(bytes@, rv, before, before.len());
            assert forall|i: int| 0 <= i < after.len() && (#[trigger] after[i]) is None implies
                rv[i].ref_base is Some || points_back(rv, i) by {
                if before[i] is Some {
                    assert(after[i] == before[i]);
                }
            }
        }
        let now: usize = count_unresolved(&work);
        if now == 0 {
            proof {
                resolved_all(after);
                assert forall|i: int| 0 <= i < work@.len() implies (#[trigger] work@[i]) is Some by {
                    assert(after[i] is Some);
                }
            }
            return Ok(work);
        }
        if now >= left {
            proof {
                law_base_missing(bytes@, rv, before);
            }
            return Err(describe_unresolved(raw, &work));
        }
        left = now;
    }
}

/// Where everything is resolved, nothing is unresolved.
pub proof fn none_unresolved(objects: Objects)
    requires
        forall|j: int| 0 <= j < objects.len() ==> (#[trigger] objects[j]) is Some,
    ensures
        unresolved(objects) == 0,
    decreases objects.len(),
{
    if objects.len() > 0 {
        let t = objects.drop_last();
        assert forall|j: int| 0 <= j < t.len() implies (#[trigger] t[j]) is Some by {
            assert(objects[j] is Some);
        }
        none_unresolved(t);
        assert(objects[objects.len() - 1] is Some);
    }
}

// ---------------------------------------------------------------------
// The index
// ---------------------------------------------------------------------

/// The index entry of the `i`-th object.
pub open spec fn index_entry(
    bytes: Seq<u8>,
    raw: Seq<RawView>,
    objects: Objects,
    i: int,
) -> IdxEntryView {
    IdxEntryView {
        id: object_id((objects[i]->0).0, (objects[i]->0).1),
        offset: raw[i].start as nat,
        crc: crc32_checksum(bytes.subrange(raw[i].start, raw[i].end)) as nat,
    }
}

/// Whether an entry has the id.
pub open spec fn indexed(es: Seq<IdxEntryView>, id: Seq<u8>) -> bool {
    exists|i: int| 0 <= i < es.len() && (#[trigger] es[i]).id == id
}

/// `e` put in front of the first entry with a greater id.
pub open spec fn insert_by_id(es: Seq<IdxEntryView>, e: IdxEntryView) -> Seq<IdxEntryView>
    decreases es.len(),
{
    if es.len() == 0 || !lex_lt(e.id, es.last().id) {
        es.push(e)
    } else {
        insert_by_id(es.drop_last(), e).push(es.last())
    }
}

/// The index entries of the first `n` objects in the order of their ids, or
/// the first id that comes up again.
pub open spec fn index_entries(
    bytes: Seq<u8>,
    raw: Seq<RawView>,
    objects: Objects,
    n: nat,
) -> Result<Seq<IdxEntryView>, PackErrorView>
    decreases n,
{
    if n == 0 {
        Ok(Seq::empty())
    } else {
        match index_entries(bytes, raw, objects, (n - 1) as nat) {
            Err(e) => Err(e),
            Ok(es) => {
                let e = index_entry(bytes, raw, objects, n - 1);
                if indexed(es, e.id) {
                    Err(PackErrorView::DuplicateIdInPack(e.id))
                } else {
                    Ok(insert_by_id(es, e))
                }
            },
        }
    }
}

/// How many entries the pack's header states.
pub open spec fn pack_count(bytes: Seq<u8>) -> nat {
    be_value(bytes.subrange(8, 12))
}

/// The objects of a pack, in the order of its entries, and where they
/// stand.
pub open spec fn pack_objects(bytes: Seq<u8>) -> Result<(Seq<RawView>, Objects), PackErrorView> {
    match walk(bytes, pack_count(bytes)) {
        Err(e) => Err(e),
        Ok(raw) => match plain_objects(bytes, raw, raw.len()) {
            Err(e) => Err(e),
            Ok(plain) => match all_objects(bytes, raw, plain) {
                Err(e) => Err(e),
                Ok(objects) => Ok((raw, objects)),
            },
        },
    }
}

/// The index of a pack: its entries in id order, or why it has none.
pub open spec fn pack_index(bytes: Seq<u8>) -> Result<Seq<IdxEntryView>, PackErrorView> {
    match pack_hash(bytes) {
        Err(e) => Err(e),
        Ok(_) => match pack_objects(bytes) {
            Err(e) => Err(e),
            Ok((raw, objects)) => index_entries(bytes, raw, objects, objects.len()),
        },
    }
}

/// Ids in strictly ascending order.
pub open spec fn ids_ascending(es: Seq<IdxEntryView>) -> bool {
    forall|i: int, j: int|
        0 <= i < j < es.len() ==> lex_lt((#[trigger] es[i]).id, (#[trigger] es[j]).id)
}

/// Where [`insert_by_id`] puts the entry.
proof fn insert_by_id_at(es: Seq<IdxEntryView>, e: IdxEntryView, k: int)
    requires
        0 <= k <= es.len(),
        forall|j: int| k <= j < es.len() ==> lex_lt(e.id, (#[trigger] es[j]).id),
        k > 0 ==> !lex_lt(e.id, es[k - 1].id),
    ensures
        insert_by_id(es, e) == es.insert(k, e),
    decreases es.len(),
{
    if k == es.len() {
        assert(es.insert(k, e) =~= es.push(e));
    } else {
        assert(lex_lt(e.id, es[es.len() - 1].id));
        let t = es.drop_last();
        assert forall|j: int| k <= j < t.len() implies lex_lt(e.id, (#[trigger] t[j]).id) by {
            assert(t[j] == es[j]);
        }
        insert_by_id_at(t, e, k);
        assert(es.insert(k, e) =~= t.insert(k, e).push(es.last()));
    }
}

/// Inserts an entry at its place in ascending order; `false` if its id is
/// there already.
fn insert_entry(es: &mut Vec<IdxEntry>, e: IdxEntry) -> (r: bool)
    requires
        ids_ascending(entries_view(old(es)@)),
    ensures
        r <==> !indexed(entries_view(old(es)@), e.id@),
        r ==> entries_view(final(es)@) == insert_by_id(entries_view(old(es)@), e@)
            && ids_ascending(entries_view(final(es)@)),
{
    let ghost v = entries_view(es@);
    let mut lo: usize = 0;
    let mut hi: usize = es.len();
    while lo < hi
        invariant
            lo <= hi <= es@.len(),
            v == entries_view(es@),
            ids_ascending(v),
            forall|i: int| 0 <= i < lo ==> lex_lt((#[trigger] v[i]).id, e.id@),
            forall|i: int| hi <= i < v.len() ==> !lex_lt((#[trigger] v[i]).id, e.id@),
        decreases hi - lo,
    {
        let mid: usize = lo + (hi - lo) / 2;
        assert(v[mid as int] == es@[mid as int]@);
        if bytes_lt(es[mid].id.as_bytes(), e.id.as_bytes()) {
            proof {
                assert forall|i: int| 0 <= i < mid + 1 implies lex_lt(
                    (#[trigger] v[i]).id,
                    e.id@,
                ) by {
                    if i < mid {
                        lex_lt_transitive(v[i].id, v[mid as int].id, e.id@);
                    }
                }
            }
            lo = mid + 1;
        } else {
            proof {
                assert forall|i: int| mid <= i < v.len() implies !lex_lt(
                    (#[trigger] v[i]).id,
                    e.id@,
                ) by {
                    if mid < i && lex_lt(v[i].id, e.id@) {
                        lex_lt_transitive(v[mid as int].id, v[i].id, e.id@);
                    }
                }
            }
            hi = mid;
        }
    }
    proof {
        lex_lt_irreflexive(e.id@);
        assert forall|i: int|
            #![trigger v[i]]
            lo <= i < v.len() && !(i == lo && v[i].id == e.id@) implies lex_lt(e.id@, v[i].id) by {
            lex_lt_total(e.id@, v[i].id);
            if v[i].id == e.id@ {
                assert(lex_lt(v[lo as int].id, v[i].id));
            }
        }
    }
    if lo < es.len() && es[lo].id == e.id {
        assert(v[lo as int].id == e.id@);
        return false;
    }
    proof {
        if indexed(v, e.id@) {
            let i = choose|i: int| 0 <= i < v.len() && (#[trigger] v[i]).id == e.id@;
            if i >= lo {
                assert(lex_lt(e.id@, v[i].id));
            }
        }
        if lo > 0 && lex_lt(e.id@, v[lo - 1].id) {
            lex_lt_transitive(e.id@, v[lo - 1].id, e.id@);
        }
        insert_by_id_at(v, e@, lo as int);
    }
    es.insert(lo, e);
    proof {
        let w = entries_view(es@);
        assert(w =~= v.insert(lo as int, e@));
        assert forall|i: int, j: int| 0 <= i < j < w.len() implies lex_lt(
            (#[trigger] w[i]).id,
            (#[trigger] w[j]).id,
        ) by {
            let a = if i < lo { i } else { i - 1 };
            let b = if j < lo { j } else { j - 1 };
            if i == lo {
                assert(w[j] == v[b]);
            } else if j == lo {
                assert(w[i] == v[a]);
            } else {
                assert(w[i] == v[a] && w[j] == v[b]);
            }
        }
    }
    true
}

/// An id that comes up again early in the list is the one that is reported.
proof fn index_entries_error(
    bytes: Seq<u8>,
    raw: Seq<RawView>,
    objects: Objects,
    k: nat,
    n: nat,
)
    requires
        k <= n,
        index_entries(bytes, raw, objects, k) is Err,
    ensures
        index_entries(bytes, raw, objects, n) == index_entries(bytes, raw, objects, k),
    decreases n,
{
    if k < n {
        index_entries_error(bytes, raw, objects, k, (n - 1) as nat);
    }
}

/// Puts the resolved objects into id order.
fn sort_entries(bytes: &[u8], raw: &Vec<RawEntry>, slots: &Vec<Slot>) -> (r: Result<
    Vec<IdxEntry>,
    PackError,
>)
    requires
        slots@.len() == raw@.len(),
        slots_named(slots@),
        raws_inside(raw@, bytes@),
        forall|i: int| 0 <= i < slots@.len() ==> (#[trigger] slots@[i]) is Some,
    ensures
        match r {
            Ok(es) => index_entries(
                bytes@,
                raws_view(raw@),
                slots_view(slots@),
                slots@.len(),
            ) == Ok::<_, PackErrorView>(entries_view(es@)) && es@.len() == slots@.len()
                && ids_ascending(entries_view(es@)),
            Err(e) => index_entries(
                bytes@,
                raws_view(raw@),
                slots_view(slots@),
                slots@.len(),
            ) == Err::<Seq<IdxEntryView>, _>(e@),
        },
{
    let ghost rv = raws_view(raw@);
    let ghost ov = slots_view(slots@);
    let mut es: Vec<IdxEntry> = Vec::new();
    let mut i: usize = 0;
    assert(entries_view(es@) =~= Seq::<IdxEntryView>::empty());
    while i < slots.len()
        invariant
            i <= slots@.len(),
            es@.len() == i,
            slots@.len() == raw@.len(),
            slots_named(slots@),
            raws_inside(raw@, bytes@),
            rv == raws_view(raw@),
            ov == slots_view(slots@),
            forall|i: int| 0 <= i < slots@.len() ==> (#[trigger] slots@[i]) is Some,
            index_entries(bytes@, rv, ov, i as nat) == Ok::<_, PackErrorView>(entries_view(es@)),
            ids_ascending(entries_view(es@)),
        decreases slots.len() - i,
    {
        assert(slots@[i as int] is Some);
        if let Some((_, id, _)) = &slots[i] {
            let id: ObjectId = *id;
            let crc: u32 = crc32(&bytes[raw[i].start..raw[i].end]);
            let e = IdxEntry { id, offset: raw[i].start as u64, crc };
            proof {
                assert(rv[i as int] == raw@[i as int]@);
                assert(e@ == index_entry(bytes@, rv, ov, i as int));
            }
            let ghost before = entries_view(es@);
            if !insert_entry(&mut es, e) {
                proof {
                    index_entries_error(bytes@, rv, ov, (i + 1) as nat, slots@.len());
                }
                return Err(PackError::DuplicateIdInPack(id));
            }
            proof {
                insert_by_id_len(before, e@);
            }
        }
        i += 1;
    }
    Ok(es)
}

/// Insertion adds one entry.
proof fn insert_by_id_len(es: Seq<IdxEntryView>, e: IdxEntryView)
    ensures
        insert_by_id(es, e).len() == es.len() + 1,
    decreases es.len(),
{
    if es.len() == 0 || !lex_lt(e.id, es.last().id) {
    } else {
        insert_by_id_len(es.drop_last(), e);
    }
}

/// What the first pass resolves.
pub proof fn plain_objects_each(bytes: Seq<u8>, raw: Seq<RawView>, n: nat)
    requires
        plain_objects(bytes, raw, n) is Ok,
    ensures
        plain_objects(bytes, raw, n)->Ok_0.len() == n,
        forall|i: int|
            0 <= i < n ==> plain_object(bytes, raw, i, 0) == Ok::<_, PackErrorView>(
                #[trigger] plain_objects(bytes, raw, n)->Ok_0[i],
            ),
    decreases n,
{
    if n > 0 {
        plain_objects_each(bytes, raw, (n - 1) as nat);
        let done = plain_objects(bytes, raw, (n - 1) as nat)->Ok_0;
        let all = plain_objects(bytes, raw, n)->Ok_0;
        assert forall|i: int| 0 <= i < n implies plain_object(bytes, raw, i, 0) == Ok::<
            _,
            PackErrorView,
        >(#[trigger] all[i]) by {
            if i < n - 1 {
                assert(all[i] == done[i]);
            }
        }
    }
}

/// What [`start_index`] is.
pub proof fn start_index_spec(raw: Seq<RawView>, start: int)
    ensures
        start_index(raw, start) matches Some(i) ==> 0 <= i < raw.len() && raw[i].start == start,
    decreases raw.len(),
{
    if raw.len() > 0 {
        start_index_spec(raw.drop_last(), start);
    }
}

/// Walked entries stand behind each other, and an offset delta points back.
proof fn walk_points_back(bytes: Seq<u8>, n: nat)
    requires
        walk(bytes, n) is Ok,
    ensures
        walk(bytes, n)->Ok_0.len() == n,
        forall|i: int|
            0 <= i < n ==> {
                let e = #[trigger] walk(bytes, n)->Ok_0[i];
                &&& e.ofs_base matches Some(base) ==> 0 < base < e.start
            },
    decreases n,
{
    if n > 0 {
        walk_points_back(bytes, (n - 1) as nat);
        let done = walk(bytes, (n - 1) as nat)->Ok_0;
        let all = walk(bytes, n)->Ok_0;
        assert forall|i: int| 0 <= i < n implies {
            let e = #[trigger] all[i];
            &&& e.ofs_base matches Some(base) ==> 0 < base < e.start
        } by {
            if i < n - 1 {
                assert(all[i] == done[i]);
            }
        }
    }
}

/// The first pass leaves only such deltas open.
proof fn plain_gaps(bytes: Seq<u8>, n: nat)
    requires
        walk(bytes, n) is Ok,
        plain_objects(bytes, walk(bytes, n)->Ok_0, n) is Ok,
    ensures
        gaps_based(walk(bytes, n)->Ok_0, plain_objects(bytes, walk(bytes, n)->Ok_0, n)->Ok_0),
{
    let raw = walk(bytes, n)->Ok_0;
    let objects = plain_objects(bytes, raw, n)->Ok_0;
    walk_points_back(bytes, n);
    plain_objects_each(bytes, raw, n);
    assert forall|i: int| 0 <= i < objects.len() && (#[trigger] objects[i]) is None implies
        raw[i].ref_base is Some || points_back(raw, i) by {
        assert(plain_object(bytes, raw, i, 0) == Ok::<_, PackErrorView>(objects[i]));
        if raw[i].ref_base is None {
            start_index_spec(raw, raw[i].ofs_base->0);
            assert(raw[i].ofs_base is Some);
        }
    }
}

/// The bytes of the index file for a pack, and the pack's hash.
pub fn index_pack(bytes: &[u8]) -> (r: Result<(Vec<u8>, ObjectId), PackError>)
    ensures
        match r {
            Ok((idx, sha)) => pack_hash(bytes@) == Ok::<_, PackErrorView>(sha@) && (pack_index(
                bytes@,
            ) matches Ok(es) && idx@ == idx_bytes(es, sha@) && ids_ascending(es) && idx_contents(
                idx@,
            ) == Ok::<_, PackErrorView>(entries_idx(es, sha@))),
            Err(e) => pack_index(bytes@) == Err::<Seq<IdxEntryView>, _>(e@),
        },
{
    let sha = match validate_pack_bytes(bytes) {
        Ok(sha) => sha,
        Err(e) => return Err(e),
    };
    let n: u32 = read_be32(bytes, 8);
    let raw = match walk_entries(bytes, n) {
        Ok(raw) => raw,
        Err(e) => return Err(e),
    };
    let starts = map_starts(&raw);
    let plain = match resolve_plain(bytes, &raw, &starts) {
        Ok(slots) => slots,
        Err(e) => return Err(e),
    };
    proof {
        plain_gaps(bytes@, n as nat);
    }
    let slots = match resolve_refs(bytes, &raw, &starts, plain) {
        Ok(slots) => slots,
        Err(e) => return Err(e),
    };
    let es = match sort_entries(bytes, &raw, &slots) {
        Ok(es) => es,
        Err(e) => return Err(e),
    };
    let idx = write_idx(&es, &sha);
    Ok((idx, sha))
}

} // verus!
