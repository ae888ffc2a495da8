//! Reading one entry of a pack.

use vstd::prelude::*;

use super::delta::{apply_delta, delta_result};
use super::varint::{back_offset, read_offset_varint, read_size_varint, size_header};
use super::{PackError, PackErrorView, MAX_DELTA_CHAIN};
use crate::codec::{zlib_inflate, zlib_inflated};
use crate::object::commit::ids_view;
use crate::object::{ObjectId, ObjectKind};

verus! {

/// Type code of a delta against an earlier entry of the pack.
pub const OFS_DELTA: u8 = 6;

/// Type code of a delta against an object named by its id.
pub const REF_DELTA: u8 = 7;

/// The kind that a type code stands for, if it stands for a full object.
pub open spec fn code_kind(code: u8) -> Option<ObjectKind> {
    if code == 1 {
        Some(ObjectKind::Commit)
    } else if code == 2 {
        Some(ObjectKind::Tree)
    } else if code == 3 {
        Some(ObjectKind::Blob)
    } else if code == 4 {
        Some(ObjectKind::Tag)
    } else {
        None
    }
}

/// The type code of a kind.
pub open spec fn kind_code(kind: ObjectKind) -> u8 {
    match kind {
        ObjectKind::Commit => 1,
        ObjectKind::Tree => 2,
        ObjectKind::Blob => 3,
        ObjectKind::Tag => 4,
    }
}

/// The type code of a kind.
pub fn kind_to_type_code(kind: ObjectKind) -> (r: u8)
    ensures
        r == kind_code(kind),
        code_kind(r) == Some(kind),
{
    match kind {
        ObjectKind::Commit => 1,
        ObjectKind::Tree => 2,
        ObjectKind::Blob => 3,
        ObjectKind::Tag => 4,
    }
}

/// The kind of a full object's type code.
pub fn full_type_code_to_kind(code: u8) -> (r: Option<ObjectKind>)
    ensures
        r == code_kind(code),
{
    if code == 1 {
        Some(ObjectKind::Commit)
    } else if code == 2 {
        Some(ObjectKind::Tree)
    } else if code == 3 {
        Some(ObjectKind::Blob)
    } else if code == 4 {
        Some(ObjectKind::Tag)
    } else {
        None
    }
}

/// The header of the entry at `at`: type code, size, header length.
pub open spec fn header_at(bytes: Seq<u8>, at: int) -> Option<(u8, nat, nat)> {
    if 0 <= at < bytes.len() {
        size_header(bytes.skip(at))
    } else {
        None
    }
}

/// The first position of an id.
pub open spec fn id_index(ids: Seq<Seq<u8>>, id: Seq<u8>) -> Option<int>
    decreases ids.len(),
{
    if ids.len() == 0 {
        None
    } else if id_index(ids.drop_last(), id) is Some {
        id_index(ids.drop_last(), id)
    } else if ids.last() == id {
        Some(ids.len() - 1)
    } else {
        None
    }
}

/// What [`id_index`] is.
pub proof fn id_index_spec(ids: Seq<Seq<u8>>, id: Seq<u8>)
    ensures
        match id_index(ids, id) {
            Some(i) => 0 <= i < ids.len() && ids[i] == id && forall|j: int|
                0 <= j < i ==> #[trigger] ids[j] != id,
            None => !ids.contains(id),
        },
    decreases ids.len(),
{
    if ids.len() > 0 {
        let t = ids.drop_last();
        id_index_spec(t, id);
        if id_index(t, id) is None {
            assert forall|j: int| 0 <= j < t.len() implies #[trigger] ids[j] != id by {
                assert(t[j] == ids[j]);
                assert(t.contains(t[j]));
            }
            if ids.contains(id) {
                let j = choose|j: int| 0 <= j < ids.len() && ids[j] == id;
            }
        } else {
            let i = id_index(t, id)->0;
            assert forall|j: int| 0 <= j < i implies #[trigger] ids[j] != id by {
                assert(t[j] != id);
            }
        }
    }
}

/// Finds an id in a list.
pub fn find_id(ids: &Vec<ObjectId>, id: &ObjectId) -> (r: Option<usize>)
    ensures
        match r {
            Some(i) => id_index(ids_view(ids@), id@) == Some(i as int) && i < ids@.len(),
            None => id_index(ids_view(ids@), id@) is None,
        },
{
    proof {
        id_index_spec(ids_view(ids@), id@);
    }
    let mut i: usize = 0;
    while i < ids.len()
        invariant
            i <= ids@.len(),
            forall|j: int| 0 <= j < i ==> (#[trigger] ids_view(ids@)[j]) != id@,
            match id_index(ids_view(ids@), id@) {
                Some(i) => 0 <= i < ids@.len() && ids_view(ids@)[i] == id@ && forall|j: int|
                    0 <= j < i ==> #[trigger] ids_view(ids@)[j] != id@,
                None => !ids_view(ids@).contains(id@),
            },
        decreases ids.len() - i,
    {
        if ids[i] == *id {
            assert(ids_view(ids@)[i as int] == id@);
            return Some(i);
        }
        i += 1;
    }
    None
}

/// The object that the delta whose zlib stream begins at `at` makes of a
/// base.
pub open spec fn delta_at(bytes: Seq<u8>, at: int, kind: ObjectKind, base: Seq<u8>) -> Result<
    (ObjectKind, Seq<u8>),
    PackErrorView,
> {
    match zlib_inflated(bytes.skip(at)) {
        None => Err(PackErrorView::BadInflate),
        Some((delta, _)) => match delta_result(base, delta) {
            Ok(target) => Ok((kind, target)),
            Err(e) => Err(e),
        },
    }
}

/// The object in the entry at `at` of a pack with the given index. A chain
/// of deltas is followed while `depth` is within the limit.
pub open spec fn entry_object(
    bytes: Seq<u8>,
    ids: Seq<Seq<u8>>,
    offsets: Seq<nat>,
    at: int,
    depth: nat,
) -> Result<(ObjectKind, Seq<u8>), PackErrorView>
    decreases MAX_DELTA_CHAIN + 1 - depth,
{
    if depth > MAX_DELTA_CHAIN {
        Err(PackErrorView::DeltaChainTooDeep(MAX_DELTA_CHAIN as nat))
    } else {
        match header_at(bytes, at) {
            None => Err(PackErrorView::TruncatedEntry),
            Some((code, size, n)) => {
                let body = at + n;
                if code_kind(code) is Some {
                    match zlib_inflated(bytes.skip(body)) {
                        None => Err(PackErrorView::BadInflate),
                        Some((payload, _)) => if payload.len() != size {
                            Err(PackErrorView::BadDelta)
                        } else {
                            Ok((code_kind(code)->0, payload))
                        },
                    }
                } else if code == OFS_DELTA {
                    match back_offset(bytes.skip(body)) {
                        None => Err(PackErrorView::TruncatedEntry),
                        Some((back, m)) => if back >= at || back == 0 {
                            Err(PackErrorView::BadDelta)
                        } else {
                            match entry_object(bytes, ids, offsets, at - back, depth + 1) {
                                Err(e) => Err(e),
                                Ok((kind, base)) => delta_at(bytes, body + m, kind, base),
                            }
                        },
                    }
                } else if code == REF_DELTA {
                    if body + 20 > bytes.len() {
                        Err(PackErrorView::TruncatedEntry)
                    } else {
                        let id = bytes.subrange(body, body + 20);
                        match id_index(ids, id) {
                            None => Err(PackErrorView::MissingBase(id)),
                            Some(i) => match entry_object(
                                bytes,
                                ids,
                                offsets,
                                offsets[i] as int,
                                depth + 1,
                            ) {
                                Err(e) => Err(e),
                                Ok((kind, base)) => delta_at(bytes, body + 20, kind, base),
                            },
                        }
                    }
                } else {
                    Err(PackErrorView::UnknownType(code))
                }
            },
        }
    }
}

/// Applies the delta whose zlib stream begins at `at`.
pub fn apply_delta_at(bytes: &[u8], at: usize, kind: ObjectKind, base: &[u8]) -> (r: Result<
    (ObjectKind, Vec<u8>),
    PackError,
>)
    requires
        at <= bytes@.len(),
    ensures
        match r {
            Ok((k, p)) => delta_at(bytes@, at as int, kind, base@) == Ok::<_, PackErrorView>(
                (k, p@),
            ),
            Err(e) => delta_at(bytes@, at as int, kind, base@) == Err::<(ObjectKind, Seq<u8>), _>(
                e@,
            ),
        },
{
    match zlib_decompress(bytes, at) {
        None => Err(PackError::BadInflate),
        Some((delta, _)) => match apply_delta(base, &delta) {
            Ok(target) => Ok((kind, target)),
            Err(e) => Err(e),
        },
    }
}

/// Decompresses the zlib stream that begins at `at`: its contents and how
/// many bytes it takes up.
pub fn zlib_decompress(bytes: &[u8], at: usize) -> (r: Option<(Vec<u8>, usize)>)
    requires
        at <= bytes@.len(),
    ensures
        match r {
            Some((out, used)) => zlib_inflated(bytes@.skip(at as int)) == Some((out@, used as nat))
                && at + used <= bytes@.len(),
            None => zlib_inflated(bytes@.skip(at as int)) is None,
        },
{
    assert(bytes@.subrange(at as int, bytes@.len() as int) =~= bytes@.skip(at as int));
    match zlib_inflate(&bytes[at..bytes.len()]) {
        Some((out, used)) => Some((out, used as usize)),
        None => None,
    }
}

/// Reads the entry at `at` and, where it is a delta, builds the object.
pub fn read_entry_at(
    bytes: &Vec<u8>,
    ids: &Vec<ObjectId>,
    offsets: &Vec<u64>,
    at: u64,
    depth: usize,
) -> (r: Result<(ObjectKind, Vec<u8>), PackError>)
    requires
        ids@.len() == offsets@.len(),
        depth <= MAX_DELTA_CHAIN + 1,
    ensures
        match r {
            Ok((k, p)) => entry_object(
                bytes@,
                ids_view(ids@),
                super::idx::offsets_view(offsets@),
                at as int,
                depth as nat,
            ) == Ok::<_, PackErrorView>((k, p@)),
            Err(e) => entry_object(
                bytes@,
                ids_view(ids@),
                super::idx::offsets_view(offsets@),
                at as int,
                depth as nat,
            ) == Err::<(ObjectKind, Seq<u8>), _>(e@),
        },
    decreases MAX_DELTA_CHAIN + 1 - depth,
{
    if depth > MAX_DELTA_CHAIN {
        return Err(PackError::DeltaChainTooDeep(MAX_DELTA_CHAIN));
    }
    if at >= bytes.len() as u64 {
        return Err(PackError::TruncatedEntry);
    }
    let (code, size, n) = match read_size_varint(bytes, at as usize) {
        Some(x) => x,
        None => return Err(PackError::TruncatedEntry),
    };
    let body: usize = at as usize + n;
    if let Some(kind) = full_type_code_to_kind(code) {
        match zlib_decompress(bytes, body) {
            None => Err(PackError::BadInflate),
            Some((payload, _)) => {
                if payload.len() as u64 != size {
                    Err(PackError::BadDelta)
                } else {
                    Ok((kind, payload))
                }
            },
        }
    } else if code == OFS_DELTA {
        let (back, m) = match read_offset_varint(bytes, body) {
            Some(x) => x,
            None => return Err(PackError::TruncatedEntry),
        };
        if back >= at || back == 0 {
            return Err(PackError::BadDelta);
        }
        match read_entry_at(bytes, ids, offsets, at - back, depth + 1) {
            Err(e) => Err(e),
            Ok((kind, base)) => apply_delta_at(bytes, body + m, kind, &base),
        }
    } else if code == REF_DELTA {
        if bytes.len() - body < 20 {
            return Err(PackError::TruncatedEntry);
        }
        let id = ObjectId::from_slice(bytes, body);
        let i: usize = match find_id(ids, &id) {
            Some(i) => i,
            None => return Err(PackError::MissingBase(id)),
        };
        match read_entry_at(bytes, ids, offsets, offsets[i], depth + 1) {
            Err(e) => Err(e),
            Ok((kind, base)) => apply_delta_at(bytes, body + 20, kind, &base),
        }
    } else {
        Err(PackError::UnknownType(code))
    }
}

} // verus!
