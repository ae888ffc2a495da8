//! Pack files and their indexes.

use vstd::prelude::*;

use crate::bytes::{
    ascii, be_value, last_at, push_text, read_be32, rfind, same_bytes, text, to_vec, DOT, SLASH,
};
use crate::codec::{sha1, sha1_digest};
use crate::files::{Files, IoError};
use crate::object::commit::ids_view;
use crate::object::{ObjectId, ObjectKind};

pub mod delta;
pub mod encoding;
pub mod entry;
pub mod idx;
pub mod indexed;
pub mod indexing;
pub mod laws;
pub mod layout;
pub mod opening;
pub mod varint;
pub mod writer;

pub use writer::PackWriter;

use entry::{entry_object, find_id, id_index, read_entry_at};
use idx::{entries_idx, idx_bytes, idx_contents, offsets_view, parse_idx};
use indexing::{index_pack, pack_index};

verus! {

/// The deepest delta chain that is followed.
pub const MAX_DELTA_CHAIN: usize = 50;

/// The largest object that a delta may build (1 GiB).
pub const DELTA_TARGET_CAP: u64 = 1073741824;

/// The hash in the trailer of a pack, or what is wrong with the pack as a
/// whole.
pub open spec fn pack_hash(bytes: Seq<u8>) -> Result<Seq<u8>, PackErrorView> {
    let body = bytes.len() - 20;
    if bytes.len() < 32 || bytes.take(4) != ascii("PACK"@) || be_value(bytes.subrange(4, 8)) != 2 {
        Err(PackErrorView::BadHeader)
    } else if bytes.skip(body) != sha1_digest(bytes.take(body)) {
        Err(PackErrorView::BadPackSha)
    } else {
        Ok(bytes.skip(body))
    }
}

/// Checks a pack's header and trailer, and gives the hash in its trailer.
pub fn validate_pack_bytes(bytes: &[u8]) -> (r: Result<ObjectId, PackError>)
    ensures
        match r {
            Ok(id) => pack_hash(bytes@) == Ok::<_, PackErrorView>(id@),
            Err(e) => pack_hash(bytes@) == Err::<Seq<u8>, _>(e@),
        },
        r is Ok ==> bytes@.len() >= 32,
{
    if bytes.len() < 32 {
        return Err(PackError::BadHeader);
    }
    proof {
        reveal_strlit("PACK");
        assert(bytes@.subrange(0, 4) =~= bytes@.take(4));
    }
    if !same_bytes(&bytes[0..4], text("PACK")) {
        return Err(PackError::BadHeader);
    }
    if read_be32(bytes, 4) != 2 {
        return Err(PackError::BadHeader);
    }
    let body: usize = bytes.len() - 20;
    assert(bytes@.subrange(0, body as int) =~= bytes@.take(body as int));
    let digest = sha1(&bytes[0..body]);
    assert(bytes@.subrange(body as int, bytes@.len() as int) =~= bytes@.skip(body as int));
    if !same_bytes(&bytes[body..bytes.len()], &digest) {
        return Err(PackError::BadPackSha);
    }
    Ok(ObjectId::from_bytes(digest))
}

/// The path of the index that belongs to a pack: the pack's path with the
/// extension of its file name replaced by `idx`.
pub open spec fn idx_path(path: Seq<u8>) -> Seq<u8> {
    let dot = last_at(path, DOT);
    if dot > last_at(path, SLASH) + 1 {
        path.take(dot) + ascii(".idx"@)
    } else {
        path + ascii(".idx"@)
    }
}

/// The path of a pack's index.
pub fn index_path(path: &[u8]) -> (r: Vec<u8>)
    ensures
        r@ == idx_path(path@),
{
    proof {
        reveal_strlit(".idx");
        assert(path@.take(path@.len() as int) =~= path@);
    }
    let n: usize = path.len();
    let slash: usize = match rfind(path, SLASH, n) {
        Some(i) => i + 1,
        None => 0,
    };
    let mut out = match rfind(path, DOT, n) {
        Some(dot) => if dot > slash {
            assert(path@.subrange(0, dot as int) =~= path@.take(dot as int));
            to_vec(&path[0..dot])
        } else {
            to_vec(path)
        },
        None => to_vec(path),
    };
    push_text(&mut out, ".idx");
    out
}

/// An open pack with its index.
#[derive(Debug)]
pub struct Pack {
    pack_path: Vec<u8>,
    pack_sha: ObjectId,
    pack_bytes: Vec<u8>,
    ids: Vec<ObjectId>,
    offsets: Vec<u64>,
}

/// What an open pack holds.
pub struct PackView {
    pub path: Seq<u8>,
    pub sha: Seq<u8>,
    pub bytes: Seq<u8>,
    pub ids: Seq<Seq<u8>>,
    pub offsets: Seq<nat>,
}

impl View for Pack {
    type V = PackView;

    closed spec fn view(&self) -> PackView {
        PackView {
            path: self.pack_path@,
            sha: self.pack_sha@,
            bytes: self.pack_bytes@,
            ids: ids_view(self.ids@),
            offsets: offsets_view(self.offsets@),
        }
    }
}

/// The pack at a path of a directory, or why it cannot be opened: the pack
/// is checked first, then its index, then that the two belong together.
pub open spec fn opened_pack(files: Map<Seq<u8>, Seq<u8>>, path: Seq<u8>) -> Result<
    PackView,
    PackErrorView,
> {
    if !files.contains_key(path) {
        Err(PackErrorView::Io(IoError::NotFound))
    } else {
        match pack_hash(files[path]) {
            Err(e) => Err(e),
            Ok(sha) => if !files.contains_key(idx_path(path)) {
                Err(PackErrorView::Io(IoError::NotFound))
            } else {
                match idx_contents(files[idx_path(path)]) {
                    Err(e) => Err(e),
                    Ok(idx) => if idx.pack_sha != sha {
                        Err(PackErrorView::PackIdxMismatch)
                    } else {
                        Ok(
                            PackView {
                                path,
                                sha,
                                bytes: files[path],
                                ids: idx.ids,
                                offsets: idx.offsets,
                            },
                        )
                    },
                }
            },
        }
    }
}

impl PackView {
    /// The object with the id, `None` if the index does not list it, or why
    /// its entry cannot be read.
    pub open spec fn object(self, id: Seq<u8>) -> Result<
        Option<(ObjectKind, Seq<u8>)>,
        PackErrorView,
    > {
        match id_index(self.ids, id) {
            None => Ok(None),
            Some(i) => match entry_object(
                self.bytes,
                self.ids,
                self.offsets,
                self.offsets[i] as int,
                0,
            ) {
                Ok(o) => Ok(Some(o)),
                Err(e) => Err(e),
            },
        }
    }
}

impl Pack {
    #[verifier::type_invariant]
    closed spec fn inv(&self) -> bool {
        self.ids@.len() == self.offsets@.len()
    }

    /// Opens a pack of a directory.
    pub fn open(files: &Files, pack_path: &[u8]) -> (r: Result<Pack, PackError>)
        ensures
            match r {
                Ok(p) => opened_pack(files@, pack_path@) == Ok::<_, PackErrorView>(p@),
                Err(e) => opened_pack(files@, pack_path@) == Err::<PackView, _>(e@),
            },
    {
        let bytes = match files.get(pack_path) {
            Some(b) => b,
            None => return Err(PackError::Io(IoError::NotFound)),
        };
        let sha = match validate_pack_bytes(bytes) {
            Ok(sha) => sha,
            Err(e) => return Err(e),
        };
        let idx_name = index_path(pack_path);
        let idx_bytes = match files.get(&idx_name) {
            Some(b) => b,
            None => return Err(PackError::Io(IoError::NotFound)),
        };
        let parsed = match parse_idx(idx_bytes) {
            Ok(p) => p,
            Err(e) => return Err(e),
        };
        if parsed.pack_sha != sha {
            return Err(PackError::PackIdxMismatch);
        }
        Ok(
            Pack {
                pack_path: to_vec(pack_path),
                pack_sha: sha,
                pack_bytes: to_vec(bytes),
                ids: parsed.ids,
                offsets: parsed.offsets,
            },
        )
    }

    /// Looks up an object: `None` if the pack does not list the id.
    pub fn lookup(&self, id: &ObjectId) -> (r: Result<Option<(ObjectKind, Vec<u8>)>, PackError>)
        ensures
            match r {
                Ok(Some((kind, payload))) => self@.object(id@) == Ok::<_, PackErrorView>(
                    Some((kind, payload@)),
                ),
                Ok(None) => self@.object(id@) == Ok::<Option<(ObjectKind, Seq<u8>)>, PackErrorView>(
                    None,
                ),
                Err(e) => self@.object(id@) == Err::<Option<(ObjectKind, Seq<u8>)>, _>(e@),
            },
    {
        proof {
            use_type_invariant(self);
        }
        match find_id(&self.ids, id) {
            None => Ok(None),
            Some(i) => match read_entry_at(
                &self.pack_bytes,
                &self.ids,
                &self.offsets,
                self.offsets[i],
                0,
            ) {
                Ok((kind, payload)) => Ok(Some((kind, payload))),
                Err(e) => Err(e),
            },
        }
    }

    /// Whether the pack lists the id.
    pub fn contains(&self, id: &ObjectId) -> (r: bool)
        ensures
            r <==> self@.ids.contains(id@),
    {
        proof {
            entry::id_index_spec(ids_view(self.ids@), id@);
        }
        find_id(&self.ids, id).is_some()
    }

    /// The listed ids, in the order of the index.
    pub fn iter_ids(&self) -> (r: std::slice::Iter<'_, ObjectId>)
        ensures
            ids_view(vstd::std_specs::slice::into_iter_elts(r)) == self@.ids,
    {
        let r = self.ids.iter();
        assert(vstd::std_specs::slice::into_iter_elts(r) =~= self.ids@);
        r
    }

    /// The listed ids, in the order of the index.
    pub fn ids(&self) -> (r: &Vec<ObjectId>)
        ensures
            ids_view(r@) == self@.ids,
    {
        &self.ids
    }

    /// The hash in the pack's trailer.
    pub fn pack_sha(&self) -> (r: ObjectId)
        ensures
            r@ == self@.sha,
    {
        self.pack_sha
    }

    /// The path of the pack.
    pub fn path(&self) -> (r: &Vec<u8>)
        ensures
            r@ == self@.path,
    {
        &self.pack_path
    }
}

/// Builds the index of the pack at `pack_path` and stores it beside the
/// pack. Gives the pack's hash.
pub fn build_index(files: &mut Files, pack_path: &[u8]) -> (r: Result<ObjectId, PackError>)
    ensures
        match r {
            Ok(sha) => {
                &&& old(files)@.contains_key(pack_path@)
                &&& pack_hash(old(files)@[pack_path@]) == Ok::<_, PackErrorView>(sha@)
                &&& pack_index(old(files)@[pack_path@]) matches Ok(es) && final(files)@ == old(
                    files)@.insert(idx_path(pack_path@), idx_bytes(es, sha@))
                    && indexing::ids_ascending(es)
                    && idx_contents(idx_bytes(es, sha@)) == Ok::<_, PackErrorView>(
                    entries_idx(es, sha@),
                )
            },
            Err(e) => {
                &&& final(files)@ == old(files)@
                &&& if old(files)@.contains_key(pack_path@) {
                    pack_index(old(files)@[pack_path@]) == Err::<Seq<idx::IdxEntryView>, _>(e@)
                } else {
                    e@ == PackErrorView::Io(IoError::NotFound)
                }
            },
        },
{
    let (idx, sha) = match files.get(pack_path) {
        None => return Err(PackError::Io(IoError::NotFound)),
        Some(bytes) => match index_pack(bytes) {
            Ok(x) => x,
            Err(e) => return Err(e),
        },
    };
    let name = index_path(pack_path);
    files.put(&name, idx);
    Ok(sha)
}

/// Errors of the pack module.
#[derive(Clone, Debug, PartialEq, Eq)]
pub enum PackError {
    /// A file could not be read or written.
    Io(IoError),
    /// Not a pack file: bad magic or version.
    BadHeader,
    /// Not an index file: bad magic or version, or a table that does not
    /// fit into the file.
    BadIndexHeader,
    /// The pack's trailer is not the hash of what stands before it.
    BadPackSha,
    /// The index's trailer is not the hash of what stands before it.
    BadIndexSha,
    /// Pack and index disagree on the pack's hash.
    PackIdxMismatch,
    /// An unknown object type code.
    UnknownType(u8),
    /// The pack ends inside an entry.
    TruncatedEntry,
    /// The zlib stream of an entry is broken.
    BadInflate,
    /// A delta that cannot be applied.
    BadDelta,
    /// The base of a delta is not in the pack.
    MissingBase(ObjectId),
    /// A delta chain is deeper than the limit.
    DeltaChainTooDeep(usize),
    /// A delta's target size exceeds the cap.
    DeltaTargetTooLarge(u64, u64),
    /// Two entries of the pack have the same id.
    DuplicateIdInPack(ObjectId),
    /// The base of a delta is not in the pack that is being indexed.
    ThinPackUnsupported(ObjectId),
}

/// What a [`PackError`] says.
pub enum PackErrorView {
    Io(IoError),
    BadHeader,
    BadIndexHeader,
    BadPackSha,
    BadIndexSha,
    PackIdxMismatch,
    UnknownType(u8),
    TruncatedEntry,
    BadInflate,
    BadDelta,
    MissingBase(Seq<u8>),
    DeltaChainTooDeep(nat),
    DeltaTargetTooLarge(nat, nat),
    DuplicateIdInPack(Seq<u8>),
    ThinPackUnsupported(Seq<u8>),
}

impl View for PackError {
    type V = PackErrorView;

    open spec fn view(&self) -> PackErrorView {
        match self {
            PackError::Io(e) => PackErrorView::Io(*e),
            PackError::BadHeader => PackErrorView::BadHeader,
            PackError::BadIndexHeader => PackErrorView::BadIndexHeader,
            PackError::BadPackSha => PackErrorView::BadPackSha,
            PackError::BadIndexSha => PackErrorView::BadIndexSha,
            PackError::PackIdxMismatch => PackErrorView::PackIdxMismatch,
            PackError::UnknownType(n) => PackErrorView::UnknownType(*n),
            PackError::TruncatedEntry => PackErrorView::TruncatedEntry,
            PackError::BadInflate => PackErrorView::BadInflate,
            PackError::BadDelta => PackErrorView::BadDelta,
            PackError::MissingBase(id) => PackErrorView::MissingBase(id@),
            PackError::DeltaChainTooDeep(n) => PackErrorView::DeltaChainTooDeep(*n as nat),
            PackError::DeltaTargetTooLarge(n, cap) => PackErrorView::DeltaTargetTooLarge(
                *n as nat,
                *cap as nat,
            ),
            PackError::DuplicateIdInPack(id) => PackErrorView::DuplicateIdInPack(id@),
            PackError::ThinPackUnsupported(id) => PackErrorView::ThinPackUnsupported(id@),
        }
    }
}

} // verus!
