//! The object database and the repository that it stands in.
//!
//! Objects are loose files, one for each object, or entries of packs. Every
//! read checks that the object has the id it was asked for by.

use vstd::prelude::*;
use vstd::string::StringExecFns;

use crate::bytemap::ByteMap;
use crate::bytes::{ascii, find, find_from, push_all, push_text, to_vec, upto, NUL, SLASH, SPACE};
use crate::codec::{sha1, sha1_digest, zlib_deflate, zlib_deflated, zlib_inflate, zlib_inflated};
use crate::dir::{Dir, DirView};
use crate::files::IoError;
use crate::notation::{hex, parse_unsigned, unsigned_text};
use crate::object::commit::ids_view;
use crate::object::{
    kind_of_token, loose_object, object_id, parse_kind_token, payload_object, Object, ObjectId,
    ObjectKind, ObjectView, ParseError, ParseErrorView,
};
use crate::pack::{Pack, PackError, PackErrorView, PackView};
use crate::refs::{RefError, RefErrorView};
use crate::worktree::{WorkFileView, WorkTree};

pub mod created;
pub mod imports;
pub mod laws;
pub mod lookups;
pub mod resolve;
pub mod setup;

verus! {

// ---------------------------------------------------------------------
// Errors
// ---------------------------------------------------------------------

/// What is wrong with the storage of a loose object.
#[derive(Debug, Clone, Copy, PartialEq, Eq)]
pub enum CorruptReason {
    /// The file is no zlib stream.
    Inflate,
    /// The contents are shorter than the frame declares.
    UndersizedPayload,
    /// Another structural failure.
    Other(&'static str),
}

/// Errors of the object database.
#[derive(Debug, Clone, PartialEq, Eq)]
pub enum OdbError {
    /// A file could not be read or written.
    Io(IoError),
    /// There is no repository at the path.
    NotARepository(String),
    /// There is no such object.
    ObjectNotFound(ObjectId),
    /// The object's contents have another id.
    HashMismatch { expected: ObjectId, computed: ObjectId },
    /// More than one object has an id with the prefix.
    AmbiguousId { prefix: String, candidates: Vec<ObjectId> },
    /// The object's contents cannot be parsed.
    InvalidObject(ParseError),
    /// A pack cannot be read.
    InvalidPack(PackError),
    /// Not 4 to 40 hexadecimal digits.
    InvalidPrefix(String),
    /// A loose object's file is broken.
    CorruptObject { id: ObjectId, reason: CorruptReason },
    /// The refs cannot be read.
    Refs(RefError),
    /// Objects refer to each other in a circle.
    CyclicObjects(ObjectId),
}

/// What an [`OdbError`] says.
pub enum OdbErrorView {
    Io(IoError),
    NotARepository(Seq<char>),
    ObjectNotFound(Seq<u8>),
    HashMismatch(Seq<u8>, Seq<u8>),
    AmbiguousId(Seq<char>, Seq<Seq<u8>>),
    InvalidObject(ParseErrorView),
    InvalidPack(PackErrorView),
    InvalidPrefix(Seq<char>),
    CorruptObject(Seq<u8>, CorruptReason),
    Refs(RefErrorView),
    CyclicObjects(Seq<u8>),
}

impl View for OdbError {
    type V = OdbErrorView;

    open spec fn view(&self) -> OdbErrorView {
        match self {
            OdbError::Io(e) => OdbErrorView::Io(*e),
            OdbError::NotARepository(p) => OdbErrorView::NotARepository(p@),
            OdbError::ObjectNotFound(id) => OdbErrorView::ObjectNotFound(id@),
            OdbError::HashMismatch { expected, computed } => OdbErrorView::HashMismatch(
                expected@,
                computed@,
            ),
            OdbError::AmbiguousId { prefix, candidates } => OdbErrorView::AmbiguousId(
                prefix@,
                ids_view(candidates@),
            ),
            OdbError::InvalidObject(e) => OdbErrorView::InvalidObject(e@),
            OdbError::InvalidPack(e) => OdbErrorView::InvalidPack(e@),
            OdbError::InvalidPrefix(p) => OdbErrorView::InvalidPrefix(p@),
            OdbError::CorruptObject { id, reason } => OdbErrorView::CorruptObject(id@, *reason),
            OdbError::Refs(e) => OdbErrorView::Refs(e@),
            OdbError::CyclicObjects(id) => OdbErrorView::CyclicObjects(id@),
        }
    }
}

// ---------------------------------------------------------------------
// The repository
// ---------------------------------------------------------------------

/// A repository: its git directory and working tree, the packs in the
/// order they are searched, and the packed refs.
#[derive(Debug)]
pub struct Repository {
    git_dir: String,
    work_dir: Option<String>,
    git: Dir<Vec<u8>>,
    work: WorkTree,
    packs: Vec<Pack>,
    packed_refs: ByteMap<ObjectId>,
}

/// What a repository holds.
pub struct RepoView {
    pub git_dir: Seq<char>,
    pub work_dir: Option<Seq<char>>,
    pub git: DirView<Seq<u8>>,
    pub work: DirView<WorkFileView>,
    pub packs: Seq<PackView>,
    pub packed_refs: Map<Seq<u8>, Seq<u8>>,
}

/// What an optional string says.
pub open spec fn opt_string(s: Option<String>) -> Option<Seq<char>> {
    match s {
        Some(t) => Some(t@),
        None => None,
    }
}

/// What the packs of a list hold.
pub open spec fn packs_view(packs: Seq<Pack>) -> Seq<PackView> {
    packs.map_values(|p: Pack| p@)
}

impl View for Repository {
    type V = RepoView;

    closed spec fn view(&self) -> RepoView {
        RepoView {
            git_dir: self.git_dir@,
            work_dir: opt_string(self.work_dir),
            git: self.git@,
            work: self.work@,
            packs: packs_view(self.packs@),
            packed_refs: self.packed_refs@,
        }
    }
}

/// Where objects are looked for.
pub struct Store {
    pub git: DirView<Seq<u8>>,
    pub packs: Seq<PackView>,
}

impl RepoView {
    /// Where the repository's objects are looked for.
    pub open spec fn store(self) -> Store {
        Store { git: self.git, packs: self.packs }
    }
}

impl Repository {
    /// The repository of the given parts.
    fn from_parts(
        git_dir: String,
        work_dir: Option<String>,
        git: Dir<Vec<u8>>,
        work: WorkTree,
        packs: Vec<Pack>,
        packed_refs: ByteMap<ObjectId>,
    ) -> (r: Repository)
        ensures
            r@.git_dir == git_dir@,
            r@.work_dir == opt_string(work_dir),
            r@.git == git@,
            r@.work == work@,
            r@.packs == packs_view(packs@),
            r@.packed_refs == packed_refs@,
    {
        Repository { git_dir, work_dir, git, work, packs, packed_refs }
    }

    /// The git directory's path.
    pub fn git_dir(&self) -> (r: &str)
        ensures
            r@ == self@.git_dir,
    {
        self.git_dir.as_str()
    }

    /// The working tree's path; `None` for a bare repository.
    pub fn work_dir(&self) -> (r: Option<&str>)
        ensures
            match r {
                Some(p) => self@.work_dir == Some(p@),
                None => self@.work_dir is None,
            },
    {
        match &self.work_dir {
            Some(p) => Some(p.as_str()),
            None => None,
        }
    }

    /// The git directory.
    pub fn git(&self) -> (r: &Dir<Vec<u8>>)
        ensures
            r@ == self@.git,
    {
        &self.git
    }

    /// The git directory, to be changed.
    pub fn git_mut(&mut self) -> (r: &mut Dir<Vec<u8>>)
        ensures
            r@ == old(self)@.git,
            final(self)@ == (RepoView { git: final(r)@, ..old(self)@ }),
    {
        &mut self.git
    }

    /// The working tree.
    pub fn work(&self) -> (r: &WorkTree)
        ensures
            r@ == self@.work,
    {
        &self.work
    }

    /// The working tree, to be changed.
    pub fn work_mut(&mut self) -> (r: &mut WorkTree)
        ensures
            r@ == old(self)@.work,
            final(self)@ == (RepoView { work: final(r)@, ..old(self)@ }),
    {
        &mut self.work
    }

    /// The packs, in the order they are searched.
    pub fn packs(&self) -> (r: &Vec<Pack>)
        ensures
            packs_view(r@) == self@.packs,
    {
        &self.packs
    }

    /// The packed refs, as they were when the repository was opened.
    pub fn packed_refs(&self) -> (r: &ByteMap<ObjectId>)
        ensures
            r@ == self@.packed_refs,
    {
        &self.packed_refs
    }
}

// ---------------------------------------------------------------------
// Loose objects
// ---------------------------------------------------------------------

/// The path of a loose object: its id in hexadecimal, split after two
/// digits.
pub open spec fn loose_path(id: Seq<u8>) -> Seq<u8> {
    ascii("objects/"@) + hex(id).take(2) + seq![SLASH] + hex(id).skip(2)
}

/// The path of a loose object.
pub fn loose_file(id: &ObjectId) -> (r: Vec<u8>)
    ensures
        r@ == loose_path(id@),
{
    proof {
        reveal_strlit("objects/");
    }
    let h = id.to_hex_bytes();
    let mut path: Vec<u8> = Vec::new();
    push_text(&mut path, "objects/");
    assert(h@.subrange(0, 2) =~= h@.take(2));
    push_all(&mut path, &h[0..2]);
    path.push(SLASH);
    assert(h@.subrange(2, 40) =~= h@.skip(2));
    push_all(&mut path, &h[2..40]);
    assert(path@ =~= loose_path(id@));
    path
}

/// Where the payload of a frame begins: behind the first NUL that follows
/// the first space. `None` if there is no such place.
pub open spec fn payload_start(s: Seq<u8>) -> Option<int> {
    let sp = upto(s, SPACE);
    let rest = s.skip(sp + 1);
    let nul = upto(rest, NUL);
    if sp == s.len() || nul == rest.len() {
        None
    } else {
        Some(sp + 1 + nul + 1)
    }
}

/// The length that a frame declares for itself and its payload. The size is
/// read leniently; the object parser is stricter.
pub open spec fn declared_len(s: Seq<u8>) -> Option<int> {
    let sp = upto(s, SPACE);
    match payload_start(s) {
        None => None,
        Some(start) => match unsigned_text(s.subrange(sp + 1, start - 1), usize::MAX as nat) {
            None => None,
            Some(size) => Some(start + size),
        },
    }
}

/// The frame of a loose object: `None` if there is no file for it, or why
/// it cannot be read. The frame's hash is the id.
pub open spec fn loose_frame(git: DirView<Seq<u8>>, id: Seq<u8>) -> Result<
    Option<Seq<u8>>,
    OdbErrorView,
> {
    match git.read(loose_path(id)) {
        Err(IoError::NotFound) => Ok(None),
        Err(e) => Err(OdbErrorView::Io(e)),
        Ok(raw) => match zlib_inflated(raw) {
            None => Err(OdbErrorView::CorruptObject(id, CorruptReason::Inflate)),
            Some((frame, _)) => match declared_len(frame) {
                None => Err(OdbErrorView::InvalidObject(ParseErrorView::InvalidFrame)),
                Some(n) => if frame.len() < n {
                    Err(OdbErrorView::CorruptObject(id, CorruptReason::UndersizedPayload))
                } else if sha1_digest(frame) != id {
                    Err(OdbErrorView::HashMismatch(id, sha1_digest(frame)))
                } else {
                    Ok(Some(frame))
                },
            },
        },
    }
}

/// The object in the first pack that lists the id, or why it cannot be
/// read. The object's hash is the id.
pub open spec fn packed_object(packs: Seq<PackView>, id: Seq<u8>) -> Result<
    (ObjectKind, Seq<u8>),
    OdbErrorView,
>
    decreases packs.len(),
{
    if packs.len() == 0 {
        Err(OdbErrorView::ObjectNotFound(id))
    } else {
        match packs[0].object(id) {
            Err(e) => Err(OdbErrorView::InvalidPack(e)),
            Ok(None) => packed_object(packs.drop_first(), id),
            Ok(Some((kind, payload))) => if object_id(kind, payload) != id {
                Err(OdbErrorView::HashMismatch(id, object_id(kind, payload)))
            } else {
                Ok((kind, payload))
            },
        }
    }
}

/// The kind and payload of a loose frame.
pub open spec fn frame_parts(frame: Seq<u8>) -> Result<(ObjectKind, Seq<u8>), OdbErrorView> {
    let token = frame.take(upto(frame, SPACE));
    match kind_of_token(token) {
        Some(kind) => Ok((kind, frame.skip(payload_start(frame)->0))),
        None => Err(OdbErrorView::InvalidObject(ParseErrorView::UnknownKind(token))),
    }
}

impl Store {
    /// The kind and payload of an object, or why they cannot be read. Loose
    /// objects go before packed ones.
    pub open spec fn raw(self, id: Seq<u8>) -> Result<(ObjectKind, Seq<u8>), OdbErrorView> {
        match loose_frame(self.git, id) {
            Err(e) => Err(e),
            Ok(Some(frame)) => frame_parts(frame),
            Ok(None) => packed_object(self.packs, id),
        }
    }

    /// An object, or why it cannot be read. Loose objects go before packed
    /// ones.
    pub open spec fn object(self, id: Seq<u8>) -> Result<ObjectView, OdbErrorView> {
        match loose_frame(self.git, id) {
            Err(e) => Err(e),
            Ok(Some(frame)) => match loose_object(frame) {
                Ok(o) => Ok(o),
                Err(e) => Err(OdbErrorView::InvalidObject(e)),
            },
            Ok(None) => match packed_object(self.packs, id) {
                Err(e) => Err(e),
                Ok((kind, payload)) => match payload_object(kind, payload) {
                    Ok(o) => Ok(o),
                    Err(e) => Err(OdbErrorView::InvalidObject(e)),
                },
            },
        }
    }

    /// Whether there is a loose file or a pack entry for the id.
    pub open spec fn has(self, id: Seq<u8>) -> bool {
        self.git.exists_at(loose_path(id)) || exists|i: int|
            0 <= i < self.packs.len() && #[trigger] self.packs[i].ids.contains(id)
    }
}

/// Reads the extent of a frame.
fn frame_extent(s: &[u8]) -> (r: Option<(usize, u64)>)
    ensures
        match r {
            Some((start, size)) => payload_start(s@) == Some(start as int) && start <= s@.len()
                && declared_len(s@) == Some(start + size),
            None => declared_len(s@) is None,
        },
{
    let sp: usize = find(s, SPACE);
    if sp == s.len() {
        return None;
    }
    let nul: usize = find_from(s, NUL, sp + 1);
    if nul == s.len() {
        return None;
    }
    match parse_unsigned(&s[sp + 1..nul], usize::MAX as u64) {
        None => None,
        Some(size) => Some((nul + 1, size)),
    }
}

impl Repository {
    /// Loads the frame of a loose object and checks it.
    fn read_loose_validated(&self, id: &ObjectId) -> (r: Result<Option<Vec<u8>>, OdbError>)
        ensures
            match r {
                Ok(Some(f)) => loose_frame(self@.git, id@) == Ok::<_, OdbErrorView>(Some(f@)),
                Ok(None) => loose_frame(self@.git, id@) == Ok::<Option<Seq<u8>>, OdbErrorView>(
                    None,
                ),
                Err(e) => loose_frame(self@.git, id@) == Err::<Option<Seq<u8>>, _>(e@),
            },
    {
        let path = loose_file(id);
        let raw = match self.git.read(&path) {
            Ok(raw) => raw,
            Err(IoError::NotFound) => return Ok(None),
            Err(e) => return Err(OdbError::Io(e)),
        };
        let frame = match zlib_inflate(raw) {
            Some((frame, _)) => frame,
            None => return Err(
                OdbError::CorruptObject { id: *id, reason: CorruptReason::Inflate },
            ),
        };
        let (start, size) = match frame_extent(&frame) {
            Some(x) => x,
            None => return Err(OdbError::InvalidObject(ParseError::InvalidFrame)),
        };
        if ((frame.len() - start) as u64) < size {
            return Err(
                OdbError::CorruptObject { id: *id, reason: CorruptReason::UndersizedPayload },
            );
        }
        let computed = ObjectId::from_bytes(sha1(&frame));
        if computed != *id {
            return Err(OdbError::HashMismatch { expected: *id, computed });
        }
        Ok(Some(frame))
    }

    /// Searches the packs in their order.
    fn read_packed_payload(&self, id: &ObjectId) -> (r: Result<(ObjectKind, Vec<u8>), OdbError>)
        ensures
            match r {
                Ok((k, p)) => packed_object(self@.packs, id@) == Ok::<_, OdbErrorView>((k, p@)),
                Err(e) => packed_object(self@.packs, id@) == Err::<(ObjectKind, Seq<u8>), _>(e@),
            },
    {
        let ghost v = self@.packs;
        let mut i: usize = 0;
        assert(v.skip(0) =~= v);
        while i < self.packs.len()
            invariant
                i <= self.packs@.len(),
                v == packs_view(self.packs@),
                v == self@.packs,
                packed_object(v.skip(i as int), id@) == packed_object(v, id@),
            decreases self.packs.len() - i,
        {
            proof {
                assert(v.skip(i as int)[0] == self.packs@[i as int]@);
                assert(v.skip(i as int).drop_first() =~= v.skip(i + 1));
            }
            match self.packs[i].lookup(id) {
                Err(e) => return Err(OdbError::InvalidPack(e)),
                Ok(None) => {},
                Ok(Some((kind, payload))) => {
                    let computed = ObjectId::compute(kind, &payload);
                    if computed != *id {
                        return Err(OdbError::HashMismatch { expected: *id, computed });
                    }
                    return Ok((kind, payload));
                },
            }
            i += 1;
        }
        Err(OdbError::ObjectNotFound(*id))
    }

    /// Reads and parses an object. Its hash is checked.
    pub fn read_object(&self, id: &ObjectId) -> (r: Result<Object, OdbError>)
        ensures
            match r {
                Ok(o) => self@.store().object(id@) == Ok::<_, OdbErrorView>(o@),
                Err(e) => self@.store().object(id@) == Err::<ObjectView, _>(e@),
            },
    {
        match self.read_loose_validated(id) {
            Err(e) => Err(e),
            Ok(Some(frame)) => match Object::parse_loose(&frame) {
                Ok(o) => Ok(o),
                Err(e) => Err(OdbError::InvalidObject(e)),
            },
            Ok(None) => match self.read_packed_payload(id) {
                Err(e) => Err(e),
                Ok((kind, payload)) => match Object::parse_payload(kind, &payload) {
                    Ok(o) => Ok(o),
                    Err(e) => Err(OdbError::InvalidObject(e)),
                },
            },
        }
    }

    /// Reads the kind and payload of an object. Its hash is checked.
    pub fn read_object_raw(&self, id: &ObjectId) -> (r: Result<(ObjectKind, Vec<u8>), OdbError>)
        ensures
            match r {
                Ok((k, p)) => self@.store().raw(id@) == Ok::<_, OdbErrorView>((k, p@)),
                Err(e) => self@.store().raw(id@) == Err::<(ObjectKind, Seq<u8>), _>(e@),
            },
    {
        match self.read_loose_validated(id) {
            Err(e) => Err(e),
            Ok(None) => self.read_packed_payload(id),
            Ok(Some(frame)) => {
                let sp: usize = find(&frame, SPACE);
                assert(frame@.subrange(0, sp as int) =~= frame@.take(sp as int));
                let kind = match parse_kind_token(&frame[0..sp]) {
                    Ok(k) => k,
                    Err(e) => return Err(OdbError::InvalidObject(e)),
                };
                let start: usize = match frame_extent(&frame) {
                    Some((start, _)) => start,
                    None => return Err(OdbError::InvalidObject(ParseError::InvalidFrame)),
                };
                assert(frame@.subrange(start as int, frame@.len() as int) =~= frame@.skip(
                    start as int,
                ));
                Ok((kind, to_vec(&frame[start..frame.len()])))
            },
        }
    }

    /// Whether there is a loose file or a pack entry for the id.
    pub fn contains(&self, id: &ObjectId) -> (r: bool)
        ensures
            r <==> self@.store().has(id@),
    {
        let path = loose_file(id);
        if self.git.exists_at(&path) {
            return true;
        }
        let ghost v = self@.packs;
        let mut i: usize = 0;
        while i < self.packs.len()
            invariant
                i <= self.packs@.len(),
                v == packs_view(self.packs@),
                v == self@.packs,
                forall|j: int| 0 <= j < i ==> !#[trigger] v[j].ids.contains(id@),
            decreases self.packs.len() - i,
        {
            assert(v[i as int] == self.packs@[i as int]@);
            if self.packs[i].contains(id) {
                assert(self@.store().packs[i as int].ids.contains(id@));
                return true;
            }
            i += 1;
        }
        false
    }

    /// Stores an object as a loose file and gives its id. A file that is
    /// there already has to hold the object.
    pub fn write_object(&mut self, object: &Object) -> (r: Result<ObjectId, OdbError>)
        ensures
            match r {
                Ok(id) => {
                    &&& id@ == object@.id()
                    &&& object_stored(old(self)@.git, object@, final(self)@.git)
                    &&& final(self)@ == (RepoView { git: final(self)@.git, ..old(self)@ })
                },
                Err(e) => store_fault(old(self)@.git, object@) == Some(e@) && final(self)@ == old(
                    self)@,
            },
    {
        let frame = object.serialize();
        let id = object.id();
        let path = loose_file(&id);
        if self.git.exists_at(&path) {
            return match self.git.read(&path) {
                Err(e) => Err(OdbError::Io(e)),
                Ok(raw) => match zlib_inflate(raw) {
                    None => Err(
                        OdbError::CorruptObject { id, reason: CorruptReason::Inflate },
                    ),
                    Some((found, _)) => {
                        let computed = ObjectId::from_bytes(sha1(&found));
                        if computed == id {
                            Ok(id)
                        } else {
                            Err(OdbError::HashMismatch { expected: id, computed })
                        }
                    },
                },
            };
        }
        let z = match zlib_deflate(&frame) {
            Some(z) => z,
            None => return Err(OdbError::Io(IoError::Compression)),
        };
        proof {
            assert(z@ + Seq::<u8>::empty() =~= z@);
        }
        match self.git.write(&path, z) {
            Ok(_) => Ok(id),
            Err(e) => Err(OdbError::Io(e)),
        }
    }
}

/// What keeps an object from being stored, if anything.
pub open spec fn store_fault(git: DirView<Seq<u8>>, o: ObjectView) -> Option<OdbErrorView> {
    let path = loose_path(o.id());
    if git.exists_at(path) {
        match git.read(path) {
            Err(e) => Some(OdbErrorView::Io(e)),
            Ok(raw) => match zlib_inflated(raw) {
                None => Some(OdbErrorView::CorruptObject(o.id(), CorruptReason::Inflate)),
                Some((found, _)) => if sha1_digest(found) == o.id() {
                    None
                } else {
                    Some(OdbErrorView::HashMismatch(o.id(), sha1_digest(found)))
                },
            },
        }
    } else if zlib_deflated(o.framed()) is None {
        Some(OdbErrorView::Io(IoError::Compression))
    } else {
        match git.write_fault(path) {
            Some(e) => Some(OdbErrorView::Io(e)),
            None => None,
        }
    }
}

/// The git directory after storing an object, and what went wrong, if
/// anything.
pub open spec fn after_store(git: DirView<Seq<u8>>, o: ObjectView) -> (
    DirView<Seq<u8>>,
    Option<OdbErrorView>,
) {
    let path = loose_path(o.id());
    if store_fault(git, o) is Some {
        (git, store_fault(git, o))
    } else if git.exists_at(path) {
        (git, None)
    } else {
        (git.written(path, zlib_deflated(o.framed())->0), None)
    }
}

/// What storing an object does: nothing where its file was there, and
/// otherwise the file is written, from which the object's frame comes out
/// again.
pub open spec fn object_stored(
    before: DirView<Seq<u8>>,
    o: ObjectView,
    after: DirView<Seq<u8>>,
) -> bool {
    let path = loose_path(o.id());
    &&& store_fault(before, o) is None
    &&& if before.exists_at(path) {
        after == before
    } else {
        &&& after == before.written(path, zlib_deflated(o.framed())->0)
        &&& zlib_inflated(zlib_deflated(o.framed())->0) == Some(
            (o.framed(), (zlib_deflated(o.framed())->0).len()),
        )
    }
}

} // verus!
