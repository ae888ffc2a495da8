//! References: branches, tags, remote-tracking refs and HEAD.
//!
//! A ref is a loose file below `refs/`, or an entry of `packed-refs`. Both
//! are read; only loose files are written.

use vstd::prelude::*;
use vstd::utf8::{encode_utf8, valid_utf8};

use crate::bytemap::{sorted_keys, ByteMap};
use crate::bytes::{
    ascii, find, has_prefix, push_all, push_text, same_bytes, text, upto, CR, DOT, LF, MINUS, SLASH,
    SPACE,
};
use crate::diff::{lines, lines_view, split_lines};
use crate::dir::{Dir, DirView};
use crate::files::IoError;
use crate::notation::{hex, is_utf8, lossy_string, text_of, text_of_encoded};
use crate::object::{id_from_hex, ObjectId};
use crate::odb::{RepoView, Repository};

pub mod laws;
pub mod reading;

verus! {

/// The longest chain of symbolic refs that is followed.
pub const MAX_SYMREF_DEPTH: usize = 5;

/// What HEAD points at.
#[derive(Debug, Clone, PartialEq, Eq)]
pub enum HeadState {
    /// A branch, such as `refs/heads/main`.
    Symbolic(String),
    /// A commit.
    Detached(ObjectId),
}

/// What a [`HeadState`] says.
pub enum HeadView {
    Symbolic(Seq<char>),
    Detached(Seq<u8>),
}

impl View for HeadState {
    type V = HeadView;

    open spec fn view(&self) -> HeadView {
        match self {
            HeadState::Symbolic(t) => HeadView::Symbolic(t@),
            HeadState::Detached(id) => HeadView::Detached(id@),
        }
    }
}

/// Errors of the refs module.
#[derive(Debug, Clone, PartialEq, Eq)]
pub enum RefError {
    /// A file could not be read or written.
    Io(IoError),
    /// A name that no ref may have.
    InvalidRefName(String),
    /// The ref's file holds neither an id nor a symbolic ref.
    InvalidRefContent(String),
    /// There is no such ref.
    RefNotFound(String),
    /// A chain of symbolic refs is longer than the limit.
    SymRefLoop(usize),
    /// The ref is in `packed-refs` only and cannot be deleted.
    CannotDeletePackedOnly(String),
    /// HEAD cannot be deleted.
    CannotDeleteHead,
}

/// What a [`RefError`] says.
pub enum RefErrorView {
    Io(IoError),
    InvalidRefName(Seq<char>),
    InvalidRefContent(Seq<char>),
    RefNotFound(Seq<char>),
    SymRefLoop(nat),
    CannotDeletePackedOnly(Seq<char>),
    CannotDeleteHead,
}

impl View for RefError {
    type V = RefErrorView;

    open spec fn view(&self) -> RefErrorView {
        match self {
            RefError::Io(e) => RefErrorView::Io(*e),
            RefError::InvalidRefName(n) => RefErrorView::InvalidRefName(n@),
            RefError::InvalidRefContent(n) => RefErrorView::InvalidRefContent(n@),
            RefError::RefNotFound(n) => RefErrorView::RefNotFound(n@),
            RefError::SymRefLoop(n) => RefErrorView::SymRefLoop(*n as nat),
            RefError::CannotDeletePackedOnly(n) => RefErrorView::CannotDeletePackedOnly(n@),
            RefError::CannotDeleteHead => RefErrorView::CannotDeleteHead,
        }
    }
}

// ---------------------------------------------------------------------
// Names
// ---------------------------------------------------------------------

/// Whether two given bytes stand side by side.
pub open spec fn has_pair(s: Seq<u8>, a: u8, b: u8) -> bool {
    exists|i: int| 0 <= i && i + 1 < s.len() && #[trigger] s[i] == a && s[i + 1] == b
}

/// Whether a name may hold the byte: no control characters, no space, and
/// none of `~ ^ : ? * [ \`.
pub open spec fn name_byte_ok(b: u8) -> bool {
    b > 0x20 && b != 0x7f && b != 126 && b != 94 && b != 58 && b != 63 && b != 42 && b != 91 && b
        != 92
}

/// Whether `s` ends with `t`.
pub open spec fn ends_with(s: Seq<u8>, t: Seq<u8>) -> bool {
    s.len() >= t.len() && s.skip(s.len() - t.len()) == t
}

/// Whether a ref may have the name.
pub open spec fn valid_name(n: Seq<u8>) -> bool {
    n == ascii("HEAD"@) || {
        &&& n.len() > 0
        &&& n[0] != MINUS && n[0] != DOT && n[0] != SLASH
        &&& n.last() != SLASH
        &&& !ends_with(n, ascii(".lock"@))
        &&& !has_pair(n, DOT, DOT)
        &&& !has_pair(n, SLASH, SLASH)
        &&& forall|i: int| 0 <= i < n.len() ==> name_byte_ok(#[trigger] n[i])
    }
}

/// Tests for two bytes side by side.
fn contains_pair(s: &[u8], a: u8, b: u8) -> (r: bool)
    ensures
        r <==> has_pair(s@, a, b),
{
    let mut i: usize = 0;
    while i < s.len() && s.len() - i >= 2
        invariant
            i <= s@.len(),
            forall|j: int| 0 <= j < i && j + 1 < s@.len() ==> !(#[trigger] s@[j] == a && s@[j + 1] == b),
        decreases s.len() - i,
    {
        if s[i] == a && s[i + 1] == b {
            assert(s@[i as int] == a);
            return true;
        }
        i += 1;
    }
    false
}

/// Tests for an ending.
pub fn has_suffix(s: &[u8], t: &[u8]) -> (r: bool)
    ensures
        r <==> ends_with(s@, t@),
{
    if s.len() < t.len() {
        return false;
    }
    let from: usize = s.len() - t.len();
    assert(s@.subrange(from as int, s@.len() as int) =~= s@.skip(from as int));
    same_bytes(&s[from..s.len()], t)
}

/// Whether a ref may have the name.
pub fn is_valid_name(n: &[u8]) -> (r: bool)
    ensures
        r <==> valid_name(n@),
{
    proof {
        reveal_strlit("HEAD");
        reveal_strlit(".lock");
    }
    if same_bytes(n, text("HEAD")) {
        return true;
    }
    if n.len() == 0 {
        return false;
    }
    if n[0] == MINUS || n[0] == DOT || n[0] == SLASH {
        return false;
    }
    if n[n.len() - 1] == SLASH || has_suffix(n, text(".lock")) {
        return false;
    }
    if contains_pair(n, DOT, DOT) || contains_pair(n, SLASH, SLASH) {
        return false;
    }
    let mut i: usize = 0;
    while i < n.len()
        invariant
            i <= n@.len(),
            n@ != ascii("HEAD"@),
            forall|j: int| 0 <= j < i ==> name_byte_ok(#[trigger] n@[j]),
        decreases n.len() - i,
    {
        let b: u8 = n[i];
        if b <= 0x20 || b == 0x7f || b == 126 || b == 94 || b == 58 || b == 63 || b == 42 || b == 91
            || b == 92 {
            assert(!name_byte_ok(n@[i as int]));
            return false;
        }
        i += 1;
    }
    true
}

// ---------------------------------------------------------------------
// Contents
// ---------------------------------------------------------------------

/// What a ref's file says.
pub enum RefContent {
    Symbolic(Seq<u8>),
    Id(Seq<u8>),
    Invalid,
}

/// `s` without a line feed at its end.
pub open spec fn chomp(s: Seq<u8>) -> Seq<u8> {
    if s.len() > 0 && s.last() == LF {
        s.drop_last()
    } else {
        s
    }
}

/// What the contents of a ref's file say.
pub open spec fn ref_content(c: Seq<u8>) -> RefContent {
    let t = chomp(c);
    if t.len() == 0 {
        RefContent::Invalid
    } else if ascii("ref: "@).is_prefix_of(t) {
        RefContent::Symbolic(t.skip(5))
    } else {
        match id_from_hex(t) {
            Some(id) => RefContent::Id(id),
            None => RefContent::Invalid,
        }
    }
}

/// A parsed ref file.
enum Parsed<'a> {
    Symbolic(&'a [u8]),
    Id(ObjectId),
    Invalid,
}

/// `s` without a line feed at its end.
pub fn strip_lf(s: &[u8]) -> (r: &[u8])
    ensures
        r@ == chomp(s@),
{
    let n: usize = s.len();
    if n > 0 && s[n - 1] == LF {
        assert(s@.subrange(0, n - 1) =~= s@.drop_last());
        &s[0..n - 1]
    } else {
        s
    }
}

/// Parses the contents of a ref's file.
fn parse_ref<'a>(c: &'a [u8]) -> (r: Parsed<'a>)
    ensures
        match r {
            Parsed::Symbolic(t) => ref_content(c@) == RefContent::Symbolic(t@),
            Parsed::Id(id) => ref_content(c@) == RefContent::Id(id@),
            Parsed::Invalid => ref_content(c@) == RefContent::Invalid,
        },
{
    proof {
        reveal_strlit("ref: ");
    }
    let t = strip_lf(c);
    if t.len() == 0 {
        return Parsed::Invalid;
    }
    if has_prefix(t, text("ref: ")) {
        assert(t@.subrange(5, t@.len() as int) =~= t@.skip(5));
        return Parsed::Symbolic(&t[5..t.len()]);
    }
    match ObjectId::from_hex_bytes(t) {
        Ok(id) => Parsed::Id(id),
        Err(_) => Parsed::Invalid,
    }
}

// ---------------------------------------------------------------------
// Packed refs
// ---------------------------------------------------------------------

/// A line without its line ending: a line feed, or a carriage return and a
/// line feed.
pub open spec fn bare_line(l: Seq<u8>) -> Seq<u8> {
    let t = chomp(l);
    if t.len() < l.len() && t.len() > 0 && t.last() == CR {
        t.drop_last()
    } else {
        t
    }
}

/// The ref that a line of `packed-refs` states; none for blank lines,
/// comments, peeled tags and malformed lines.
pub open spec fn packed_line(l: Seq<u8>) -> Option<(Seq<u8>, Seq<u8>)> {
    let t = bare_line(l);
    let sp = upto(t, SPACE);
    if t.len() == 0 || t[0] == 35 || t[0] == 94 || sp == t.len() {
        None
    } else if id_from_hex(t.take(sp)) is None || !valid_name(t.skip(sp + 1)) {
        None
    } else {
        Some((t.skip(sp + 1), id_from_hex(t.take(sp))->0))
    }
}

/// The refs that the lines of `packed-refs` state; of two lines for one
/// name the later counts.
pub open spec fn packed_map(ls: Seq<Seq<u8>>) -> Map<Seq<u8>, Seq<u8>>
    decreases ls.len(),
{
    if ls.len() == 0 {
        Map::empty()
    } else {
        match packed_line(ls.last()) {
            Some((name, id)) => packed_map(ls.drop_last()).insert(name, id),
            None => packed_map(ls.drop_last()),
        }
    }
}

/// The packed refs of a git directory.
pub open spec fn packed_refs_of(git: DirView<Seq<u8>>) -> Result<Map<Seq<u8>, Seq<u8>>, IoError> {
    match git.read(ascii("packed-refs"@)) {
        Ok(c) => if valid_utf8(c) {
            Ok(packed_map(lines(c)))
        } else {
            Err(IoError::InvalidData)
        },
        Err(IoError::NotFound) => Ok(Map::empty()),
        Err(e) => Err(e),
    }
}

/// A line without its line ending.
pub fn strip_line(l: &[u8]) -> (r: &[u8])
    ensures
        r@ == bare_line(l@),
{
    let t = strip_lf(l);
    let n: usize = t.len();
    if n < l.len() && n > 0 && t[n - 1] == CR {
        assert(t@.subrange(0, n - 1) =~= t@.drop_last());
        &t[0..n - 1]
    } else {
        t
    }
}

/// Parses a line of `packed-refs`.
fn parse_packed_line<'a>(l: &'a [u8]) -> (r: Option<(&'a [u8], ObjectId)>)
    ensures
        match r {
            Some((name, id)) => packed_line(l@) == Some((name@, id@)),
            None => packed_line(l@) is None,
        },
{
    let t = strip_line(l);
    if t.len() == 0 || t[0] == 35 || t[0] == 94 {
        return None;
    }
    let sp: usize = find(t, SPACE);
    if sp == t.len() {
        return None;
    }
    assert(t@.subrange(0, sp as int) =~= t@.take(sp as int));
    assert(t@.subrange(sp + 1, t@.len() as int) =~= t@.skip(sp + 1));
    let name = &t[sp + 1..t.len()];
    match ObjectId::from_hex_bytes(&t[0..sp]) {
        Ok(id) => if is_valid_name(name) {
            Some((name, id))
        } else {
            None
        },
        Err(_) => None,
    }
}

/// Loads the packed refs of a git directory.
pub fn load_packed_refs(git: &Dir<Vec<u8>>) -> (r: Result<ByteMap<ObjectId>, RefError>)
    ensures
        match r {
            Ok(m) => packed_refs_of(git@) == Ok::<_, IoError>(m@),
            Err(e) => packed_refs_of(git@) matches Err(x) && e@ == RefErrorView::Io(x),
        },
{
    proof {
        reveal_strlit("packed-refs");
    }
    let content = match git.read(text("packed-refs")) {
        Ok(c) => c,
        Err(IoError::NotFound) => return Ok(ByteMap::new()),
        Err(e) => return Err(RefError::Io(e)),
    };
    if !is_utf8(content) {
        return Err(RefError::Io(IoError::InvalidData));
    }
    let ls = split_lines(content);
    let ghost v = lines_view(ls@);
    let mut m: ByteMap<ObjectId> = ByteMap::new();
    let mut i: usize = 0;
    assert(v.take(0) =~= Seq::<Seq<u8>>::empty());
    while i < ls.len()
        invariant
            i <= ls@.len(),
            v == lines_view(ls@),
            m@ == packed_map(v.take(i as int)),
        decreases ls.len() - i,
    {
        proof {
            assert(v.take(i + 1).drop_last() =~= v.take(i as int));
            assert(v.take(i + 1).last() == ls@[i as int]@);
        }
        if let Some((name, id)) = parse_packed_line(ls[i]) {
            m.put(name, id);
        }
        i += 1;
    }
    assert(v.take(i as int) =~= v);
    Ok(m)
}

// ---------------------------------------------------------------------
// Reading
// ---------------------------------------------------------------------

/// The id that a ref leads to, symbolic refs followed, or why it leads to
/// none.
pub open spec fn ref_target(
    git: DirView<Seq<u8>>,
    packed: Map<Seq<u8>, Seq<u8>>,
    name: Seq<u8>,
    depth: nat,
) -> Result<Seq<u8>, RefErrorView>
    decreases MAX_SYMREF_DEPTH + 1 - depth,
{
    if depth > MAX_SYMREF_DEPTH {
        Err(RefErrorView::SymRefLoop(MAX_SYMREF_DEPTH as nat))
    } else {
        match git.read(name) {
            Ok(c) => if !valid_utf8(c) {
                Err(RefErrorView::Io(IoError::InvalidData))
            } else {
                match ref_content(c) {
                    RefContent::Invalid => Err(RefErrorView::InvalidRefContent(text_of(name))),
                    RefContent::Id(id) => Ok(id),
                    RefContent::Symbolic(target) => if valid_name(target) {
                        ref_target(git, packed, target, depth + 1)
                    } else {
                        Err(RefErrorView::InvalidRefName(text_of(target)))
                    },
                }
            },
            Err(IoError::NotFound) => if packed.contains_key(name) {
                Ok(packed[name])
            } else {
                Err(RefErrorView::RefNotFound(text_of(name)))
            },
            Err(e) => Err(RefErrorView::Io(e)),
        }
    }
}

/// The id that a ref with the given name leads to. Names that no ref may
/// have are refused before anything is read.
pub open spec fn ref_value(repo: RepoView, name: Seq<u8>) -> Result<Seq<u8>, RefErrorView> {
    if valid_name(name) {
        ref_target(repo.git, repo.packed_refs, name, 0)
    } else {
        Err(RefErrorView::InvalidRefName(text_of(name)))
    }
}

/// What HEAD points at, or why that cannot be told.
pub open spec fn head_value(git: DirView<Seq<u8>>) -> Result<HeadView, RefErrorView> {
    match git.read(ascii("HEAD"@)) {
        Ok(c) => if !valid_utf8(c) {
            Err(RefErrorView::Io(IoError::InvalidData))
        } else {
            match ref_content(c) {
                RefContent::Invalid => Err(RefErrorView::InvalidRefContent("HEAD"@)),
                RefContent::Id(id) => Ok(HeadView::Detached(id)),
                RefContent::Symbolic(target) => Ok(HeadView::Symbolic(text_of(target))),
            }
        },
        Err(IoError::NotFound) => Err(RefErrorView::RefNotFound("HEAD"@)),
        Err(e) => Err(RefErrorView::Io(e)),
    }
}

/// Reads a ref at a depth of symbolic refs.
fn read_ref_at_depth(
    git: &Dir<Vec<u8>>,
    packed: &ByteMap<ObjectId>,
    name: &[u8],
    depth: usize,
) -> (r: Result<ObjectId, RefError>)
    requires
        depth <= MAX_SYMREF_DEPTH + 1,
    ensures
        match r {
            Ok(id) => ref_target(git@, packed@, name@, depth as nat) == Ok::<_, RefErrorView>(id@),
            Err(e) => ref_target(git@, packed@, name@, depth as nat) == Err::<Seq<u8>, _>(e@),
        },
    decreases MAX_SYMREF_DEPTH + 1 - depth,
{
    if depth > MAX_SYMREF_DEPTH {
        return Err(RefError::SymRefLoop(MAX_SYMREF_DEPTH));
    }
    match git.read(name) {
        Ok(c) => {
            if !is_utf8(c) {
                return Err(RefError::Io(IoError::InvalidData));
            }
            match parse_ref(c) {
                Parsed::Invalid => Err(RefError::InvalidRefContent(lossy_string(name))),
                Parsed::Id(id) => Ok(id),
                Parsed::Symbolic(target) => if is_valid_name(target) {
                    read_ref_at_depth(git, packed, target, depth + 1)
                } else {
                    Err(RefError::InvalidRefName(lossy_string(target)))
                },
            }
        },
        Err(IoError::NotFound) => match packed.get(name) {
            Some(id) => Ok(*id),
            None => Err(RefError::RefNotFound(lossy_string(name))),
        },
        Err(e) => Err(RefError::Io(e)),
    }
}

// ---------------------------------------------------------------------
// Listing
// ---------------------------------------------------------------------

/// The name of the loose ref at `path`.
pub open spec fn loose_name(path: Seq<u8>) -> Seq<u8> {
    encode_utf8(text_of(path))
}

/// Whether the file at `path` counts in a listing of refs with a prefix.
pub open spec fn listed(path: Seq<u8>, prefix: Seq<u8>) -> bool {
    ascii("refs/"@).is_prefix_of(path) && prefix.is_prefix_of(loose_name(path))
}

/// The refs of a list of files, loose ones over those in `base`; `None` if
/// one of the files is not valid UTF-8.
pub open spec fn listing(
    files: Map<Seq<u8>, Seq<u8>>,
    paths: Seq<Seq<u8>>,
    prefix: Seq<u8>,
    base: Map<Seq<u8>, Seq<u8>>,
) -> Option<Map<Seq<u8>, Seq<u8>>>
    decreases paths.len(),
{
    if paths.len() == 0 {
        Some(base)
    } else {
        let path = paths.last();
        match listing(files, paths.drop_last(), prefix, base) {
            None => None,
            Some(m) => if !listed(path, prefix) {
                Some(m)
            } else if !valid_utf8(files[path]) {
                None
            } else {
                match ref_content(files[path]) {
                    RefContent::Id(id) => Some(m.insert(loose_name(path), id)),
                    _ => Some(m),
                }
            },
        }
    }
}

/// The packed refs with a prefix.
pub open spec fn packed_with_prefix(packed: Map<Seq<u8>, Seq<u8>>, prefix: Seq<u8>) -> Map<
    Seq<u8>,
    Seq<u8>,
> {
    packed.restrict(Set::new(|n: Seq<u8>| prefix.is_prefix_of(n)))
}

/// What a list of names and ids says.
pub open spec fn refs_view(v: Seq<(String, ObjectId)>) -> Seq<(Seq<char>, Seq<u8>)> {
    v.map_values(|x: (String, ObjectId)| (x.0@, x.1@))
}

/// A map of refs as a list by ascending name.
pub open spec fn ref_pairs(m: Map<Seq<u8>, Seq<u8>>) -> Seq<(Seq<char>, Seq<u8>)> {
    sorted_keys(m.dom()).map_values(|n: Seq<u8>| (text_of(n), m[n]))
}

/// The refs with a prefix by ascending name, or why they cannot be listed.
/// Loose refs go before packed ones of the same name.
pub open spec fn refs_listed(repo: RepoView, prefix: Seq<u8>) -> Result<
    Seq<(Seq<char>, Seq<u8>)>,
    RefErrorView,
> {
    match listing(
        repo.git.files,
        sorted_keys(repo.git.files.dom()),
        prefix,
        packed_with_prefix(repo.packed_refs, prefix),
    ) {
        None => Err(RefErrorView::Io(IoError::InvalidData)),
        Some(m) => Ok(ref_pairs(m)),
    }
}

/// A file that is not valid UTF-8 makes the listing fail.
proof fn listing_fails(
    files: Map<Seq<u8>, Seq<u8>>,
    paths: Seq<Seq<u8>>,
    prefix: Seq<u8>,
    base: Map<Seq<u8>, Seq<u8>>,
    k: int,
)
    requires
        0 <= k <= paths.len(),
        listing(files, paths.take(k), prefix, base) is None,
    ensures
        listing(files, paths, prefix, base) is None,
    decreases paths.len(),
{
    if k == paths.len() {
        assert(paths.take(k) =~= paths);
    } else {
        assert(paths.drop_last().take(k) =~= paths.take(k));
        listing_fails(files, paths.drop_last(), prefix, base, k);
    }
}

/// Copies the packed refs with a prefix.
fn copy_with_prefix(packed: &ByteMap<ObjectId>, prefix: &[u8]) -> (r: ByteMap<ObjectId>)
    ensures
        r@ == packed_with_prefix(packed@, prefix@),
{
    let mut out: ByteMap<ObjectId> = ByteMap::new();
    let n: usize = packed.count();
    let ghost keys = packed.keys();
    let mut i: usize = 0;
    while i < n
        invariant
            i <= n,
            n == keys.len(),
            keys == packed.keys(),
            forall|p: Seq<u8>| #[trigger] packed@.contains_key(p) <==> keys.contains(p),
            forall|p: Seq<u8>| #[trigger]
                out@.contains_key(p) <==> keys.take(i as int).contains(p) && prefix@.is_prefix_of(
                    p,
                ),
            forall|p: Seq<u8>| #[trigger] out@.contains_key(p) ==> out@[p] == packed@[p],
        decreases n - i,
    {
        let key = packed.key(i);
        let id = packed.value(i);
        let ghost before = out@;
        proof {
            let t = keys.take(i + 1);
            assert(t =~= keys.take(i as int).push(keys[i as int]));
            assert forall|p: Seq<u8>| t.contains(p) <==> keys.take(i as int).contains(p) || p
                == keys[i as int] by {
                if t.contains(p) {
                    let k = choose|k: int| 0 <= k < t.len() && t[k] == p;
                    if k < i {
                        assert(keys.take(i as int)[k] == p);
                    }
                }
                if keys.take(i as int).contains(p) {
                    let k = choose|k: int| 0 <= k < i && keys.take(i as int)[k] == p;
                    assert(t[k] == p);
                }
                assert(t[i as int] == keys[i as int]);
            }
        }
        if has_prefix(key, prefix) {
            out.put(key, *id);
        }
        i += 1;
    }
    proof {
        assert(keys.take(i as int) =~= keys);
        assert(out@ =~= packed_with_prefix(packed@, prefix@));
    }
    out
}

/// The refs of a map as a list.
fn ref_list(m: &ByteMap<ObjectId>) -> (r: Vec<(String, ObjectId)>)
    ensures
        refs_view(r@) == ref_pairs(m@),
{
    let mut out: Vec<(String, ObjectId)> = Vec::new();
    let n: usize = m.count();
    let ghost keys = m.keys();
    let ghost goal = keys.map_values(|n: Seq<u8>| (text_of(n), m@[n]));
    let mut i: usize = 0;
    assert(refs_view(out@) =~= goal.take(0));
    while i < n
        invariant
            i <= n,
            n == keys.len(),
            keys == m.keys(),
            goal == keys.map_values(|n: Seq<u8>| (text_of(n), m@[n])),
            refs_view(out@) == goal.take(i as int),
        decreases n - i,
    {
        let name = lossy_string(m.key(i));
        let id: ObjectId = *m.value(i);
        let ghost before = out@;
        let ghost x = (name@, id@);
        out.push((name, id));
        proof {
            assert(refs_view(out@) =~= refs_view(before).push(x));
            assert(goal.take(i + 1) =~= goal.take(i as int).push(goal[i as int]));
        }
        i += 1;
    }
    proof {
        assert(goal.take(i as int) =~= goal);
    }
    out
}

// ---------------------------------------------------------------------
// Repository methods
// ---------------------------------------------------------------------

impl Repository {
    /// Reads a ref by full name. Symbolic refs are followed.
    pub fn read_ref(&self, name: &str) -> (r: Result<ObjectId, RefError>)
        ensures
            match r {
                Ok(id) => ref_value(self@, encode_utf8(name@)) == Ok::<_, RefErrorView>(id@),
                Err(e) => ref_value(self@, encode_utf8(name@)) == Err::<Seq<u8>, _>(e@),
            },
    {
        self.read_ref_bytes(name.as_bytes())
    }

    /// Reads a ref by full name, given as bytes.
    pub fn read_ref_bytes(&self, name: &[u8]) -> (r: Result<ObjectId, RefError>)
        ensures
            match r {
                Ok(id) => ref_value(self@, name@) == Ok::<_, RefErrorView>(id@),
                Err(e) => ref_value(self@, name@) == Err::<Seq<u8>, _>(e@),
            },
    {
        if !is_valid_name(name) {
            return Err(RefError::InvalidRefName(lossy_string(name)));
        }
        read_ref_at_depth(self.git(), self.packed_refs(), name, 0)
    }

    /// Reads HEAD.
    pub fn read_head(&self) -> (r: Result<HeadState, RefError>)
        ensures
            match r {
                Ok(h) => head_value(self@.git) == Ok::<_, RefErrorView>(h@),
                Err(e) => head_value(self@.git) == Err::<HeadView, _>(e@),
            },
    {
        proof {
            reveal_strlit("HEAD");
        }
        match self.git().read(text("HEAD")) {
            Ok(c) => {
                if !is_utf8(c) {
                    return Err(RefError::Io(IoError::InvalidData));
                }
                match parse_ref(c) {
                    Parsed::Invalid => Err(RefError::InvalidRefContent("HEAD".to_owned())),
                    Parsed::Id(id) => Ok(HeadState::Detached(id)),
                    Parsed::Symbolic(target) => Ok(HeadState::Symbolic(lossy_string(target))),
                }
            },
            Err(IoError::NotFound) => Err(RefError::RefNotFound("HEAD".to_owned())),
            Err(e) => Err(RefError::Io(e)),
        }
    }

    /// Writes a loose ref.
    pub fn write_ref(&mut self, name: &str, id: &ObjectId) -> (r: Result<(), RefError>)
        ensures
            ref_written(old(self)@, encode_utf8(name@), hex(id@).push(LF)) == (
                final(self)@,
                ref_fault(r),
            ),
    {
        self.write_ref_file(name.as_bytes(), id_line(id))
    }

    /// Writes the file of a ref.
    fn write_ref_file(&mut self, name: &[u8], line: Vec<u8>) -> (r: Result<(), RefError>)
        ensures
            ref_written(old(self)@, name@, line@) == (final(self)@, ref_fault(r)),
    {
        if !is_valid_name(name) {
            return Err(RefError::InvalidRefName(lossy_string(name)));
        }
        match self.git_mut().write(name, line) {
            Ok(_) => Ok(()),
            Err(e) => Err(RefError::Io(e)),
        }
    }

    /// Points HEAD at a branch.
    pub fn set_head_symbolic(&mut self, target: &str) -> (r: Result<(), RefError>)
        ensures
            head_pointed(old(self)@, encode_utf8(target@)) == (final(self)@, ref_fault(r)),
    {
        proof {
            reveal_strlit("refs/");
            reveal_strlit("ref: ");
            reveal_strlit("HEAD");
        }
        let t = target.as_bytes();
        proof {
            text_of_encoded(target@);
        }
        if !has_prefix(t, text("refs/")) || !is_valid_name(t) {
            return Err(RefError::InvalidRefName(target.to_owned()));
        }
        let mut line: Vec<u8> = Vec::new();
        push_text(&mut line, "ref: ");
        push_all(&mut line, t);
        line.push(LF);
        assert(line@ =~= (ascii("ref: "@) + t@).push(LF));
        self.write_ref_file(text("HEAD"), line)
    }

    /// Detaches HEAD at a commit.
    pub fn set_head_detached(&mut self, id: &ObjectId) -> (r: Result<(), RefError>)
        ensures
            ref_written(old(self)@, ascii("HEAD"@), hex(id@).push(LF)) == (
                final(self)@,
                ref_fault(r),
            ),
    {
        proof {
            reveal_strlit("HEAD");
        }
        self.write_ref_file(text("HEAD"), id_line(id))
    }

    /// Deletes a loose ref.
    pub fn delete_ref(&mut self, name: &str) -> (r: Result<(), RefError>)
        ensures
            match r {
                Ok(_) => {
                    let n = encode_utf8(name@);
                    &&& n != ascii("HEAD"@)
                    &&& valid_name(n)
                    &&& old(self)@.git.files.contains_key(n)
                    &&& final(self)@ == (RepoView { git: old(self)@.git.without(n), ..old(self)@ })
                },
                Err(e) => delete_fault(old(self)@, encode_utf8(name@)) == Some(e@) && final(self)@
                    == old(self)@,
            },
    {
        proof {
            reveal_strlit("HEAD");
        }
        let n = name.as_bytes();
        proof {
            text_of_encoded(name@);
        }
        if same_bytes(n, text("HEAD")) {
            return Err(RefError::CannotDeleteHead);
        }
        if !is_valid_name(n) {
            return Err(RefError::InvalidRefName(name.to_owned()));
        }
        match self.git_mut().remove_file(n) {
            Ok(_) => Ok(()),
            Err(IoError::NotFound) => if self.packed_refs().has(n) {
                Err(RefError::CannotDeletePackedOnly(name.to_owned()))
            } else {
                Err(RefError::RefNotFound(name.to_owned()))
            },
            Err(e) => Err(RefError::Io(e)),
        }
    }

    /// Lists the refs whose names begin with `prefix`, by ascending name.
    /// Loose refs go before packed ones of the same name; symbolic refs and
    /// malformed files are left out.
    pub fn list_refs(&self, prefix: &str) -> (r: Result<Vec<(String, ObjectId)>, RefError>)
        ensures
            match r {
                Ok(v) => refs_listed(self@, encode_utf8(prefix@)) == Ok::<_, RefErrorView>(
                    refs_view(v@),
                ),
                Err(e) => refs_listed(self@, encode_utf8(prefix@)) == Err::<
                    Seq<(Seq<char>, Seq<u8>)>,
                    _,
                >(e@),
            },
    {
        proof {
            reveal_strlit("refs/");
        }
        let p = prefix.as_bytes();
        let mut m = copy_with_prefix(self.packed_refs(), p);
        let files = self.git().files();
        let n: usize = files.count();
        let ghost paths = files.keys();
        let ghost base = m@;
        let ghost fm = self@.git.files;
        let mut i: usize = 0;
        assert(paths.take(0) =~= Seq::<Seq<u8>>::empty());
        while i < n
            invariant
                i <= n,
                n == paths.len(),
                paths == files.keys(),
                fm == files@,
                fm == self@.git.files,
                p@ == encode_utf8(prefix@),
                base == packed_with_prefix(self@.packed_refs, p@),
                paths == sorted_keys(fm.dom()),
                vstd::utf8::is_ascii_chars("refs/"@),
                listing(fm, paths.take(i as int), p@, base) == Some(m@),
            decreases n - i,
        {
            let path = files.key(i);
            proof {
                assert(paths.take(i + 1).drop_last() =~= paths.take(i as int));
                assert(paths.take(i + 1).last() == path@);
            }
            if has_prefix(path, text("refs/")) {
                let name = lossy_string(path);
                let bytes = name.as_str().as_bytes();
                if has_prefix(bytes, p) {
                    let content = files.value(i);
                    if !is_utf8(content) {
                        proof {
                            listing_fails(fm, paths, p@, base, i + 1);
                        }
                        return Err(RefError::Io(IoError::InvalidData));
                    }
                    if let Parsed::Id(id) = parse_ref(content) {
                        m.put(bytes, id);
                    }
                }
            }
            i += 1;
        }
        assert(paths.take(i as int) =~= paths);
        Ok(ref_list(&m))
    }
}

/// The repository after writing the file of a ref, and what went wrong, if
/// anything. A name that no ref may have is refused; where the path cannot
/// be written, nothing changes.
pub open spec fn ref_written(repo: RepoView, name: Seq<u8>, line: Seq<u8>) -> (
    RepoView,
    Option<RefErrorView>,
) {
    if !valid_name(name) {
        (repo, Some(RefErrorView::InvalidRefName(text_of(name))))
    } else {
        match repo.git.write_fault(name) {
            Some(e) => (repo, Some(RefErrorView::Io(e))),
            None => (RepoView { git: repo.git.written(name, line), ..repo }, None),
        }
    }
}

/// The repository after pointing HEAD at a ref, and what went wrong, if
/// anything. Only names below `refs/` can be pointed at.
pub open spec fn head_pointed(repo: RepoView, target: Seq<u8>) -> (RepoView, Option<RefErrorView>) {
    if ascii("refs/"@).is_prefix_of(target) && valid_name(target) {
        ref_written(repo, ascii("HEAD"@), (ascii("ref: "@) + target).push(LF))
    } else {
        (repo, Some(RefErrorView::InvalidRefName(text_of(target))))
    }
}

/// What a result says of the outcome.
pub open spec fn ref_fault(r: Result<(), RefError>) -> Option<RefErrorView> {
    match r {
        Ok(_) => None,
        Err(e) => Some(e@),
    }
}

/// Why a ref cannot be deleted, if it cannot.
pub open spec fn delete_fault(repo: RepoView, name: Seq<u8>) -> Option<RefErrorView> {
    if name == ascii("HEAD"@) {
        Some(RefErrorView::CannotDeleteHead)
    } else if !valid_name(name) {
        Some(RefErrorView::InvalidRefName(text_of(name)))
    } else if repo.git.files.contains_key(name) {
        None
    } else {
        match repo.git.why_not(name) {
            IoError::NotFound => if repo.packed_refs.contains_key(name) {
                Some(RefErrorView::CannotDeletePackedOnly(text_of(name)))
            } else {
                Some(RefErrorView::RefNotFound(text_of(name)))
            },
            e => Some(RefErrorView::Io(e)),
        }
    }
}

/// The line that a ref's file holds for an id.
fn id_line(id: &ObjectId) -> (r: Vec<u8>)
    ensures
        r@ == hex(id@).push(LF),
{
    let mut line = id.to_hex_bytes();
    line.push(LF);
    line
}

} // verus!
