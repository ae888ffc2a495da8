//! Opening and creating repositories, and taking packs in.

use vstd::prelude::*;
use vstd::string::StringExecFns;

use super::{opt_string, packs_view, OdbError, OdbErrorView, RepoView, Repository};
use crate::bytemap::{sorted_keys, ByteMap};
use crate::bytes::{
    ascii, bytes_lt, has_byte, has_prefix, lex_lt, push_all, push_text, text, to_vec, SLASH,
};
use crate::dir::{Dir, DirView};
use crate::files::{Files, IoError};
use crate::notation::hex;
use crate::object::ObjectId;
use crate::pack::idx::idx_bytes;
use crate::pack::indexing::{index_pack, pack_index};
use crate::pack::{
    idx_path, index_path, opened_pack, pack_hash, Pack, PackError, PackErrorView, PackView,
};
use crate::refs::{ends_with, has_suffix, load_packed_refs, packed_refs_of, RefErrorView};
use crate::worktree::{WorkFileView, WorkTree};

verus! {

// ---------------------------------------------------------------------
// Finding the git directory
// ---------------------------------------------------------------------

/// What stands at the places that make a git directory.
#[derive(Clone, Copy, Debug, PartialEq, Eq, Structural)]
pub struct GitDirFacts {
    pub head_is_file: bool,
    pub objects_is_dir: bool,
    pub refs_is_dir: bool,
}

impl GitDirFacts {
    /// Whether they make a git directory.
    pub open spec fn valid(self) -> bool {
        self.head_is_file && self.objects_is_dir && self.refs_is_dir
    }
}

/// A directory on the way up from where a repository is looked for.
#[derive(Clone, Copy, Debug, PartialEq, Eq, Structural)]
pub struct Candidate {
    /// The device that the directory is on.
    pub device: u64,
    /// The facts about its `.git`.
    pub dot_git: GitDirFacts,
    /// The facts about the directory itself.
    pub itself: GitDirFacts,
}

/// Where a repository is found.
#[derive(Clone, Copy, Debug, PartialEq, Eq, Structural)]
pub struct Located {
    /// The position of the directory on the way up.
    pub level: usize,
    /// Whether the directory itself is the git directory.
    pub bare: bool,
}

/// Whether the directory holds a repository.
pub open spec fn holds_repository(c: Candidate) -> bool {
    c.dot_git.valid() || c.itself.valid()
}

/// Whether all directories up to level `k` are on one device and none
/// before level `k` holds a repository.
pub open spec fn reaches(way: Seq<Candidate>, k: int) -> bool {
    &&& 0 <= k < way.len()
    &&& forall|i: int|
        0 <= i <= k ==> (#[trigger] way[i]).device == way[0].device
    &&& forall|i: int| 0 <= i < k ==> !holds_repository(#[trigger] way[i])
}

/// Finds the repository on the way up: the first directory that has a valid
/// `.git` or is a git directory itself. The search ends where the device
/// changes.
pub fn locate(way: &Vec<Candidate>) -> (r: Option<Located>)
    ensures
        match r {
            Some(l) => reaches(way@, l.level as int) && holds_repository(way@[l.level as int])
                && l.bare == !way@[l.level as int].dot_git.valid(),
            None => forall|k: int|
                #![trigger way@[k]]
                reaches(way@, k) ==> !holds_repository(way@[k]),
        },
{
    let mut i: usize = 0;
    while i < way.len()
        invariant
            i <= way@.len(),
            forall|k: int| 0 <= k < i ==> (#[trigger] way@[k]).device == way@[0].device,
            forall|k: int| 0 <= k < i ==> !holds_repository(#[trigger] way@[k]),
        decreases way.len() - i,
    {
        let c: Candidate = way[i];
        if c.device != way[0].device {
            assert forall|k: int|
                #![trigger way@[k]]
                reaches(way@, k) implies !holds_repository(way@[k]) by {
                if k >= i {
                    assert(way@[i as int].device == way@[0].device);
                }
            }
            return None;
        }
        let dot_git = c.dot_git.head_is_file && c.dot_git.objects_is_dir && c.dot_git.refs_is_dir;
        if dot_git {
            return Some(Located { level: i, bare: false });
        }
        if c.itself.head_is_file && c.itself.objects_is_dir && c.itself.refs_is_dir {
            return Some(Located { level: i, bare: true });
        }
        i += 1;
    }
    None
}

/// Whether a directory is a git directory.
pub open spec fn valid_git_dir(git: DirView<Seq<u8>>) -> bool {
    &&& git.files.contains_key(ascii("HEAD"@))
    &&& git.is_dir(ascii("objects"@))
    &&& git.is_dir(ascii("refs"@))
}

/// The names of a git directory's parts are ASCII.
proof fn part_names()
    ensures
        vstd::utf8::is_ascii_chars("HEAD"@),
        vstd::utf8::is_ascii_chars("objects"@),
        vstd::utf8::is_ascii_chars("refs"@),
        vstd::utf8::is_ascii_chars("refs/heads"@),
        vstd::utf8::is_ascii_chars("refs/tags"@),
        vstd::utf8::is_ascii_chars("objects/pack/"@),
        vstd::utf8::is_ascii_chars("objects/pack/pack-"@),
        vstd::utf8::is_ascii_chars(".pack"@),
        vstd::utf8::is_ascii_chars(".idx"@),
        vstd::utf8::is_ascii_chars("ref: refs/heads/main\n"@),
        ascii("objects/pack/"@).len() == 13,
        ascii(".pack"@).len() == 5,
{
    reveal_strlit("HEAD");
    reveal_strlit("objects");
    reveal_strlit("refs");
    reveal_strlit("refs/heads");
    reveal_strlit("refs/tags");
    reveal_strlit("objects/pack/");
    reveal_strlit("objects/pack/pack-");
    reveal_strlit(".pack");
    reveal_strlit(".idx");
    reveal_strlit("ref: refs/heads/main\n");
}

/// Whether a directory is a git directory.
pub fn is_valid_git_dir(git: &Dir<Vec<u8>>) -> (r: bool)
    ensures
        r <==> valid_git_dir(git@),
{
    proof {
        part_names();
    }
    git.files().has(text("HEAD")) && git.is_dir(text("objects")) && git.is_dir(text("refs"))
}

// ---------------------------------------------------------------------
// Packs
// ---------------------------------------------------------------------

/// Whether the path is that of a pack: a file right in the pack directory
/// with the extension `pack`.
pub open spec fn is_pack_path(path: Seq<u8>) -> bool {
    &&& ascii("objects/pack/"@).is_prefix_of(path)
    &&& !path.skip(13).contains(SLASH)
    &&& path.len() > 18
    &&& ends_with(path, ascii(".pack"@))
}

/// The pack paths of a list.
pub open spec fn pack_paths(paths: Seq<Seq<u8>>) -> Seq<Seq<u8>>
    decreases paths.len(),
{
    if paths.len() == 0 {
        paths
    } else if is_pack_path(paths.last()) {
        pack_paths(paths.drop_last()).push(paths.last())
    } else {
        pack_paths(paths.drop_last())
    }
}

/// The directory with an index built for each of the first `n` packs that
/// has none, or why one cannot be built.
pub open spec fn with_indexes(git: DirView<Seq<u8>>, packs: Seq<Seq<u8>>, n: nat) -> Result<
    DirView<Seq<u8>>,
    PackErrorView,
>
    decreases n,
{
    if n == 0 {
        Ok(git)
    } else {
        match with_indexes(git, packs, (n - 1) as nat) {
            Err(e) => Err(e),
            Ok(g) => with_index(g, packs[n - 1]),
        }
    }
}

/// The directory with an index for the pack.
pub open spec fn with_index(git: DirView<Seq<u8>>, pack: Seq<u8>) -> Result<
    DirView<Seq<u8>>,
    PackErrorView,
> {
    let idx = idx_path(pack);
    if git.exists_at(idx) {
        Ok(git)
    } else if !git.files.contains_key(pack) {
        Err(PackErrorView::Io(IoError::NotFound))
    } else {
        match pack_index(git.files[pack]) {
            Err(e) => Err(e),
            Ok(es) => match git.write_fault(idx) {
                Some(e) => Err(PackErrorView::Io(e)),
                None => Ok(git.written(idx, idx_bytes(es, pack_hash(git.files[pack])->Ok_0))),
            },
        }
    }
}

/// When a pack was changed last; 0 if that is not known.
pub open spec fn mtime(times: Map<Seq<u8>, u64>, path: Seq<u8>) -> u64 {
    if times.contains_key(path) {
        times[path]
    } else {
        0
    }
}

/// Whether pack `a` is searched before pack `b`: the newer one, and of two
/// that are as old the one whose name comes first.
pub open spec fn searched_before(times: Map<Seq<u8>, u64>, a: Seq<u8>, b: Seq<u8>) -> bool {
    mtime(times, a) > mtime(times, b) || (mtime(times, a) == mtime(times, b) && lex_lt(a, b))
}

/// `p` put behind the last pack that it is not searched before.
pub open spec fn insert_pack(times: Map<Seq<u8>, u64>, ps: Seq<Seq<u8>>, p: Seq<u8>) -> Seq<Seq<u8>>
    decreases ps.len(),
{
    if ps.len() == 0 || !searched_before(times, p, ps.last()) {
        ps.push(p)
    } else {
        insert_pack(times, ps.drop_last(), p).push(ps.last())
    }
}

/// The packs in the order they are searched.
pub open spec fn search_order(times: Map<Seq<u8>, u64>, ps: Seq<Seq<u8>>) -> Seq<Seq<u8>>
    decreases ps.len(),
{
    if ps.len() == 0 {
        ps
    } else {
        insert_pack(times, search_order(times, ps.drop_last()), ps.last())
    }
}

/// The first `n` packs of a list opened, or why one cannot be opened.
pub open spec fn open_packs(files: Map<Seq<u8>, Seq<u8>>, ps: Seq<Seq<u8>>, n: nat) -> Result<
    Seq<PackView>,
    PackErrorView,
>
    decreases n,
{
    if n == 0 {
        Ok(Seq::empty())
    } else {
        match open_packs(files, ps, (n - 1) as nat) {
            Err(e) => Err(e),
            Ok(done) => match opened_pack(files, ps[n - 1]) {
                Err(e) => Err(e),
                Ok(p) => Ok(done.push(p)),
            },
        }
    }
}

/// The directory with all indexes, and its packs in the order they are
/// searched.
pub open spec fn discovered(git: DirView<Seq<u8>>, times: Map<Seq<u8>, u64>) -> Result<
    (DirView<Seq<u8>>, Seq<PackView>),
    PackErrorView,
> {
    let ps = pack_paths(sorted_keys(git.files.dom()));
    match with_indexes(git, ps, ps.len()) {
        Err(e) => Err(e),
        Ok(g) => match open_packs(g.files, search_order(times, ps), search_order(times, ps).len()) {
            Err(e) => Err(e),
            Ok(packs) => Ok((g, packs)),
        },
    }
}

/// The bytes of a list of paths.
pub open spec fn paths_view(ps: Seq<Vec<u8>>) -> Seq<Seq<u8>> {
    ps.map_values(|p: Vec<u8>| p@)
}

/// Tests for the path of a pack.
fn is_pack_file(path: &[u8]) -> (r: bool)
    ensures
        r <==> is_pack_path(path@),
{
    proof {
        part_names();
    }
    if !has_prefix(path, text("objects/pack/")) || path.len() <= 18 {
        return false;
    }
    assert(path@.subrange(13, path@.len() as int) =~= path@.skip(13));
    !has_byte(&path[13..path.len()], SLASH) && has_suffix(path, text(".pack"))
}

/// The pack paths of a git directory.
fn find_packs(git: &Dir<Vec<u8>>) -> (r: Vec<Vec<u8>>)
    ensures
        paths_view(r@) == pack_paths(sorted_keys(git@.files.dom())),
{
    let files = git.files();
    let n: usize = files.count();
    let ghost keys = files.keys();
    let mut out: Vec<Vec<u8>> = Vec::new();
    let mut i: usize = 0;
    assert(paths_view(out@) =~= pack_paths(keys.take(0)));
    while i < n
        invariant
            i <= n,
            n == keys.len(),
            keys == files.keys(),
            paths_view(out@) == pack_paths(keys.take(i as int)),
        decreases n - i,
    {
        let path = files.key(i);
        let ghost before = out@;
        proof {
            assert(keys.take(i + 1).drop_last() =~= keys.take(i as int));
            assert(keys.take(i + 1).last() == path@);
        }
        if is_pack_file(path) {
            let copy = to_vec(path);
            out.push(copy);
            assert(paths_view(out@) =~= paths_view(before).push(path@));
        }
        i += 1;
    }
    assert(keys.take(i as int) =~= keys);
    out
}

/// Builds the index of a pack that has none.
fn ensure_index(git: &mut Dir<Vec<u8>>, pack: &[u8]) -> (r: Result<(), PackError>)
    ensures
        match r {
            Ok(_) => with_index(old(git)@, pack@) == Ok::<_, PackErrorView>(final(git)@),
            Err(e) => with_index(old(git)@, pack@) == Err::<DirView<Seq<u8>>, _>(e@),
        },
{
    let idx = index_path(pack);
    if git.exists_at(&idx) {
        return Ok(());
    }
    let bytes = match git.files().get(pack) {
        Some(b) => match index_pack(b) {
            Ok((bytes, _)) => bytes,
            Err(e) => return Err(e),
        },
        None => return Err(PackError::Io(IoError::NotFound)),
    };
    match git.write(&idx, bytes) {
        Ok(_) => Ok(()),
        Err(e) => Err(PackError::Io(e)),
    }
}

/// When a pack was changed last.
fn pack_mtime(times: &ByteMap<u64>, path: &[u8]) -> (r: u64)
    ensures
        r == mtime(times@, path@),
{
    match times.get(path) {
        Some(t) => *t,
        None => 0,
    }
}

/// Where [`insert_pack`] puts the pack.
proof fn insert_pack_at(times: Map<Seq<u8>, u64>, ps: Seq<Seq<u8>>, p: Seq<u8>, k: int)
    requires
        0 <= k <= ps.len(),
        forall|j: int| k <= j < ps.len() ==> searched_before(times, p, #[trigger] ps[j]),
        k > 0 ==> !searched_before(times, p, ps[k - 1]),
    ensures
        insert_pack(times, ps, p) == ps.insert(k, p),
    decreases ps.len(),
{
    if k == ps.len() {
        assert(ps.insert(k, p) =~= ps.push(p));
    } else {
        assert(searched_before(times, p, ps[ps.len() - 1]));
        let t = ps.drop_last();
        assert forall|j: int| k <= j < t.len() implies searched_before(
            times,
            p,
            #[trigger] t[j],
        ) by {
            assert(t[j] == ps[j]);
        }
        insert_pack_at(times, t, p, k);
        assert(ps.insert(k, p) =~= t.insert(k, p).push(ps.last()));
    }
}

/// Puts packs into the order they are searched.
fn order_packs(packs: &Vec<Vec<u8>>, times: &ByteMap<u64>) -> (r: Vec<Vec<u8>>)
    ensures
        paths_view(r@) == search_order(times@, paths_view(packs@)),
{
    let ghost v = paths_view(packs@);
    let mut out: Vec<Vec<u8>> = Vec::new();
    let mut i: usize = 0;
    assert(paths_view(out@) =~= search_order(times@, v.take(0)));
    while i < packs.len()
        invariant
            i <= packs@.len(),
            v == paths_view(packs@),
            paths_view(out@) == search_order(times@, v.take(i as int)),
        decreases packs.len() - i,
    {
        let path = to_vec(&packs[i]);
        let ghost p = path@;
        let ghost done = paths_view(out@);
        proof {
            assert(v.take(i + 1).drop_last() =~= v.take(i as int));
            assert(v.take(i + 1).last() == p);
        }
        let t: u64 = pack_mtime(times, &path);
        let mut k: usize = out.len();
        let mut go = k > 0;
        while go
            invariant
                k <= out@.len(),
                done == paths_view(out@),
                p == path@,
                t == mtime(times@, p),
                go ==> k > 0,
                !go && k > 0 ==> !searched_before(times@, p, done[k - 1]),
                forall|j: int|
                    k <= j < done.len() ==> searched_before(times@, p, #[trigger] done[j]),
            decreases k, go as int,
        {
            assert(done[k - 1] == out@[k - 1]@);
            let other: u64 = pack_mtime(times, &out[k - 1]);
            if t > other || (t == other && bytes_lt(&path, &out[k - 1])) {
                k -= 1;
                go = k > 0;
            } else {
                go = false;
            }
        }
        proof {
            insert_pack_at(times@, done, p, k as int);
        }
        out.insert(k, path);
        assert(paths_view(out@) =~= done.insert(k as int, p));
        i += 1;
    }
    assert(v.take(i as int) =~= v);
    out
}

/// An error early in the list is the error of the list.
proof fn with_indexes_error(git: DirView<Seq<u8>>, packs: Seq<Seq<u8>>, k: nat, n: nat)
    requires
        k <= n,
        with_indexes(git, packs, k) is Err,
    ensures
        with_indexes(git, packs, n) == with_indexes(git, packs, k),
    decreases n,
{
    if k < n {
        with_indexes_error(git, packs, k, (n - 1) as nat);
    }
}

/// An error early in the list is the error of the list.
proof fn open_packs_error(files: Map<Seq<u8>, Seq<u8>>, ps: Seq<Seq<u8>>, k: nat, n: nat)
    requires
        k <= n,
        open_packs(files, ps, k) is Err,
    ensures
        open_packs(files, ps, n) == open_packs(files, ps, k),
    decreases n,
{
    if k < n {
        open_packs_error(files, ps, k, (n - 1) as nat);
    }
}

/// Opens every pack of a git directory. Missing indexes are built.
pub fn discover_packs(git: &mut Dir<Vec<u8>>, times: &ByteMap<u64>) -> (r: Result<
    Vec<Pack>,
    PackError,
>)
    ensures
        match r {
            Ok(packs) => discovered(old(git)@, times@) == Ok::<_, PackErrorView>(
                (final(git)@, packs_view(packs@)),
            ),
            Err(e) => discovered(old(git)@, times@) == Err::<
                (DirView<Seq<u8>>, Seq<PackView>),
                _,
            >(e@),
        },
{
    let ghost start = git@;
    let found = find_packs(git);
    let ghost ps = paths_view(found@);
    let mut i: usize = 0;
    while i < found.len()
        invariant
            i <= found@.len(),
            start == old(git)@,
            ps == paths_view(found@),
            ps == pack_paths(sorted_keys(start.files.dom())),
            with_indexes(start, ps, i as nat) == Ok::<_, PackErrorView>(git@),
        decreases found.len() - i,
    {
        assert(ps[i as int] == found@[i as int]@);
        match ensure_index(git, &found[i]) {
            Ok(_) => {},
            Err(e) => {
                proof {
                    with_indexes_error(start, ps, (i + 1) as nat, ps.len());
                }
                return Err(e);
            },
        }
        i += 1;
    }
    let ordered = order_packs(&found, times);
    let ghost os = paths_view(ordered@);
    let mut packs: Vec<Pack> = Vec::new();
    let mut i: usize = 0;
    let ghost files = git@.files;
    assert(packs_view(packs@) =~= Seq::<PackView>::empty());
    while i < ordered.len()
        invariant
            i <= ordered@.len(),
            files == git@.files,
            os == paths_view(ordered@),
            open_packs(files, os, i as nat) == Ok::<_, PackErrorView>(packs_view(packs@)),
            open_packs(files, os, os.len()) is Err ==> discovered(start, times@) == Err::<
                (DirView<Seq<u8>>, Seq<PackView>),
                _,
            >(open_packs(files, os, os.len())->Err_0),
            start == old(git)@,
        decreases ordered.len() - i,
    {
        assert(os[i as int] == ordered@[i as int]@);
        match Pack::open(git.files(), &ordered[i]) {
            Ok(p) => {
                let ghost before = packs@;
                let ghost pv = p@;
                packs.push(p);
                assert(packs_view(packs@) =~= packs_view(before).push(pv));
            },
            Err(e) => {
                proof {
                    open_packs_error(files, os, (i + 1) as nat, os.len());
                }
                return Err(e);
            },
        }
        i += 1;
    }
    Ok(packs)
}

// ---------------------------------------------------------------------
// Opening and creating
// ---------------------------------------------------------------------

/// What opening a git directory gives.
pub open spec fn opened(
    git_dir: Seq<char>,
    work_dir: Option<Seq<char>>,
    git: DirView<Seq<u8>>,
    work: DirView<WorkFileView>,
    times: Map<Seq<u8>, u64>,
) -> Result<RepoView, OdbErrorView> {
    if !valid_git_dir(git) {
        Err(OdbErrorView::NotARepository(git_dir))
    } else {
        match discovered(git, times) {
            Err(e) => Err(OdbErrorView::InvalidPack(e)),
            Ok((g, packs)) => match packed_refs_of(g) {
                Err(e) => Err(OdbErrorView::Refs(RefErrorView::Io(e))),
                Ok(packed_refs) => Ok(
                    RepoView { git_dir, work_dir, git: g, work, packs, packed_refs },
                ),
            },
        }
    }
}

/// A path with one more part.
pub open spec fn joined(path: Seq<char>, part: Seq<char>) -> Seq<char> {
    if path.len() == 0 || path.last() == '/' {
        path + part
    } else {
        path + "/"@ + part
    }
}

/// The layout of a fresh git directory: the directories of objects, heads
/// and tags, and a HEAD that points at `refs/heads/main` unless there is
/// one. An error if a file is in the way.
pub open spec fn laid_out(git: DirView<Seq<u8>>) -> Result<DirView<Seq<u8>>, IoError> {
    let g1 = git.with_dir(ascii("objects"@));
    let g2 = g1.with_dir(ascii("refs/heads"@));
    let g3 = g2.with_dir(ascii("refs/tags"@));
    let head = ascii("HEAD"@);
    if git.mkdir_fault(ascii("objects"@)) {
        Err(git.mkdir_error(ascii("objects"@)))
    } else if g1.mkdir_fault(ascii("refs/heads"@)) {
        Err(g1.mkdir_error(ascii("refs/heads"@)))
    } else if g2.mkdir_fault(ascii("refs/tags"@)) {
        Err(g2.mkdir_error(ascii("refs/tags"@)))
    } else if g3.exists_at(head) {
        Ok(g3)
    } else {
        match g3.write_fault(head) {
            Some(e) => Err(e),
            None => Ok(g3.written(head, ascii("ref: refs/heads/main\n"@))),
        }
    }
}

/// What creating a repository gives. A git directory that is there already
/// is opened as it is.
pub open spec fn initialized(
    path: Seq<char>,
    bare: bool,
    git: DirView<Seq<u8>>,
    work: DirView<WorkFileView>,
    times: Map<Seq<u8>, u64>,
    r: Result<RepoView, OdbErrorView>,
) -> bool {
    let git_dir = if bare {
        path
    } else {
        joined(path, ".git"@)
    };
    let work_dir = if bare {
        None
    } else {
        Some(path)
    };
    if valid_git_dir(git) {
        r == opened(git_dir, work_dir, git, work, times)
    } else {
        match laid_out(git) {
            Err(e) => r == Err::<RepoView, _>(OdbErrorView::Io(e)),
            Ok(g) => r == Ok::<_, OdbErrorView>(
                RepoView {
                    git_dir,
                    work_dir,
                    git: g,
                    work,
                    packs: Seq::empty(),
                    packed_refs: Map::empty(),
                },
            ),
        }
    }
}

/// Lays out a git directory.
fn lay_out(git: &mut Dir<Vec<u8>>) -> (r: Result<(), IoError>)
    ensures
        match r {
            Ok(_) => laid_out(old(git)@) == Ok::<_, IoError>(final(git)@),
            Err(e) => laid_out(old(git)@) == Err::<DirView<Seq<u8>>, _>(e),
        },
{
    proof {
        part_names();
    }
    match git.make_dirs(text("objects")) {
        Ok(_) => {},
        Err(e) => return Err(e),
    }
    match git.make_dirs(text("refs/heads")) {
        Ok(_) => {},
        Err(e) => return Err(e),
    }
    match git.make_dirs(text("refs/tags")) {
        Ok(_) => {},
        Err(e) => return Err(e),
    }
    if git.exists_at(text("HEAD")) {
        return Ok(());
    }
    git.write(text("HEAD"), to_vec(text("ref: refs/heads/main\n")))
}

/// A path with one more part.
fn join_path(path: &str, part: &str) -> (r: String)
    ensures
        r@ == joined(path@, part@),
{
    let mut out = path.to_owned();
    let n: usize = path.unicode_len();
    if n > 0 && path.get_char(n - 1) != '/' {
        out.append("/");
    }
    out.append(part);
    out
}

impl Repository {
    /// Opens the repository whose git directory is given. `times` says when
    /// its packs were changed last.
    pub fn open(
        git_dir: String,
        work_dir: Option<String>,
        git: Dir<Vec<u8>>,
        work: WorkTree,
        times: &ByteMap<u64>,
    ) -> (r: Result<Repository, OdbError>)
        ensures
            match r {
                Ok(repo) => opened(git_dir@, opt_string(work_dir), git@, work@, times@) == Ok::<
                    _,
                    OdbErrorView,
                >(repo@),
                Err(e) => opened(git_dir@, opt_string(work_dir), git@, work@, times@) == Err::<
                    RepoView,
                    _,
                >(e@),
            },
    {
        let mut git = git;
        if !is_valid_git_dir(&git) {
            return Err(OdbError::NotARepository(git_dir));
        }
        let packs = match discover_packs(&mut git, times) {
            Ok(p) => p,
            Err(e) => return Err(OdbError::InvalidPack(e)),
        };
        let packed_refs = match load_packed_refs(&git) {
            Ok(m) => m,
            Err(e) => return Err(OdbError::Refs(e)),
        };
        Ok(Repository::from_parts(git_dir, work_dir, git, work, packs, packed_refs))
    }

    /// Creates a repository at `path`: in `path` itself if it is bare, else
    /// in `path/.git`. `git` is what that directory holds so far.
    pub fn init(
        path: &str,
        bare: bool,
        git: Dir<Vec<u8>>,
        work: WorkTree,
        times: &ByteMap<u64>,
    ) -> (r: Result<Repository, OdbError>)
        ensures
            initialized(path@, bare, git@, work@, times@, match r {
                Ok(repo) => Ok(repo@),
                Err(e) => Err(e@),
            }),
    {
        let git_dir = if bare {
            path.to_owned()
        } else {
            join_path(path, ".git")
        };
        let work_dir = if bare {
            None
        } else {
            Some(path.to_owned())
        };
        if is_valid_git_dir(&git) {
            return Repository::open(git_dir, work_dir, git, work, times);
        }
        let mut git = git;
        match lay_out(&mut git) {
            Ok(_) => {},
            Err(e) => return Err(OdbError::Io(e)),
        }
        let packs: Vec<Pack> = Vec::new();
        assert(packs_view(packs@) =~= Seq::<PackView>::empty());
        Ok(Repository::from_parts(git_dir, work_dir, git, work, packs, ByteMap::new()))
    }

    /// Takes in a pack: it is indexed where it lies, and then moved with
    /// its index to its canonical name in the pack directory. The packs
    /// that are searched stay the same until the repository is opened
    /// again.
    pub fn import_pack(&mut self, incoming: &mut Files, pack_path: &[u8]) -> (r: Result<
        (),
        OdbError,
    >)
        ensures
            match r {
                Ok(_) => {
                    &&& import_fault(old(self)@.git, old(incoming)@, pack_path@) is None
                    &&& final(self)@ == (RepoView {
                        git: imported(old(self)@.git, old(incoming)@[pack_path@]),
                        ..old(self)@
                    })
                    &&& final(incoming)@ == old(incoming)@.remove(pack_path@).remove(
                        idx_path(pack_path@),
                    )
                },
                Err(e) => {
                    &&& import_fault(old(self)@.git, old(incoming)@, pack_path@) == Some(e@)
                    &&& final(self)@ == old(self)@
                    &&& final(incoming)@ == old(incoming)@
                },
            },
    {
        let (idx, sha, bytes) = match incoming.get(pack_path) {
            None => return Err(OdbError::InvalidPack(PackError::Io(IoError::NotFound))),
            Some(bytes) => match index_pack(bytes) {
                Err(e) => return Err(OdbError::InvalidPack(e)),
                Ok((idx, sha)) => (idx, sha, to_vec(bytes)),
            },
        };
        proof {
            part_names();
            canonical_siblings(self@.git, sha@, bytes@);
        }
        let dest_pack = canonical_path(&sha, ".pack");
        let dest_idx = canonical_path(&sha, ".idx");
        if let Some(e) = self.git.write_problem(&dest_pack) {
            return Err(OdbError::Io(e));
        }
        if let Some(e) = self.git.write_problem(&dest_idx) {
            return Err(OdbError::Io(e));
        }
        let _ = self.git.write(&dest_pack, bytes);
        let _ = self.git.write(&dest_idx, idx);
        incoming.delete(pack_path);
        let src_idx = index_path(pack_path);
        incoming.delete(&src_idx);
        Ok(())
    }
}

/// The canonical path of a pack or its index.
pub open spec fn canonical_name(sha: Seq<u8>, extension: Seq<char>) -> Seq<u8> {
    ascii("objects/pack/pack-"@) + hex(sha) + ascii(extension)
}

/// What keeps a pack from being taken in, if anything.
pub open spec fn import_fault(
    git: DirView<Seq<u8>>,
    incoming: Map<Seq<u8>, Seq<u8>>,
    path: Seq<u8>,
) -> Option<OdbErrorView> {
    if !incoming.contains_key(path) {
        Some(OdbErrorView::InvalidPack(PackErrorView::Io(IoError::NotFound)))
    } else {
        match pack_index(incoming[path]) {
            Err(e) => Some(OdbErrorView::InvalidPack(e)),
            Ok(_) => {
                let sha = pack_hash(incoming[path])->Ok_0;
                match git.write_fault(canonical_name(sha, ".pack"@)) {
                    Some(e) => Some(OdbErrorView::Io(e)),
                    None => match git.write_fault(canonical_name(sha, ".idx"@)) {
                        Some(e) => Some(OdbErrorView::Io(e)),
                        None => None,
                    },
                }
            },
        }
    }
}

/// The git directory with a pack and its index under their canonical names.
pub open spec fn imported(git: DirView<Seq<u8>>, pack: Seq<u8>) -> DirView<Seq<u8>> {
    let sha = pack_hash(pack)->Ok_0;
    git.written(canonical_name(sha, ".pack"@), pack).written(
        canonical_name(sha, ".idx"@),
        idx_bytes(pack_index(pack)->Ok_0, sha),
    )
}

/// The canonical path of a pack or its index.
fn canonical_path(sha: &ObjectId, extension: &str) -> (r: Vec<u8>)
    requires
        vstd::utf8::is_ascii_chars(extension@),
    ensures
        r@ == canonical_name(sha@, extension@),
{
    proof {
        part_names();
    }
    let mut out: Vec<u8> = Vec::new();
    push_text(&mut out, "objects/pack/pack-");
    let digits = sha.to_hex_bytes();
    push_all(&mut out, &digits);
    push_text(&mut out, extension);
    assert(out@ =~= canonical_name(sha@, extension@));
    out
}

/// Writing a pack does not keep its index from being written.
proof fn canonical_siblings(git: DirView<Seq<u8>>, sha: Seq<u8>, pack: Seq<u8>)
    ensures
        git.write_fault(canonical_name(sha, ".pack"@)) is None && git.write_fault(
            canonical_name(sha, ".idx"@),
        ) is None ==> git.written(canonical_name(sha, ".pack"@), pack).write_fault(
            canonical_name(sha, ".idx"@),
        ) is None,
{
    reveal_strlit(".pack");
    reveal_strlit(".idx");
    let p = canonical_name(sha, ".pack"@);
    let q = canonical_name(sha, ".idx"@);
    let base = ascii("objects/pack/pack-"@) + hex(sha);
    let g = git.written(p, pack);
    assert(p.len() == base.len() + 5 && q.len() == base.len() + 4);
    assert(p[base.len() as int + 4] == ascii(".pack"@)[4]);
    if g.blocked(q) && !git.blocked(q) {
        let d = choose|d: Seq<u8>|
            crate::dir::is_above(d, q) && #[trigger] g.files.contains_key(d);
        assert(git.files.contains_key(d));
    }
    if g.is_dir(q) && !git.is_dir(q) {
        assert(crate::dir::is_above(q, p));
    }
}

} // verus!
