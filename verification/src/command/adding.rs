//! Staging files.

use vstd::prelude::*;
use vstd::utf8::{encode_utf8, valid_utf8};

use crate::bytemap::{lists_keys, sorted_keys, sorted_keys_lists};
use crate::bytes::{ascii, has_prefix, same_bytes, text, to_vec, SLASH};
use crate::dir::{parent, parent_path, DirView};
use crate::files::IoError;
use crate::gitignore::{ignore_rules, ignores, in_git_dir, relative, GitignoreSet, RuleView};
use crate::index::laws::{law_upsert_lookup, upserted};
use crate::index::store::index_of;
use crate::index::{
    staged, Index, IndexEntry, IndexEntryView, IndexError, IndexErrorView, IndexView,
};
use crate::index::format::index_bytes;
use crate::notation::{lossy_string, text_of};
use crate::object::{Blob, Object, ObjectId, ObjectView};
use crate::odb::{after_store, store_fault, OdbError, OdbErrorView, RepoView, Repository};
use crate::treewalk::{parts, parts_view};
use crate::workdir::{file_bytes, stored_bytes};
use crate::worktree::places::{find_place, is_nothing_behind, place, Place, PlaceView};
use crate::worktree::ways::within;
use crate::worktree::{FileKind, WorkFileView, WorkTree};

verus! {

/// Why a path was not staged.
#[derive(Debug, Clone, PartialEq, Eq)]
pub enum AddError {
    /// The repository has no working tree.
    NoWorkTree,
    /// The ignore rules cannot be read, or there is nothing at the path.
    Io(IoError),
    /// The path leads out of the working tree.
    Outside(Vec<u8>),
    /// Links lead from directory to directory without end.
    Endless,
    /// The index failed.
    Index(IndexError),
    /// A file could not be stored.
    Odb(OdbError),
}

/// What an [`AddError`] says.
pub enum AddErrorView {
    NoWorkTree,
    Io(IoError),
    Outside(Seq<u8>),
    Endless,
    Index(IndexErrorView),
    Odb(OdbErrorView),
}

impl View for AddError {
    type V = AddErrorView;

    open spec fn view(&self) -> AddErrorView {
        match self {
            AddError::NoWorkTree => AddErrorView::NoWorkTree,
            AddError::Io(e) => AddErrorView::Io(*e),
            AddError::Outside(p) => AddErrorView::Outside(p@),
            AddError::Endless => AddErrorView::Endless,
            AddError::Index(e) => AddErrorView::Index(e@),
            AddError::Odb(e) => AddErrorView::Odb(e@),
        }
    }
}

/// The index mode of a file.
pub open spec fn stat_mode(kind: FileKind) -> u32 {
    match kind {
        FileKind::Regular => 0x81a4u32,
        FileKind::Executable => 0x81edu32,
        FileKind::Symlink => 0xa000u32,
    }
}

/// A path as text, in which what is no valid UTF-8 is replaced.
pub open spec fn text_path(path: Seq<u8>) -> Seq<u8> {
    encode_utf8(text_of(path))
}

/// A path as text.
fn path_text(path: &[u8]) -> (r: Vec<u8>)
    ensures
        r@ == text_path(path@),
{
    let s = lossy_string(path);
    to_vec(s.as_str().as_bytes())
}

/// The index entry of a file, under its path as text.
pub open spec fn entry_for(f: WorkFileView, path: Seq<u8>) -> IndexEntryView {
    IndexEntryView {
        ctime: f.ctime,
        mtime: f.mtime,
        dev: 0,
        ino: 0,
        mode: stat_mode(f.kind),
        uid: 0,
        gid: 0,
        size: (stored_bytes(f).len() % 0x1_0000_0000) as u32,
        id: ObjectView::Blob(stored_bytes(f)).id(),
        assume_valid: false,
        stage: 0,
        path: text_path(path),
    }
}

/// The object database and the index entries while files are staged.
pub struct Staging {
    pub git: DirView<Seq<u8>>,
    pub entries: Seq<IndexEntryView>,
}

/// A file is stored and staged.
pub open spec fn file_added(st: Staging, f: WorkFileView, path: Seq<u8>) -> (
    Staging,
    Option<OdbErrorView>,
) {
    let (git, fault) = after_store(st.git, ObjectView::Blob(stored_bytes(f)));
    match fault {
        Some(e) => (Staging { git, entries: st.entries }, Some(e)),
        None => (Staging { git, entries: upserted(st.entries, entry_for(f, path)) }, None),
    }
}

/// What an outcome of storing says went wrong.
pub open spec fn add_fault(fault: Option<OdbErrorView>) -> Option<AddErrorView> {
    match fault {
        Some(e) => Some(AddErrorView::Odb(e)),
        None => None,
    }
}

/// The path that is staged for a path: the one that it leads to, links
/// followed, or why there is none. It has to lead to something in the working
/// tree; the git directory is none of it.
pub open spec fn staged_path(work: DirView<WorkFileView>, path: Seq<u8>) -> Result<
    Seq<u8>,
    AddErrorView,
> {
    match place(work, path, true) {
        PlaceView::At(p) => if within(ascii(".git"@), p) {
            Err(AddErrorView::Outside(path))
        } else if work.exists_at(p) {
            Ok(p)
        } else {
            Err(AddErrorView::Io(IoError::NotFound))
        },
        PlaceView::Behind(l) => if work.files[l].behind is Nothing {
            Err(AddErrorView::Io(IoError::NotFound))
        } else {
            Err(AddErrorView::Outside(path))
        },
        PlaceView::Above => Err(AddErrorView::Outside(path)),
        PlaceView::Fault(e) => if e == IoError::Outside {
            Err(AddErrorView::Outside(path))
        } else {
            Err(AddErrorView::Io(e))
        },
    }
}

/// Whether a file or link is met in a directory: it lies below it, not in a
/// `.git`, and no directory on the way is ignored.
pub open spec fn is_met(
    sets: Seq<(Seq<u8>, Seq<RuleView>)>,
    dir: Seq<u8>,
    path: Seq<u8>,
) -> bool {
    match relative(path, dir) {
        None => false,
        Some(rel) => {
            &&& !parts(rel).contains(ascii(".git"@))
            &&& parent(path).len() > 0 ==> !ignores(sets, text_path(parent(path)), true)
        },
    }
}

/// The first `n` of the files are staged, those that are met in `dir`.
/// `depth` bounds how often links lead to further directories.
pub open spec fn dir_added(
    st: Staging,
    work: DirView<WorkFileView>,
    paths: Seq<Seq<u8>>,
    n: nat,
    sets: Seq<(Seq<u8>, Seq<RuleView>)>,
    dir: Seq<u8>,
    depth: nat,
) -> (Staging, Option<AddErrorView>)
    decreases depth, n,
{
    if n == 0 {
        (st, None)
    } else {
        let (before, fault) = dir_added(st, work, paths, (n - 1) as nat, sets, dir, depth);
        let path = paths[n - 1];
        if fault is Some || !is_met(sets, dir, path) {
            (before, fault)
        } else {
            path_added(before, work, sets, path, depth)
        }
    }
}

/// What a path leads to is staged: a file, or the files that are met in a
/// directory, unless they are ignored.
pub open spec fn path_added(
    st: Staging,
    work: DirView<WorkFileView>,
    sets: Seq<(Seq<u8>, Seq<RuleView>)>,
    path: Seq<u8>,
    depth: nat,
) -> (Staging, Option<AddErrorView>)
    decreases depth, 0nat,
{
    match staged_path(work, path) {
        Err(e) => (st, Some(e)),
        Ok(p) => if work.is_dir(p) {
            if p.len() > 0 && ignores(sets, text_path(p), true) {
                (st, None)
            } else if depth == 0 {
                (st, Some(AddErrorView::Endless))
            } else {
                let paths = sorted_keys(work.files.dom());
                dir_added(st, work, paths, paths.len(), sets, p, (depth - 1) as nat)
            }
        } else if ignores(sets, text_path(p), false) {
            (st, None)
        } else {
            let (after, fault) = file_added(st, work.files[p], p);
            (after, add_fault(fault))
        },
    }
}

/// How often links may lead to further directories: as often as there are
/// files, and once more.
pub open spec fn add_depth(work: DirView<WorkFileView>) -> nat {
    work.files.len() + 1
}

/// The first `n` paths are staged.
pub open spec fn paths_added(
    st: Staging,
    work: DirView<WorkFileView>,
    sets: Seq<(Seq<u8>, Seq<RuleView>)>,
    paths: Seq<Seq<u8>>,
    n: nat,
) -> (Staging, Option<AddErrorView>)
    decreases n,
{
    if n == 0 {
        (st, None)
    } else {
        let (before, fault) = paths_added(st, work, sets, paths, (n - 1) as nat);
        if fault is Some {
            (before, fault)
        } else {
            path_added(before, work, sets, paths[n - 1], add_depth(work))
        }
    }
}

/// The repository after paths were staged, and what went wrong, if
/// anything. The index is written only if nothing did.
pub open spec fn added(repo: RepoView, paths: Seq<Seq<u8>>) -> (RepoView, Option<AddErrorView>) {
    if repo.work_dir is None {
        (repo, Some(AddErrorView::NoWorkTree))
    } else {
        match ignore_rules(repo.work, repo.git) {
            Err(e) => (repo, Some(AddErrorView::Io(e))),
            Ok(sets) => match index_of(repo.git) {
                Err(e) => (repo, Some(AddErrorView::Index(e))),
                Ok(index) => {
                    let st = Staging { git: repo.git, entries: index.entries };
                    let (after, fault) = paths_added(st, repo.work, sets, paths, paths.len());
                    let r1 = RepoView { git: after.git, ..repo };
                    let written = IndexView {
                        entries: after.entries,
                        extensions: index.extensions,
                    };
                    match fault {
                        Some(e) => (r1, Some(e)),
                        None => match after.git.write_fault(ascii("index"@)) {
                            Some(e) => (r1, Some(AddErrorView::Index(IndexErrorView::Io(e)))),
                            None => (
                                RepoView {
                                    git: after.git.written(
                                        ascii("index"@),
                                        index_bytes(written),
                                    ),
                                    ..repo
                                },
                                None,
                            ),
                        },
                    }
                },
            },
        }
    }
}

/// An error early in the list is the error of the list.
proof fn dir_added_error(
    st: Staging,
    work: DirView<WorkFileView>,
    paths: Seq<Seq<u8>>,
    k: nat,
    n: nat,
    sets: Seq<(Seq<u8>, Seq<RuleView>)>,
    dir: Seq<u8>,
    depth: nat,
)
    requires
        k <= n,
        dir_added(st, work, paths, k, sets, dir, depth).1 is Some,
    ensures
        dir_added(st, work, paths, n, sets, dir, depth) == dir_added(
            st,
            work,
            paths,
            k,
            sets,
            dir,
            depth,
        ),
    decreases n,
{
    if k < n {
        dir_added_error(st, work, paths, k, (n - 1) as nat, sets, dir, depth);
    }
}

/// An error early in the list is the error of the list.
proof fn paths_added_error(
    st: Staging,
    work: DirView<WorkFileView>,
    sets: Seq<(Seq<u8>, Seq<RuleView>)>,
    paths: Seq<Seq<u8>>,
    k: nat,
    n: nat,
)
    requires
        k <= n,
        paths_added(st, work, sets, paths, k).1 is Some,
    ensures
        paths_added(st, work, sets, paths, n) == paths_added(st, work, sets, paths, k),
    decreases n,
{
    if k < n {
        paths_added_error(st, work, sets, paths, k, (n - 1) as nat);
    }
}

/// Whether a file or link is met in a directory.
fn meets(ignores_set: &GitignoreSet, dir: &[u8], path: &[u8]) -> (r: bool)
    ensures
        r <==> is_met(ignores_set@, dir@, path@),
{
    let from: usize = if dir.len() == 0 {
        0
    } else if has_prefix(path, dir) && path.len() > dir.len() && path[dir.len()]
        == SLASH {
        dir.len() + 1
    } else {
        return false;
    };
    let rel = &path[from..path.len()];
    assert(rel@ =~= path@.skip(from as int));
    assert(path@.skip(0) =~= path@);
    let above = parent_path(path);
    !in_git_dir(rel) && (above.len() == 0 || !ignores_set.is_ignored(&path_text(above), true))
}

/// Whether a path is that of the git directory or lies in it.
fn in_own_git_dir(path: &[u8]) -> (r: bool)
    ensures
        r <==> within(ascii(".git"@), path@),
{
    proof {
        reveal_strlit(".git");
    }
    let top = text(".git");
    if same_bytes(path, top) {
        return true;
    }
    assert(path.len() == path@.len());
    let r = path.len() > top.len() && path[top.len()] == SLASH && has_prefix(path, top);
    r
}

/// Finds the path that is staged for a path.
fn find_staged_path(work: &WorkTree, path: &[u8]) -> (r: Result<Vec<u8>, AddError>)
    ensures
        match r {
            Ok(p) => staged_path(work@, path@) == Ok::<_, AddErrorView>(p@),
            Err(e) => staged_path(work@, path@) == Err::<Seq<u8>, _>(e@),
        },
{
    match find_place(work, path, true) {
        Place::At(p) => {
            if in_own_git_dir(&p) {
                return Err(AddError::Outside(to_vec(path)));
            }
            if work.exists_at(&p) {
                Ok(p)
            } else {
                Err(AddError::Io(IoError::NotFound))
            }
        },
        Place::Behind(l) => if is_nothing_behind(work, path, &l) {
            Err(AddError::Io(IoError::NotFound))
        } else {
            Err(AddError::Outside(to_vec(path)))
        },
        Place::Above => Err(AddError::Outside(to_vec(path))),
        Place::Fault(e) => if e == IoError::Outside {
            Err(AddError::Outside(to_vec(path)))
        } else {
            Err(AddError::Io(e))
        },
    }
}

/// What is staged in a repository and an index.
pub open spec fn staging(repo: RepoView, index: IndexView) -> Staging {
    Staging { git: repo.git, entries: index.entries }
}

/// What a result says went wrong.
pub open spec fn store_result(r: Result<(), OdbError>) -> Option<OdbErrorView> {
    match r {
        Ok(_) => None,
        Err(e) => Some(e@),
    }
}

/// What a result says went wrong.
pub open spec fn add_result(r: Result<(), AddError>) -> Option<AddErrorView> {
    match r {
        Ok(_) => None,
        Err(e) => Some(e@),
    }
}

/// Whether nothing but the git directory differs.
pub open spec fn same_but_git(a: RepoView, b: RepoView) -> bool {
    b == (RepoView { git: b.git, ..a })
}

impl Repository {
    /// Stores and stages a file of the working tree.
    fn add_file(&mut self, path: &[u8], index: &mut Index) -> (r: Result<(), OdbError>)
        requires
            old(self)@.work.files.contains_key(path@),
        ensures
            file_added(
                staging(old(self)@, old(index)@),
                old(self)@.work.files[path@],
                path@,
            ) == (staging(final(self)@, final(index)@), store_result(r)),
            same_but_git(old(self)@, final(self)@),
            final(index)@.extensions == old(index)@.extensions,
    {
        let ghost f = self@.work.files[path@];
        let (data, kind, ctime, mtime) = match self.work().files().get(path) {
            Some(file) => (file_bytes(file), file.kind, file.ctime, file.mtime),
            None => {
                assert(false);
                return Ok(());
            },
        };
        let size: u32 = (data.len() as u64 % 0x1_0000_0000) as u32;
        let id: ObjectId = match self.write_object(&Object::Blob(Blob::new(data))) {
            Ok(id) => id,
            Err(e) => return Err(e),
        };
        let mode: u32 = match kind {
            FileKind::Regular => 0x81a4,
            FileKind::Executable => 0x81ed,
            FileKind::Symlink => 0xa000,
        };
        let entry = IndexEntry {
            ctime,
            mtime,
            dev: 0,
            ino: 0,
            mode,
            uid: 0,
            gid: 0,
            size,
            id,
            assume_valid: false,
            stage: 0,
            path: path_text(path),
        };
        assert(entry@ == entry_for(f, path@));
        index.upsert(entry);
        Ok(())
    }

    /// Stages the files that are met in a directory.
    fn add_dir(
        &mut self,
        dir: &[u8],
        ignores_set: &GitignoreSet,
        index: &mut Index,
        depth: u128,
    ) -> (r: Result<(), AddError>)
        ensures
            ({
                let paths = sorted_keys(old(self)@.work.files.dom());
                dir_added(
                    staging(old(self)@, old(index)@),
                    old(self)@.work,
                    paths,
                    paths.len(),
                    ignores_set@,
                    dir@,
                    depth as nat,
                ) == (staging(final(self)@, final(index)@), add_result(r))
            }),
            same_but_git(old(self)@, final(self)@),
            final(index)@.extensions == old(index)@.extensions,
        decreases depth, 1nat,
    {
        let ghost st = staging(self@, index@);
        let ghost work = self@.work;
        let ghost paths = sorted_keys(work.files.dom());
        let ghost sets = ignores_set@;
        let n: usize = self.work().files().count();
        let mut i: usize = 0;
        while i < n
            invariant
                i <= n,
                n == paths.len(),
                work == old(self)@.work,
                paths == sorted_keys(work.files.dom()),
                sets == ignores_set@,
                st == staging(old(self)@, old(index)@),
                same_but_git(old(self)@, self@),
                index@.extensions == old(index)@.extensions,
                dir_added(st, work, paths, i as nat, sets, dir@, depth as nat) == (
                    staging(self@, index@),
                    None::<AddErrorView>,
                ),
            decreases n - i,
        {
            let listed = self.work().files();
            let _count: usize = listed.count();
            let path: Vec<u8> = to_vec(listed.key(i));
            assert(path@ == paths[i as int]);
            if meets(ignores_set, dir, &path) {
                match self.add_place(&path, ignores_set, index, depth) {
                    Ok(_) => {},
                    Err(e) => {
                        proof {
                            dir_added_error(
                                st,
                                work,
                                paths,
                                (i + 1) as nat,
                                paths.len(),
                                sets,
                                dir@,
                                depth as nat,
                            );
                        }
                        return Err(e);
                    },
                }
            }
            i += 1;
        }
        Ok(())
    }

    /// Stages what a path leads to.
    fn add_place(
        &mut self,
        path: &[u8],
        ignores_set: &GitignoreSet,
        index: &mut Index,
        depth: u128,
    ) -> (r: Result<(), AddError>)
        ensures
            path_added(
                staging(old(self)@, old(index)@),
                old(self)@.work,
                ignores_set@,
                path@,
                depth as nat,
            ) == (staging(final(self)@, final(index)@), add_result(r)),
            same_but_git(old(self)@, final(self)@),
            final(index)@.extensions == old(index)@.extensions,
        decreases depth, 0nat,
    {
        let p = match find_staged_path(self.work(), path) {
            Ok(p) => p,
            Err(e) => return Err(e),
        };
        if self.work().is_dir(&p) {
            if p.len() > 0 && ignores_set.is_ignored(&path_text(&p), true) {
                return Ok(());
            }
            if depth == 0 {
                return Err(AddError::Endless);
            }
            return self.add_dir(&p, ignores_set, index, depth - 1);
        }
        if ignores_set.is_ignored(&path_text(&p), false) {
            return Ok(());
        }
        match self.add_file(&p, index) {
            Ok(_) => Ok(()),
            Err(e) => Err(AddError::Odb(e)),
        }
    }

    /// Stages a file, or the files of a directory that are not ignored.
    /// Links are followed, and what they lead to is staged.
    pub fn add_path(&mut self, path: &[u8], ignores_set: &GitignoreSet, index: &mut Index) -> (r:
        Result<(), AddError>)
        ensures
            path_added(
                staging(old(self)@, old(index)@),
                old(self)@.work,
                ignores_set@,
                path@,
                add_depth(old(self)@.work),
            ) == (staging(final(self)@, final(index)@), add_result(r)),
            same_but_git(old(self)@, final(self)@),
            final(index)@.extensions == old(index)@.extensions,
    {
        let n: usize = self.work().files().count();
        self.add_place(path, ignores_set, index, n as u128 + 1)
    }

    /// Stages paths of the working tree and writes the index.
    pub fn add(&mut self, paths: &[Vec<u8>]) -> (r: Result<(), AddError>)
        ensures
            added(old(self)@, parts_view(paths@)) == (
                final(self)@,
                add_result(r),
            ),
    {
        if self.work_dir().is_none() {
            return Err(AddError::NoWorkTree);
        }
        let rules = match GitignoreSet::load(self.work(), self.git()) {
            Ok(s) => s,
            Err(e) => return Err(AddError::Io(e)),
        };
        let mut index = match self.read_index() {
            Ok(i) => i,
            Err(e) => return Err(AddError::Index(e)),
        };
        let ghost st = staging(self@, index@);
        let ghost work = self@.work;
        let ghost sets = rules@;
        let ghost ps = parts_view(paths@);
        let ghost extensions = index@.extensions;
        let mut i: usize = 0;
        while i < paths.len()
            invariant
                i <= paths@.len(),
                ps == parts_view(paths@),
                work == old(self)@.work,
                sets == rules@,
                same_but_git(old(self)@, self@),
                index@.extensions == extensions,
                old(self)@.work_dir is Some,
                ignore_rules(work, old(self)@.git) == Ok::<_, IoError>(sets),
                index_of(old(self)@.git) == Ok::<_, IndexErrorView>(
                    (IndexView { entries: st.entries, extensions }),
                ),
                st.git == old(self)@.git,
                paths_added(st, work, sets, ps, i as nat) == (
                    staging(self@, index@),
                    None::<AddErrorView>,
                ),
            decreases paths.len() - i,
        {
            assert(ps[i as int] == paths@[i as int]@);
            match self.add_path(&paths[i], &rules, &mut index) {
                Ok(_) => {},
                Err(e) => {
                    proof {
                        paths_added_error(st, work, sets, ps, (i + 1) as nat, ps.len());
                    }
                    return Err(e);
                },
            }
            i += 1;
        }
        match self.write_index(&index) {
            Ok(_) => Ok(()),
            Err(e) => Err(AddError::Index(e)),
        }
    }
}

/// Law: after a file was staged, the index has it under its path as text,
/// which is its path where that is valid UTF-8, with the id of the blob that
/// was stored.
pub proof fn law_add_then_lookup(st: Staging, f: WorkFileView, path: Seq<u8>)
    requires
        file_added(st, f, path).1 is None,
    ensures
        staged(file_added(st, f, path).0.entries, text_path(path)) == Some(entry_for(f, path)),
        valid_utf8(path) ==> text_path(path) == path,
        entry_for(f, path).id == ObjectView::Blob(stored_bytes(f)).id(),
        store_fault(st.git, ObjectView::Blob(stored_bytes(f))) is None,
{
    law_upsert_lookup(st.entries, entry_for(f, path));
    if valid_utf8(path) {
        vstd::utf8::decode_utf8_encode_utf8(path);
    }
}

/// Whether each link in a directory or below it that leads to a directory
/// leads to one of lower rank.
pub open spec fn links_ranked(
    work: DirView<WorkFileView>,
    rank: spec_fn(Seq<u8>) -> nat,
) -> bool {
    forall|dir: Seq<u8>, path: Seq<u8>|
        #![trigger relative(path, dir), work.files.contains_key(path)]
        work.files.contains_key(path) && relative(path, dir) is Some ==> (staged_path(
            work,
            path,
        ) matches Ok(p) ==> work.is_dir(p) ==> rank(p) < rank(dir))
}

/// There is depth enough for a path that leads to a directory of low rank.
proof fn path_ends(
    st: Staging,
    work: DirView<WorkFileView>,
    sets: Seq<(Seq<u8>, Seq<RuleView>)>,
    path: Seq<u8>,
    depth: nat,
    rank: spec_fn(Seq<u8>) -> nat,
)
    requires
        work.files.dom().finite(),
        links_ranked(work, rank),
        staged_path(work, path) matches Ok(p) ==> work.is_dir(p) ==> rank(p) < depth,
    ensures
        path_added(st, work, sets, path, depth).1 != Some(AddErrorView::Endless),
    decreases depth, 0nat,
{
    if let Ok(p) = staged_path(work, path) {
        if work.is_dir(p) && depth > 0 {
            let paths = sorted_keys(work.files.dom());
            sorted_keys_lists(work.files.dom());
            dir_ends(st, work, paths, paths.len(), sets, p, (depth - 1) as nat, rank);
        }
    }
}

/// So there is for the files of a directory.
proof fn dir_ends(
    st: Staging,
    work: DirView<WorkFileView>,
    paths: Seq<Seq<u8>>,
    n: nat,
    sets: Seq<(Seq<u8>, Seq<RuleView>)>,
    dir: Seq<u8>,
    depth: nat,
    rank: spec_fn(Seq<u8>) -> nat,
)
    requires
        work.files.dom().finite(),
        links_ranked(work, rank),
        n <= paths.len(),
        lists_keys(paths, work.files.dom()),
        rank(dir) <= depth,
    ensures
        dir_added(st, work, paths, n, sets, dir, depth).1 != Some(AddErrorView::Endless),
    decreases depth, n,
{
    if n > 0 {
        dir_ends(st, work, paths, (n - 1) as nat, sets, dir, depth, rank);
        let before = dir_added(st, work, paths, (n - 1) as nat, sets, dir, depth).0;
        let path = paths[n - 1];
        assert(paths.contains(path));
        assert(work.files.dom().contains(path));
        assert(work.files.contains_key(path));
        if is_met(sets, dir, path) {
            assert(relative(path, dir) is Some);
            path_ends(before, work, sets, path, depth, rank);
        }
    }
}

/// Law: where no link leads back to a directory that it lies in, by itself or
/// with others, staging never says that links go on without end. The ranks
/// need be no higher than there are files.
pub proof fn law_add_ends(
    st: Staging,
    work: DirView<WorkFileView>,
    sets: Seq<(Seq<u8>, Seq<RuleView>)>,
    path: Seq<u8>,
    rank: spec_fn(Seq<u8>) -> nat,
)
    requires
        work.files.dom().finite(),
        links_ranked(work, rank),
        forall|dir: Seq<u8>| #[trigger] rank(dir) <= work.files.len(),
    ensures
        path_added(st, work, sets, path, add_depth(work)).1 != Some(AddErrorView::Endless),
{
    path_ends(st, work, sets, path, add_depth(work), rank);
}

} // verus!
