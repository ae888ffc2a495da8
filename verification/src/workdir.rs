//! The working tree: checking trees out, comparing it with index and HEAD,
//! and making trees of the index.

use vstd::prelude::*;
use vstd::utf8::{encode_utf8, valid_utf8};

use crate::bytemap::{sorted_keys, ByteMap};
use crate::bytes::{ascii, to_vec};
use crate::dir::DirView;
use crate::files::IoError;
use crate::gitignore::in_git_dir;
use crate::index::store::index_of;
use crate::index::{entries_view, Index, IndexEntry, IndexEntryView, IndexError, IndexErrorView};
use crate::notation::{is_utf8, lossy_string, text_of};
use crate::object::{
    object_id, Object, ObjectId, ObjectKind, ObjectView, ParseError, ParseErrorView,
};
use crate::odb::{OdbError, OdbErrorView, RepoView, Repository};
use crate::refs::{ref_value, RefError, RefErrorView};
use crate::treewalk::{files_of_tree, parts, WalkError, WalkErrorView};
use crate::worktree::places::{look, seen};
use crate::worktree::{FileKind, WorkFile, WorkFileView, WorkTree};

pub mod checkout;
pub mod laws;
pub mod leaves;
pub mod listing;
pub mod order;
pub mod outcome;
pub mod rebuild;
pub mod report;
pub mod staging;
pub mod stored;
pub mod switching;

verus! {

/// A difference between HEAD, index and working tree.
#[derive(Debug, Clone, PartialEq, Eq)]
pub enum WorkdirChange {
    /// The index has the file, the working tree does not.
    Deleted(Vec<u8>),
    /// The working tree has another content than the index.
    Modified(Vec<u8>),
    /// The working tree has the file, the index does not.
    Untracked(Vec<u8>),
    /// The index differs from HEAD: it has another content, or one of the two
    /// does not have the file.
    Staged(Vec<u8>),
}

/// What a [`WorkdirChange`] says.
pub enum ChangeView {
    Deleted(Seq<u8>),
    Modified(Seq<u8>),
    Untracked(Seq<u8>),
    Staged(Seq<u8>),
}

impl View for WorkdirChange {
    type V = ChangeView;

    open spec fn view(&self) -> ChangeView {
        match self {
            WorkdirChange::Deleted(p) => ChangeView::Deleted(p@),
            WorkdirChange::Modified(p) => ChangeView::Modified(p@),
            WorkdirChange::Untracked(p) => ChangeView::Untracked(p@),
            WorkdirChange::Staged(p) => ChangeView::Staged(p@),
        }
    }
}

/// The differences between HEAD, index and working tree.
#[derive(Debug)]
pub struct WorkdirStatus {
    pub changes: Vec<WorkdirChange>,
}

/// What the changes of a list say.
pub open spec fn changes_view(cs: Seq<WorkdirChange>) -> Seq<ChangeView> {
    cs.map_values(|c: WorkdirChange| c@)
}

/// Errors of the working tree.
#[derive(Debug, Clone, PartialEq, Eq)]
pub enum WorkdirError {
    /// A file could not be read or written.
    Io(IoError),
    /// An object cannot be parsed.
    Object(ParseError),
    /// The object database failed.
    Odb(OdbError),
    /// The refs failed.
    Refs(RefError),
    /// The index failed.
    Index(IndexError),
    /// The repository has no working tree.
    NoWorkTree,
    /// An object is of another kind than its place asks for.
    UnexpectedKind(ObjectKind),
}

/// What a [`WorkdirError`] says.
pub enum WorkdirErrorView {
    Io(IoError),
    Object(ParseErrorView),
    Odb(OdbErrorView),
    Refs(RefErrorView),
    Index(IndexErrorView),
    NoWorkTree,
    UnexpectedKind(ObjectKind),
}

impl View for WorkdirError {
    type V = WorkdirErrorView;

    open spec fn view(&self) -> WorkdirErrorView {
        match self {
            WorkdirError::Io(e) => WorkdirErrorView::Io(*e),
            WorkdirError::Object(e) => WorkdirErrorView::Object(e@),
            WorkdirError::Odb(e) => WorkdirErrorView::Odb(e@),
            WorkdirError::Refs(e) => WorkdirErrorView::Refs(e@),
            WorkdirError::Index(e) => WorkdirErrorView::Index(e@),
            WorkdirError::NoWorkTree => WorkdirErrorView::NoWorkTree,
            WorkdirError::UnexpectedKind(k) => WorkdirErrorView::UnexpectedKind(*k),
        }
    }
}

// ---------------------------------------------------------------------
// Status
// ---------------------------------------------------------------------

/// The path at which a tracked file is looked for; a path that is not valid
/// UTF-8 leads to the top of the tree.
pub open spec fn plain_path(path: Seq<u8>) -> Seq<u8> {
    if valid_utf8(path) {
        path
    } else {
        Seq::empty()
    }
}

/// The path at which a tracked file is looked for.
pub fn work_path(path: &[u8]) -> (r: Vec<u8>)
    ensures
        r@ == plain_path(path@),
{
    if is_utf8(path) {
        to_vec(path)
    } else {
        let none: Vec<u8> = Vec::new();
        assert(none@ =~= Seq::<u8>::empty());
        none
    }
}

/// The bytes that a file is stored as: its contents, or where it points.
pub open spec fn stored_bytes(f: WorkFileView) -> Seq<u8> {
    if f.kind == FileKind::Symlink {
        encode_utf8(text_of(f.data))
    } else {
        f.data
    }
}

/// The bytes that a file is stored as.
pub fn file_bytes(f: &WorkFile) -> (r: Vec<u8>)
    ensures
        r@ == stored_bytes(f@),
{
    if f.kind == FileKind::Symlink {
        let s = lossy_string(&f.data);
        to_vec(s.as_str().as_bytes())
    } else {
        to_vec(&f.data)
    }
}

/// What the working tree and HEAD say of an index entry, or why the file
/// cannot be read.
pub open spec fn entry_changes(
    work: DirView<WorkFileView>,
    head: Map<Seq<u8>, Seq<u8>>,
    e: IndexEntryView,
) -> Result<Seq<ChangeView>, IoError> {
    let staged = if head.contains_key(e.path) && head[e.path] == e.id {
        Seq::empty()
    } else {
        seq![ChangeView::Staged(e.path)]
    };
    match seen(work, plain_path(e.path)) {
        Ok(f) => if object_id(ObjectKind::Blob, stored_bytes(f)) != e.id {
            Ok(seq![ChangeView::Modified(e.path)] + staged)
        } else {
            Ok(staged)
        },
        Err(IoError::NotFound) => Ok(seq![ChangeView::Deleted(e.path)] + staged),
        Err(x) => Err(x),
    }
}

/// The changes of the first `n` entries; entries in conflict are passed
/// over.
pub open spec fn tracked_changes(
    work: DirView<WorkFileView>,
    head: Map<Seq<u8>, Seq<u8>>,
    es: Seq<IndexEntryView>,
    n: nat,
) -> Result<Seq<ChangeView>, IoError>
    decreases n,
{
    if n == 0 {
        Ok(Seq::empty())
    } else {
        match tracked_changes(work, head, es, (n - 1) as nat) {
            Err(x) => Err(x),
            Ok(done) => if es[n - 1].stage != 0 {
                Ok(done)
            } else {
                match entry_changes(work, head, es[n - 1]) {
                    Err(x) => Err(x),
                    Ok(cs) => Ok(done + cs),
                }
            },
        }
    }
}

/// The paths of the resolved entries.
pub open spec fn tracked_paths(es: Seq<IndexEntryView>) -> Set<Seq<u8>>
    decreases es.len(),
{
    if es.len() == 0 {
        Set::empty()
    } else if es.last().stage == 0 {
        tracked_paths(es.drop_last()).insert(es.last().path)
    } else {
        tracked_paths(es.drop_last())
    }
}

/// The paths of all entries, those in conflict too.
pub open spec fn entry_paths(es: Seq<IndexEntryView>) -> Set<Seq<u8>>
    decreases es.len(),
{
    if es.len() == 0 {
        Set::empty()
    } else {
        entry_paths(es.drop_last()).insert(es.last().path)
    }
}

/// Those of the first `n` files of HEAD that the index has no entry for:
/// their removal is staged.
pub open spec fn removed_changes(paths: Seq<Seq<u8>>, n: nat, known: Set<Seq<u8>>) -> Seq<
    ChangeView,
>
    decreases n,
{
    if n == 0 {
        Seq::empty()
    } else {
        let done = removed_changes(paths, (n - 1) as nat, known);
        if known.contains(paths[n - 1]) {
            done
        } else {
            done.push(ChangeView::Staged(paths[n - 1]))
        }
    }
}

/// Those of the first `n` files that are not known. What belongs to a
/// `.git` is passed over.
pub open spec fn untracked_changes(paths: Seq<Seq<u8>>, n: nat, known: Set<Seq<u8>>) -> Seq<
    ChangeView,
>
    decreases n,
{
    if n == 0 {
        Seq::empty()
    } else {
        let done = untracked_changes(paths, (n - 1) as nat, known);
        let name = encode_utf8(text_of(paths[n - 1]));
        if parts(paths[n - 1]).contains(ascii(".git"@)) || known.contains(name) {
            done
        } else {
            done.push(ChangeView::Untracked(name))
        }
    }
}

/// The error of a strict walk.
pub open spec fn walk_fault(e: WalkErrorView) -> WorkdirErrorView {
    match e {
        WalkErrorView::Odb(x) => WorkdirErrorView::Odb(x),
        WalkErrorView::NotATree(k) => WorkdirErrorView::UnexpectedKind(k),
    }
}

/// The tree of the commit at HEAD. There is none where there is no commit
/// yet, or where HEAD leads to something else.
pub open spec fn head_tree(repo: RepoView) -> Result<Option<Seq<u8>>, WorkdirErrorView> {
    match ref_value(repo, ascii("HEAD"@)) {
        Err(RefErrorView::RefNotFound(_)) => Ok(None),
        Err(e) => Err(WorkdirErrorView::Refs(e)),
        Ok(id) => match repo.store().object(id) {
            Err(e) => Err(WorkdirErrorView::Odb(e)),
            Ok(ObjectView::Commit(c)) => Ok(Some(c.tree)),
            Ok(_) => Ok(None),
        },
    }
}

/// The files of the tree at HEAD.
pub open spec fn head_files(repo: RepoView) -> Result<Map<Seq<u8>, Seq<u8>>, WorkdirErrorView> {
    match head_tree(repo) {
        Err(e) => Err(e),
        Ok(None) => Ok(Map::empty()),
        Ok(Some(tree)) => match files_of_tree(repo.store(), tree, true) {
            Err(e) => Err(walk_fault(e)),
            Ok(m) => Ok(m),
        },
    }
}

/// The differences between HEAD, index and working tree: first those of the
/// tracked files in index order, then the files of HEAD that the index lacks
/// by path, then the untracked files by path.
pub open spec fn status_of(repo: RepoView) -> Result<Seq<ChangeView>, WorkdirErrorView> {
    if repo.work_dir is None {
        Err(WorkdirErrorView::NoWorkTree)
    } else {
        match index_of(repo.git) {
            Err(e) => Err(WorkdirErrorView::Index(e)),
            Ok(index) => match head_files(repo) {
                Err(e) => Err(e),
                Ok(head) => match tracked_changes(
                    repo.work,
                    head,
                    index.entries,
                    index.entries.len(),
                ) {
                    Err(x) => Err(WorkdirErrorView::Io(x)),
                    Ok(cs) => {
                        let gone = sorted_keys(head.dom());
                        let paths = sorted_keys(repo.work.files.dom());
                        Ok(
                            cs + removed_changes(
                                gone,
                                gone.len(),
                                entry_paths(index.entries),
                            ) + untracked_changes(
                                paths,
                                paths.len(),
                                tracked_paths(index.entries),
                            ),
                        )
                    },
                },
            },
        }
    }
}

/// An error early in the list is the error of the list.
proof fn tracked_changes_error(
    work: DirView<WorkFileView>,
    head: Map<Seq<u8>, Seq<u8>>,
    es: Seq<IndexEntryView>,
    k: nat,
    n: nat,
)
    requires
        k <= n,
        tracked_changes(work, head, es, k) is Err,
    ensures
        tracked_changes(work, head, es, n) == tracked_changes(work, head, es, k),
    decreases n,
{
    if k < n {
        tracked_changes_error(work, head, es, k, (n - 1) as nat);
    }
}

/// Compares an index entry with working tree and HEAD.
fn compare_entry(
    work: &WorkTree,
    head: &ByteMap<ObjectId>,
    e: &IndexEntry,
    out: &mut Vec<WorkdirChange>,
) -> (r: Result<(), IoError>)
    ensures
        match r {
            Ok(_) => entry_changes(work@, head@, e@) matches Ok(cs) && changes_view(final(out)@)
                == changes_view(old(out)@) + cs,
            Err(x) => entry_changes(work@, head@, e@) == Err::<Seq<ChangeView>, _>(x),
        },
{
    let ghost start = changes_view(out@);
    let path = work_path(&e.path);
    match look(work, &path) {
        Ok(f) => {
            let bytes = file_bytes(f);
            if ObjectId::compute(ObjectKind::Blob, &bytes) != e.id {
                let ghost before = out@;
                out.push(WorkdirChange::Modified(to_vec(&e.path)));
                assert(changes_view(out@) =~= start + seq![ChangeView::Modified(e.path@)]);
            } else {
                assert(changes_view(out@) =~= start + Seq::<ChangeView>::empty());
            }
        },
        Err(IoError::NotFound) => {
            out.push(WorkdirChange::Deleted(to_vec(&e.path)));
            assert(changes_view(out@) =~= start + seq![ChangeView::Deleted(e.path@)]);
        },
        Err(x) => return Err(x),
    }
    let ghost middle = changes_view(out@);
    let same = match head.get(&e.path) {
        Some(id) => *id == e.id,
        None => false,
    };
    if !same {
        let ghost before = out@;
        out.push(WorkdirChange::Staged(to_vec(&e.path)));
        assert(changes_view(out@) =~= middle.push(ChangeView::Staged(e.path@)));
    }
    proof {
        let cs = entry_changes(work@, head@, e@)->Ok_0;
        assert(changes_view(out@) =~= start + cs);
    }
    Ok(())
}

impl Repository {
    /// The tree of the commit at HEAD.
    fn resolve_head_tree(&self) -> (r: Result<Option<ObjectId>, WorkdirError>)
        ensures
            match r {
                Ok(Some(id)) => head_tree(self@) == Ok::<_, WorkdirErrorView>(Some(id@)),
                Ok(None) => head_tree(self@) == Ok::<Option<Seq<u8>>, WorkdirErrorView>(None),
                Err(e) => head_tree(self@) == Err::<Option<Seq<u8>>, _>(e@),
            },
    {
        proof {
            reveal_strlit("HEAD");
        }
        let id = match self.read_ref_bytes(crate::bytes::text("HEAD")) {
            Ok(id) => id,
            Err(RefError::RefNotFound(_)) => return Ok(None),
            Err(e) => return Err(WorkdirError::Refs(e)),
        };
        match self.read_object(&id) {
            Err(e) => Err(WorkdirError::Odb(e)),
            Ok(Object::Commit(c)) => Ok(Some(c.tree)),
            Ok(_) => Ok(None),
        }
    }

    /// The files of the tree at HEAD.
    fn load_head_files(&self) -> (r: Result<ByteMap<ObjectId>, WorkdirError>)
        ensures
            match r {
                Ok(m) => head_files(self@) == Ok::<_, WorkdirErrorView>(m@),
                Err(e) => head_files(self@) == Err::<Map<Seq<u8>, Seq<u8>>, _>(e@),
            },
    {
        match self.resolve_head_tree() {
            Err(e) => Err(e),
            Ok(None) => Ok(ByteMap::new()),
            Ok(Some(tree)) => match self.tree_paths(&tree, true) {
                Ok(m) => Ok(m),
                Err(WalkError::Odb(e)) => Err(WorkdirError::Odb(e)),
                Err(WalkError::NotATree(k)) => Err(WorkdirError::UnexpectedKind(k)),
            },
        }
    }

    /// Reports the differences between HEAD, index and working tree.
    pub fn status(&self) -> (r: Result<WorkdirStatus, WorkdirError>)
        ensures
            match r {
                Ok(s) => status_of(self@) == Ok::<_, WorkdirErrorView>(changes_view(s.changes@)),
                Err(e) => status_of(self@) == Err::<Seq<ChangeView>, _>(e@),
            },
    {
        if self.work_dir().is_none() {
            return Err(WorkdirError::NoWorkTree);
        }
        let index = match self.read_index() {
            Ok(i) => i,
            Err(e) => return Err(WorkdirError::Index(e)),
        };
        let head = match self.load_head_files() {
            Ok(m) => m,
            Err(e) => return Err(e),
        };
        let entries = index.entries();
        let ghost es = index@.entries;
        let ghost all = tracked_changes(self@.work, head@, es, es.len());
        let mut changes: Vec<WorkdirChange> = Vec::new();
        let mut known: ByteMap<()> = ByteMap::new();
        let mut listed: ByteMap<()> = ByteMap::new();
        let mut i: usize = 0;
        proof {
            assert(changes_view(changes@) =~= Seq::<ChangeView>::empty());
            assert(known@.dom() =~= tracked_paths(es.take(0)));
            assert(listed@.dom() =~= entry_paths(es.take(0)));
        }
        while i < entries.len()
            invariant
                i <= entries@.len(),
                es == entries_view(entries@),
                all == tracked_changes(self@.work, head@, es, es.len()),
                tracked_changes(self@.work, head@, es, i as nat) == Ok::<_, IoError>(
                    changes_view(changes@),
                ),
                known@.dom() == tracked_paths(es.take(i as int)),
                listed@.dom() == entry_paths(es.take(i as int)),
                all is Err ==> status_of(self@) == Err::<Seq<ChangeView>, _>(
                    WorkdirErrorView::Io(all->Err_0),
                ),
            decreases entries.len() - i,
        {
            let e = &entries[i];
            proof {
                assert(es[i as int] == e@);
                assert(es.take(i + 1).drop_last() =~= es.take(i as int));
                assert(es.take(i + 1).last() == e@);
            }
            listed.put(&e.path, ());
            assert(listed@.dom() =~= entry_paths(es.take(i + 1)));
            if e.stage == 0 {
                known.put(&e.path, ());
                assert(known@.dom() =~= tracked_paths(es.take(i + 1)));
                match compare_entry(self.work(), &head, e, &mut changes) {
                    Ok(_) => {},
                    Err(x) => {
                        proof {
                            tracked_changes_error(
                                self@.work,
                                head@,
                                es,
                                (i + 1) as nat,
                                es.len(),
                            );
                        }
                        return Err(WorkdirError::Io(x));
                    },
                }
            }
            i += 1;
        }
        assert(es.take(i as int) =~= es);
        let ghost cs = changes_view(changes@);
        let n: usize = head.count();
        let ghost gone = head.keys();
        let ghost ls = listed@.dom();
        let mut i: usize = 0;
        assert(changes_view(changes@) =~= cs + removed_changes(gone, 0, ls));
        while i < n
            invariant
                i <= n,
                n == gone.len(),
                gone == head.keys(),
                ls == listed@.dom(),
                changes_view(changes@) == cs + removed_changes(gone, i as nat, ls),
            decreases n - i,
        {
            let path = head.key(i);
            let ghost before = changes@;
            if !listed.has(path) {
                changes.push(WorkdirChange::Staged(to_vec(path)));
                assert(changes_view(changes@) =~= changes_view(before).push(
                    ChangeView::Staged(path@),
                ));
            }
            assert(changes_view(changes@) =~= cs + removed_changes(gone, (i + 1) as nat, ls));
            i += 1;
        }
        let ghost cs = changes_view(changes@);
        let files = self.work().files();
        let n: usize = files.count();
        let ghost paths = files.keys();
        let ghost ts = known@.dom();
        let mut i: usize = 0;
        assert(changes_view(changes@) =~= cs + untracked_changes(paths, 0, ts));
        while i < n
            invariant
                i <= n,
                n == paths.len(),
                paths == files.keys(),
                ts == known@.dom(),
                changes_view(changes@) == cs + untracked_changes(paths, i as nat, ts),
            decreases n - i,
        {
            let path = files.key(i);
            let ghost before = changes@;
            if !in_git_dir(path) {
                let name = lossy_string(path);
                let bytes = name.as_str().as_bytes();
                if !known.has(bytes) {
                    changes.push(WorkdirChange::Untracked(to_vec(bytes)));
                    assert(changes_view(changes@) =~= changes_view(before).push(
                        ChangeView::Untracked(bytes@),
                    ));
                }
            }
            assert(changes_view(changes@) =~= cs + untracked_changes(paths, (i + 1) as nat, ts));
            i += 1;
        }
        Ok(WorkdirStatus { changes })
    }
}

} // verus!
