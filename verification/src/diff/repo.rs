//! Diffs of whole trees, of the index and of the working tree.

use vstd::prelude::*;
use vstd::string::StringExecFns;

use super::{unified, unified_diff};
use crate::bytemap::{sorted_keys, ByteMap};
use crate::bytes::{ascii, same_bytes, text};
use crate::dir::DirView;
use crate::files::IoError;
use crate::index::store::index_of;
use crate::index::{entries_view, Index, IndexEntryView, IndexError, IndexErrorView};
use crate::notation::{lossy_string, text_of};
use crate::object::{Object, ObjectId, ObjectKind, ObjectView, ParseError, ParseErrorView};
use crate::odb::{OdbError, OdbErrorView, RepoView, Repository, Store};
use crate::refs::{ref_value, RefError, RefErrorView};
use crate::treewalk::{files_of_tree, WalkError, WalkErrorView};
use crate::worktree::places::{read_through, read_work_file};
use crate::workdir::{plain_path, work_path, WorkdirError, WorkdirErrorView};
use crate::worktree::WorkFileView;

verus! {

/// Errors of diffs.
#[derive(Debug, Clone, PartialEq, Eq)]
pub enum DiffError {
    /// A file could not be read.
    Io(IoError),
    /// The object database failed.
    Odb(OdbError),
    /// The refs failed.
    Refs(RefError),
    /// The working tree failed.
    Workdir(WorkdirError),
    /// The index failed.
    Index(IndexError),
    /// An object cannot be parsed.
    Object(ParseError),
    /// The repository has no working tree.
    NoWorkTree,
}

/// What a [`DiffError`] says.
pub enum DiffErrorView {
    Io(IoError),
    Odb(OdbErrorView),
    Refs(RefErrorView),
    Workdir(WorkdirErrorView),
    Index(IndexErrorView),
    Object(ParseErrorView),
    NoWorkTree,
}

impl View for DiffError {
    type V = DiffErrorView;

    open spec fn view(&self) -> DiffErrorView {
        match self {
            DiffError::Io(e) => DiffErrorView::Io(*e),
            DiffError::Odb(e) => DiffErrorView::Odb(e@),
            DiffError::Refs(e) => DiffErrorView::Refs(e@),
            DiffError::Workdir(e) => DiffErrorView::Workdir(e@),
            DiffError::Index(e) => DiffErrorView::Index(e@),
            DiffError::Object(e) => DiffErrorView::Object(e@),
            DiffError::NoWorkTree => DiffErrorView::NoWorkTree,
        }
    }
}

/// The diff of one file: a title line and the unified diff with three lines
/// of context.
pub open spec fn file_diff(path: Seq<u8>, a: Seq<u8>, b: Seq<u8>) -> Seq<char> {
    let name = text_of(path);
    "diff --git a/"@ + name + " b/"@ + name + "\n"@ + unified(
        a,
        "a/"@ + name,
        b,
        "b/"@ + name,
        3,
    )
}

/// Formats the diff of one file.
fn format_file_diff(path: &[u8], a: &[u8], b: &[u8]) -> (r: String)
    ensures
        r@ == file_diff(path@, a@, b@),
{
    let name = lossy_string(path);
    let mut a_label = "a/".to_owned();
    a_label.append(name.as_str());
    let mut b_label = "b/".to_owned();
    b_label.append(name.as_str());
    let body = unified_diff(a, a_label.as_str(), b, b_label.as_str(), 3);
    let mut out = "diff --git a/".to_owned();
    out.append(name.as_str());
    out.append(" b/");
    out.append(name.as_str());
    out.append("\n");
    out.append(body.as_str());
    assert(out@ =~= file_diff(path@, a@, b@));
    out
}

/// The bytes of a blob; another object counts as empty.
pub open spec fn blob_data(s: Store, id: Seq<u8>) -> Result<Seq<u8>, OdbErrorView> {
    match s.raw(id) {
        Err(e) => Err(e),
        Ok((kind, payload)) => if kind == ObjectKind::Blob {
            Ok(payload)
        } else {
            Ok(Seq::empty())
        },
    }
}

/// The bytes of the blob that a map has for a path; none counts as empty.
pub open spec fn side_data(s: Store, m: Map<Seq<u8>, Seq<u8>>, path: Seq<u8>) -> Result<
    Seq<u8>,
    OdbErrorView,
> {
    if m.contains_key(path) {
        blob_data(s, m[path])
    } else {
        Ok(Seq::empty())
    }
}

/// The diffs of the first `n` paths between two maps from paths to blobs.
pub open spec fn map_diff(
    s: Store,
    a: Map<Seq<u8>, Seq<u8>>,
    b: Map<Seq<u8>, Seq<u8>>,
    paths: Seq<Seq<u8>>,
    n: nat,
) -> Result<Seq<char>, OdbErrorView>
    decreases n,
{
    if n == 0 {
        Ok(Seq::empty())
    } else {
        let p = paths[n - 1];
        match map_diff(s, a, b, paths, (n - 1) as nat) {
            Err(e) => Err(e),
            Ok(done) => if a.contains_key(p) && b.contains_key(p) && a[p] == b[p] {
                Ok(done)
            } else {
                match side_data(s, a, p) {
                    Err(e) => Err(e),
                    Ok(x) => match side_data(s, b, p) {
                        Err(e) => Err(e),
                        Ok(y) => Ok(done + file_diff(p, x, y)),
                    },
                }
            },
        }
    }
}

/// The diff between two maps from paths to blobs, by ascending path.
pub open spec fn maps_diff(s: Store, a: Map<Seq<u8>, Seq<u8>>, b: Map<Seq<u8>, Seq<u8>>) -> Result<
    Seq<char>,
    OdbErrorView,
> {
    let paths = sorted_keys(a.dom().union(b.dom()));
    map_diff(s, a, b, paths, paths.len())
}

/// The blobs of the resolved index entries by path.
pub open spec fn index_files(es: Seq<IndexEntryView>) -> Map<Seq<u8>, Seq<u8>>
    decreases es.len(),
{
    if es.len() == 0 {
        Map::empty()
    } else if es.last().stage == 0 {
        index_files(es.drop_last()).insert(es.last().path, es.last().id)
    } else {
        index_files(es.drop_last())
    }
}

/// The files of a tree; an object that is no tree has none.
pub open spec fn lenient_files(s: Store, id: Seq<u8>) -> Result<
    Map<Seq<u8>, Seq<u8>>,
    OdbErrorView,
> {
    match files_of_tree(s, id, false) {
        Ok(m) => Ok(m),
        Err(WalkErrorView::Odb(e)) => Err(e),
        Err(WalkErrorView::NotATree(_)) => Ok(Map::empty()),
    }
}

/// The diff between two trees.
pub open spec fn trees_diff(s: Store, a: Seq<u8>, b: Seq<u8>) -> Result<Seq<char>, DiffErrorView> {
    match lenient_files(s, a) {
        Err(e) => Err(DiffErrorView::Odb(e)),
        Ok(x) => match lenient_files(s, b) {
            Err(e) => Err(DiffErrorView::Odb(e)),
            Ok(y) => match maps_diff(s, x, y) {
                Err(e) => Err(DiffErrorView::Odb(e)),
                Ok(t) => Ok(t),
            },
        },
    }
}

/// The files of the tree at HEAD; `None` where HEAD leads to no commit.
pub open spec fn head_side(repo: RepoView) -> Result<
    Option<Map<Seq<u8>, Seq<u8>>>,
    DiffErrorView,
> {
    match ref_value(repo, ascii("HEAD"@)) {
        Err(e) => Err(DiffErrorView::Refs(e)),
        Ok(head) => match repo.store().object(head) {
            Err(e) => Err(DiffErrorView::Odb(e)),
            Ok(ObjectView::Commit(c)) => match lenient_files(repo.store(), c.tree) {
                Err(e) => Err(DiffErrorView::Odb(e)),
                Ok(x) => Ok(Some(x)),
            },
            Ok(_) => Ok(None),
        },
    }
}

/// The diff from the tree at HEAD to the index. Where HEAD leads to no
/// commit, it is empty.
pub open spec fn cached_diff(repo: RepoView) -> Result<Seq<char>, DiffErrorView> {
    match head_side(repo) {
        Err(e) => Err(e),
        Ok(None) => Ok(Seq::empty()),
        Ok(Some(x)) => match index_of(repo.git) {
            Err(e) => Err(DiffErrorView::Index(e)),
            Ok(index) => match maps_diff(repo.store(), x, index_files(index.entries)) {
                Err(e) => Err(DiffErrorView::Odb(e)),
                Ok(t) => Ok(t),
            },
        },
    }
}

/// The contents of a file of the working tree; a missing file is empty.
pub open spec fn work_data(work: DirView<WorkFileView>, path: Seq<u8>) -> Result<Seq<u8>, IoError> {
    match read_through(work, plain_path(path)) {
        Ok(b) => Ok(b),
        Err(IoError::NotFound) => Ok(Seq::empty()),
        Err(e) => Err(e),
    }
}

/// The first of the first `n` files that cannot be read, if any.
pub open spec fn work_fault(work: DirView<WorkFileView>, paths: Seq<Seq<u8>>, n: nat) -> Option<
    IoError,
>
    decreases n,
{
    if n == 0 {
        None
    } else if work_fault(work, paths, (n - 1) as nat) is Some {
        work_fault(work, paths, (n - 1) as nat)
    } else {
        match work_data(work, paths[n - 1]) {
            Ok(_) => None,
            Err(e) => Some(e),
        }
    }
}

/// The diffs of the first `n` paths from index to working tree.
pub open spec fn work_diff(
    s: Store,
    staged: Map<Seq<u8>, Seq<u8>>,
    work: DirView<WorkFileView>,
    paths: Seq<Seq<u8>>,
    n: nat,
) -> Result<Seq<char>, OdbErrorView>
    decreases n,
{
    if n == 0 {
        Ok(Seq::empty())
    } else {
        let p = paths[n - 1];
        let now = work_data(work, p)->Ok_0;
        match work_diff(s, staged, work, paths, (n - 1) as nat) {
            Err(e) => Err(e),
            Ok(done) => match blob_data(s, staged[p]) {
                Err(e) => Err(e),
                Ok(x) => if x == now {
                    Ok(done)
                } else {
                    Ok(done + file_diff(p, x, now))
                },
            },
        }
    }
}

/// The diff from the index to the working tree.
pub open spec fn unstaged_diff(repo: RepoView) -> Result<Seq<char>, DiffErrorView> {
    if repo.work_dir is None {
        Err(DiffErrorView::NoWorkTree)
    } else {
        match index_of(repo.git) {
            Err(e) => Err(DiffErrorView::Index(e)),
            Ok(index) => {
                let staged = index_files(index.entries);
                let paths = sorted_keys(staged.dom());
                match work_fault(repo.work, paths, paths.len()) {
                    Some(e) => Err(DiffErrorView::Io(e)),
                    None => match work_diff(
                        repo.store(),
                        staged,
                        repo.work,
                        paths,
                        paths.len(),
                    ) {
                        Err(e) => Err(DiffErrorView::Odb(e)),
                        Ok(t) => Ok(t),
                    },
                }
            },
        }
    }
}

/// The blobs of the resolved index entries.
fn index_paths(index: &Index) -> (r: ByteMap<ObjectId>)
    ensures
        r@ == index_files(index@.entries),
{
    let entries = index.entries();
    let ghost es = index@.entries;
    let mut out: ByteMap<ObjectId> = ByteMap::new();
    let mut i: usize = 0;
    assert(es.take(0) =~= Seq::<IndexEntryView>::empty());
    while i < entries.len()
        invariant
            i <= entries@.len(),
            es == entries_view(entries@),
            out@ == index_files(es.take(i as int)),
        decreases entries.len() - i,
    {
        let e = &entries[i];
        proof {
            assert(es.take(i + 1).drop_last() =~= es.take(i as int));
            assert(es.take(i + 1).last() == e@);
        }
        if e.stage == 0 {
            out.put(&e.path, e.id);
        }
        i += 1;
    }
    assert(es.take(i as int) =~= es);
    out
}

/// The keys of two maps together.
fn union_keys(a: &ByteMap<ObjectId>, b: &ByteMap<ObjectId>) -> (r: ByteMap<()>)
    ensures
        r@.dom() == a@.dom().union(b@.dom()),
{
    let mut out: ByteMap<()> = ByteMap::new();
    add_keys(a, &mut out);
    add_keys(b, &mut out);
    assert(out@.dom() =~= a@.dom().union(b@.dom()));
    out
}

/// Adds the keys of a map to a set.
fn add_keys(m: &ByteMap<ObjectId>, out: &mut ByteMap<()>)
    ensures
        final(out)@.dom() == old(out)@.dom().union(m@.dom()),
{
    let n: usize = m.count();
    let ghost keys = m.keys();
    let ghost start = out@.dom();
    let mut i: usize = 0;
    assert(out@.dom() =~= start.union(keys.take(0).to_set()));
    while i < n
        invariant
            i <= n,
            n == keys.len(),
            keys == m.keys(),
            out@.dom() == start.union(keys.take(i as int).to_set()),
        decreases n - i,
    {
        out.put(m.key(i), ());
        proof {
            let t = keys.take(i + 1);
            assert(t =~= keys.take(i as int).push(keys[i as int]));
            assert forall|k: Seq<u8>| t.to_set().contains(k) <==> keys.take(i as int).to_set().contains(k) || k == keys[i as int] by {
                if t.contains(k) {
                    let j = choose|j: int| 0 <= j < t.len() && t[j] == k;
                    if j < i {
                        assert(keys.take(i as int)[j] == k);
                    }
                }
                if keys.take(i as int).contains(k) {
                    let j = choose|j: int| 0 <= j < i && keys.take(i as int)[j] == k;
                    assert(t[j] == k);
                }
                assert(t[i as int] == keys[i as int]);
            }
            assert(out@.dom() =~= start.union(t.to_set()));
        }
        i += 1;
    }
    proof {
        assert(keys.take(i as int) =~= keys);
        assert(keys.to_set() =~= m@.dom());
    }
}

/// An error early in the list is the error of the list.
proof fn map_diff_error(
    s: Store,
    a: Map<Seq<u8>, Seq<u8>>,
    b: Map<Seq<u8>, Seq<u8>>,
    paths: Seq<Seq<u8>>,
    k: nat,
    n: nat,
)
    requires
        k <= n,
        map_diff(s, a, b, paths, k) is Err,
    ensures
        map_diff(s, a, b, paths, n) == map_diff(s, a, b, paths, k),
    decreases n,
{
    if k < n {
        map_diff_error(s, a, b, paths, k, (n - 1) as nat);
    }
}

/// An error early in the list is the error of the list.
proof fn work_diff_error(
    s: Store,
    staged: Map<Seq<u8>, Seq<u8>>,
    work: DirView<WorkFileView>,
    paths: Seq<Seq<u8>>,
    k: nat,
    n: nat,
)
    requires
        k <= n,
        work_diff(s, staged, work, paths, k) is Err,
    ensures
        work_diff(s, staged, work, paths, n) == work_diff(s, staged, work, paths, k),
    decreases n,
{
    if k < n {
        work_diff_error(s, staged, work, paths, k, (n - 1) as nat);
    }
}

/// A fault early in the list is the fault of the list.
proof fn work_fault_first(work: DirView<WorkFileView>, paths: Seq<Seq<u8>>, k: nat, n: nat)
    requires
        k <= n,
        work_fault(work, paths, k) is Some,
    ensures
        work_fault(work, paths, n) == work_fault(work, paths, k),
    decreases n,
{
    if k < n {
        work_fault_first(work, paths, k, (n - 1) as nat);
    }
}

impl Repository {
    /// The bytes of a blob.
    fn blob_bytes(&self, id: &ObjectId) -> (r: Result<Vec<u8>, OdbError>)
        ensures
            match r {
                Ok(b) => blob_data(self@.store(), id@) == Ok::<_, OdbErrorView>(b@),
                Err(e) => blob_data(self@.store(), id@) == Err::<Seq<u8>, _>(e@),
            },
    {
        match self.read_object_raw(id) {
            Err(e) => Err(e),
            Ok((kind, payload)) => if kind == ObjectKind::Blob {
                Ok(payload)
            } else {
                let none: Vec<u8> = Vec::new();
                assert(none@ =~= Seq::<u8>::empty());
                Ok(none)
            },
        }
    }

    /// The bytes of the blob that a map has for a path.
    fn side_bytes(&self, m: &ByteMap<ObjectId>, path: &[u8]) -> (r: Result<Vec<u8>, OdbError>)
        ensures
            match r {
                Ok(b) => side_data(self@.store(), m@, path@) == Ok::<_, OdbErrorView>(b@),
                Err(e) => side_data(self@.store(), m@, path@) == Err::<Seq<u8>, _>(e@),
            },
    {
        match m.get(path) {
            Some(id) => self.blob_bytes(id),
            None => {
                let none: Vec<u8> = Vec::new();
                assert(none@ =~= Seq::<u8>::empty());
                Ok(none)
            },
        }
    }

    /// The diff between two maps from paths to blobs.
    fn diff_path_maps(&self, a: &ByteMap<ObjectId>, b: &ByteMap<ObjectId>) -> (r: Result<
        String,
        OdbError,
    >)
        ensures
            match r {
                Ok(t) => maps_diff(self@.store(), a@, b@) == Ok::<_, OdbErrorView>(t@),
                Err(e) => maps_diff(self@.store(), a@, b@) == Err::<Seq<char>, _>(e@),
            },
    {
        let ghost s = self@.store();
        let all = union_keys(a, b);
        let n: usize = all.count();
        let ghost paths = all.keys();
        let mut out = String::new();
        let mut i: usize = 0;
        while i < n
            invariant
                i <= n,
                n == paths.len(),
                paths == all.keys(),
                paths == sorted_keys(a@.dom().union(b@.dom())),
                s == self@.store(),
                map_diff(s, a@, b@, paths, i as nat) == Ok::<_, OdbErrorView>(out@),
            decreases n - i,
        {
            let path = all.key(i);
            let same = match (a.get(path), b.get(path)) {
                (Some(x), Some(y)) => *x == *y,
                _ => false,
            };
            if !same {
                let x = match self.side_bytes(a, path) {
                    Ok(x) => x,
                    Err(e) => {
                        proof {
                            map_diff_error(s, a@, b@, paths, (i + 1) as nat, n as nat);
                        }
                        return Err(e);
                    },
                };
                let y = match self.side_bytes(b, path) {
                    Ok(y) => y,
                    Err(e) => {
                        proof {
                            map_diff_error(s, a@, b@, paths, (i + 1) as nat, n as nat);
                        }
                        return Err(e);
                    },
                };
                let t = format_file_diff(path, &x, &y);
                out.append(t.as_str());
            }
            i += 1;
        }
        Ok(out)
    }

    /// The files of a tree.
    fn lenient_paths(&self, id: &ObjectId) -> (r: Result<ByteMap<ObjectId>, OdbError>)
        ensures
            match r {
                Ok(m) => lenient_files(self@.store(), id@) == Ok::<_, OdbErrorView>(m@),
                Err(e) => lenient_files(self@.store(), id@) == Err::<Map<Seq<u8>, Seq<u8>>, _>(
                    e@,
                ),
            },
    {
        match self.tree_paths(id, false) {
            Ok(m) => Ok(m),
            Err(WalkError::Odb(e)) => Err(e),
            Err(WalkError::NotATree(_)) => Ok(ByteMap::new()),
        }
    }

    /// The unified diff between two trees.
    pub fn diff_trees(&self, a: &ObjectId, b: &ObjectId) -> (r: Result<String, DiffError>)
        ensures
            match r {
                Ok(t) => trees_diff(self@.store(), a@, b@) == Ok::<_, DiffErrorView>(t@),
                Err(e) => trees_diff(self@.store(), a@, b@) == Err::<Seq<char>, _>(e@),
            },
    {
        let x = match self.lenient_paths(a) {
            Ok(m) => m,
            Err(e) => return Err(DiffError::Odb(e)),
        };
        let y = match self.lenient_paths(b) {
            Ok(m) => m,
            Err(e) => return Err(DiffError::Odb(e)),
        };
        match self.diff_path_maps(&x, &y) {
            Ok(t) => Ok(t),
            Err(e) => Err(DiffError::Odb(e)),
        }
    }

    /// The files of the tree at HEAD.
    fn head_paths(&self) -> (r: Result<Option<ByteMap<ObjectId>>, DiffError>)
        ensures
            match r {
                Ok(Some(m)) => head_side(self@) == Ok::<_, DiffErrorView>(Some(m@)),
                Ok(None) => head_side(self@) == Ok::<
                    Option<Map<Seq<u8>, Seq<u8>>>,
                    DiffErrorView,
                >(None),
                Err(e) => head_side(self@) == Err::<Option<Map<Seq<u8>, Seq<u8>>>, _>(e@),
            },
    {
        proof {
            reveal_strlit("HEAD");
        }
        let head = match self.read_ref_bytes(text("HEAD")) {
            Ok(id) => id,
            Err(e) => return Err(DiffError::Refs(e)),
        };
        match self.read_object(&head) {
            Err(e) => Err(DiffError::Odb(e)),
            Ok(Object::Commit(c)) => match self.lenient_paths(&c.tree) {
                Ok(m) => Ok(Some(m)),
                Err(e) => Err(DiffError::Odb(e)),
            },
            Ok(_) => Ok(None),
        }
    }

    /// The unified diff from the tree at HEAD to the index.
    pub fn diff_index_vs_head(&self) -> (r: Result<String, DiffError>)
        ensures
            match r {
                Ok(t) => cached_diff(self@) == Ok::<_, DiffErrorView>(t@),
                Err(e) => cached_diff(self@) == Err::<Seq<char>, _>(e@),
            },
    {
        let x = match self.head_paths() {
            Err(e) => return Err(e),
            Ok(None) => {
                let none = String::new();
                assert(none@ =~= Seq::<char>::empty());
                return Ok(none);
            },
            Ok(Some(m)) => m,
        };
        let index = match self.read_index() {
            Ok(i) => i,
            Err(e) => return Err(DiffError::Index(e)),
        };
        let y = index_paths(&index);
        match self.diff_path_maps(&x, &y) {
            Ok(t) => Ok(t),
            Err(e) => Err(DiffError::Odb(e)),
        }
    }

    /// The contents of a file of the working tree.
    fn work_bytes(&self, path: &[u8]) -> (r: Result<Vec<u8>, IoError>)
        ensures
            match r {
                Ok(b) => work_data(self@.work, path@) == Ok::<_, IoError>(b@),
                Err(e) => work_data(self@.work, path@) == Err::<Seq<u8>, _>(e),
            },
    {
        let at = work_path(path);
        match read_work_file(self.work(), &at) {
            Ok(b) => Ok(crate::bytes::to_vec(b)),
            Err(IoError::NotFound) => {
                let none: Vec<u8> = Vec::new();
                assert(none@ =~= Seq::<u8>::empty());
                Ok(none)
            },
            Err(e) => Err(e),
        }
    }

    /// The unified diff from the index to the working tree.
    pub fn diff_working_vs_index(&self) -> (r: Result<String, DiffError>)
        ensures
            match r {
                Ok(t) => unstaged_diff(self@) == Ok::<_, DiffErrorView>(t@),
                Err(e) => unstaged_diff(self@) == Err::<Seq<char>, _>(e@),
            },
    {
        if self.work_dir().is_none() {
            return Err(DiffError::NoWorkTree);
        }
        let index = match self.read_index() {
            Ok(i) => i,
            Err(e) => return Err(DiffError::Index(e)),
        };
        let staged = index_paths(&index);
        let n: usize = staged.count();
        let ghost paths = staged.keys();
        let ghost s = self@.store();
        let ghost fault = work_fault(self@.work, paths, n as nat);
        let mut contents: Vec<Vec<u8>> = Vec::new();
        let mut i: usize = 0;
        while i < n
            invariant
                i <= n,
                n == paths.len(),
                paths == staged.keys(),
                contents@.len() == i,
                fault == work_fault(self@.work, paths, n as nat),
                fault matches Some(e) ==> unstaged_diff(self@) == Err::<Seq<char>, _>(
                    DiffErrorView::Io(e),
                ),
                work_fault(self@.work, paths, i as nat) is None,
                forall|k: int|
                    0 <= k < i ==> work_data(self@.work, paths[k]) == Ok::<_, IoError>(
                        (#[trigger] contents@[k])@,
                    ),
            decreases n - i,
        {
            match self.work_bytes(staged.key(i)) {
                Ok(b) => contents.push(b),
                Err(e) => {
                    proof {
                        work_fault_first(self@.work, paths, (i + 1) as nat, n as nat);
                    }
                    return Err(DiffError::Io(e));
                },
            }
            i += 1;
        }
        let mut out = String::new();
        let mut i: usize = 0;
        let ghost all = work_diff(s, staged@, self@.work, paths, n as nat);
        while i < n
            invariant
                i <= n,
                n == paths.len(),
                paths == staged.keys(),
                contents@.len() == n,
                s == self@.store(),
                all == work_diff(s, staged@, self@.work, paths, n as nat),
                all matches Err(e) ==> unstaged_diff(self@) == Err::<Seq<char>, _>(
                    DiffErrorView::Odb(e),
                ),
                forall|k: int|
                    0 <= k < n ==> work_data(self@.work, paths[k]) == Ok::<_, IoError>(
                        (#[trigger] contents@[k])@,
                    ),
                work_diff(s, staged@, self@.work, paths, i as nat) == Ok::<_, OdbErrorView>(out@),
            decreases n - i,
        {
            let path = staged.key(i);
            let x = match self.blob_bytes(staged.value(i)) {
                Ok(x) => x,
                Err(e) => {
                    proof {
                        work_diff_error(
                            s,
                            staged@,
                            self@.work,
                            paths,
                            (i + 1) as nat,
                            n as nat,
                        );
                    }
                    return Err(DiffError::Odb(e));
                },
            };
            let now = &contents[i];
            if !same_bytes(&x, now) {
                let t = format_file_diff(path, &x, now);
                out.append(t.as_str());
            }
            i += 1;
        }
        Ok(out)
    }
}

} // verus!
