//! Checking a tree out into the working tree.

use vstd::prelude::*;
use vstd::utf8::valid_utf8;

use super::{plain_path, work_path, WorkdirError, WorkdirErrorView};
use crate::bytes::{has_byte, NUL};
use crate::dir::{Dir, DirView};
use crate::files::IoError;
use crate::index::laws::upserted;
use crate::index::{Index, IndexEntry, IndexEntryView, Time};
use crate::notation::is_utf8;
use crate::object::{EntryMode, Object, ObjectId, ObjectView, TreeEntry, TreeEntryView};
use crate::odb::{OdbError, OdbErrorView, RepoView, Repository, Store};
use crate::treewalk::{child_path, join_child, object_bound};
use crate::worktree::places::{
    behind_link, dir_made, find_behind, io_fault, link_made, make_dir, make_link, unlink, unlinked,
    write_through, written_through,
};
use crate::worktree::{Behind, BehindView, FileKind, WorkFile, WorkFileView, WorkTree};

verus! {

/// A checkout under way: the working tree and the entries staged so far.
pub struct Checkout {
    pub work: DirView<WorkFileView>,
    pub entries: Seq<IndexEntryView>,
}

/// The path at which an entry is checked out. A name that is not valid
/// UTF-8 leads to the directory itself.
pub open spec fn file_path(prefix: Seq<u8>, name: Seq<u8>) -> Seq<u8> {
    if valid_utf8(name) {
        child_path(plain_path(prefix), name)
    } else {
        plain_path(prefix)
    }
}

/// The path at which an entry is checked out.
fn entry_file_path(prefix: &[u8], name: &[u8]) -> (r: Vec<u8>)
    ensures
        r@ == file_path(prefix@, name@),
{
    let dir = work_path(prefix);
    if is_utf8(name) {
        join_child(&dir, name)
    } else {
        dir
    }
}

/// The file that an entry is checked out as.
pub open spec fn checked_file(
    kind: FileKind,
    data: Seq<u8>,
    behind: BehindView,
    now: Time,
) -> WorkFileView {
    WorkFileView { kind, data, behind, ctime: now, mtime: now }
}

/// The index entry of a checked out file.
pub open spec fn checked_entry(
    mode: u32,
    data: Seq<u8>,
    id: Seq<u8>,
    path: Seq<u8>,
    now: Time,
) -> IndexEntryView {
    IndexEntryView {
        ctime: now,
        mtime: now,
        dev: 0,
        ino: 0,
        mode,
        uid: 0,
        gid: 0,
        size: (data.len() % 0x1_0000_0000) as u32,
        id,
        assume_valid: false,
        stage: 0,
        path,
    }
}

/// The kind and index mode of a file entry.
pub open spec fn file_mode(mode: EntryMode) -> (FileKind, u32) {
    match mode {
        EntryMode::Executable => (FileKind::Executable, 0x81edu32),
        EntryMode::Symlink => (FileKind::Symlink, 0xa000u32),
        _ => (FileKind::Regular, 0x81a4u32),
    }
}

/// Why a text can not be what a link points at, if it can not.
pub open spec fn link_fault(data: Seq<u8>) -> Option<IoError> {
    if !valid_utf8(data) || data.len() == 0 {
        Some(IoError::NotFound)
    } else if data.contains(NUL) {
        Some(IoError::InvalidInput)
    } else {
        None
    }
}

/// The working tree with a file or link checked out at a path, and what went
/// wrong, if anything. A file is written through a link that is there; a link
/// replaces the file or link that is there.
pub open spec fn checked_out(
    work: DirView<WorkFileView>,
    path: Seq<u8>,
    kind: FileKind,
    data: Seq<u8>,
    now: Time,
) -> (DirView<WorkFileView>, Option<IoError>) {
    if kind == FileKind::Symlink {
        let gone = unlinked(work, path);
        if link_fault(data) is Some {
            (gone, link_fault(data))
        } else {
            link_made(gone, path, checked_file(kind, data, behind_link(work, path, data), now))
        }
    } else {
        written_through(work, path, checked_file(kind, data, BehindView::Nothing, now))
    }
}

/// Checks out a file or link, whose contents are known.
pub open spec fn checkout_data(
    e: TreeEntryView,
    data: Seq<u8>,
    prefix: Seq<u8>,
    now: Time,
    st: Checkout,
) -> (Checkout, Option<WorkdirErrorView>) {
    let (kind, mode) = file_mode(e.mode);
    let (work, fault) = checked_out(st.work, file_path(prefix, e.name), kind, data, now);
    match fault {
        Some(x) => (Checkout { work, entries: st.entries }, Some(WorkdirErrorView::Io(x))),
        None => (
            Checkout {
                work,
                entries: upserted(
                    st.entries,
                    checked_entry(mode, data, e.id, child_path(prefix, e.name), now),
                ),
            },
            None,
        ),
    }
}

/// Makes a directory during a checkout.
pub open spec fn checkout_dir(path: Seq<u8>, st: Checkout) -> (Checkout, Option<WorkdirErrorView>) {
    let (work, fault) = dir_made(st.work, path);
    (
        Checkout { work, entries: st.entries },
        match fault {
            Some(x) => Some(WorkdirErrorView::Io(x)),
            None => None,
        },
    )
}

/// Checks out an entry that is no subtree. A submodule becomes an empty
/// directory.
pub open spec fn checkout_leaf(
    s: Store,
    e: TreeEntryView,
    prefix: Seq<u8>,
    now: Time,
    st: Checkout,
) -> (Checkout, Option<WorkdirErrorView>) {
    if e.mode == EntryMode::Gitlink {
        checkout_dir(file_path(prefix, e.name), st)
    } else {
        match s.object(e.id) {
            Err(x) => (st, Some(WorkdirErrorView::Odb(x))),
            Ok(ObjectView::Blob(data)) => checkout_data(e, data, prefix, now, st),
            Ok(o) => (st, Some(WorkdirErrorView::UnexpectedKind(o.kind()))),
        }
    }
}

/// Checks out a tree below `prefix`: what has become of the checkout, and
/// what stopped it, if anything. `fuel` bounds the depth.
pub open spec fn checkout_tree(
    s: Store,
    id: Seq<u8>,
    prefix: Seq<u8>,
    now: Time,
    fuel: nat,
    st: Checkout,
) -> (Checkout, Option<WorkdirErrorView>)
    decreases fuel, 0nat,
{
    if fuel == 0 {
        (st, Some(WorkdirErrorView::Odb(OdbErrorView::CyclicObjects(id))))
    } else {
        match s.object(id) {
            Err(x) => (st, Some(WorkdirErrorView::Odb(x))),
            Ok(ObjectView::Tree(es)) => {
                let (inside, fault) = checkout_dir(plain_path(prefix), st);
                if fault is Some {
                    (inside, fault)
                } else {
                    checkout_entries(s, es, es.len(), prefix, now, (fuel - 1) as nat, inside)
                }
            },
            Ok(o) => (st, Some(WorkdirErrorView::UnexpectedKind(o.kind()))),
        }
    }
}

/// Checks out the first `n` entries of a tree.
pub open spec fn checkout_entries(
    s: Store,
    es: Seq<TreeEntryView>,
    n: nat,
    prefix: Seq<u8>,
    now: Time,
    fuel: nat,
    st: Checkout,
) -> (Checkout, Option<WorkdirErrorView>)
    decreases fuel, n + 1,
{
    if n == 0 {
        (st, None)
    } else {
        let (done, fault) = checkout_entries(s, es, (n - 1) as nat, prefix, now, fuel, st);
        if fault is Some {
            (done, fault)
        } else if es[n - 1].mode == EntryMode::Tree {
            checkout_tree(
                s,
                es[n - 1].id,
                child_path(prefix, es[n - 1].name),
                now,
                fuel,
                done,
            )
        } else {
            checkout_leaf(s, es[n - 1], prefix, now, done)
        }
    }
}

/// What stops the first entries stops the list.
proof fn checkout_stops(
    s: Store,
    es: Seq<TreeEntryView>,
    k: nat,
    n: nat,
    prefix: Seq<u8>,
    now: Time,
    fuel: nat,
    st: Checkout,
)
    requires
        k <= n,
        checkout_entries(s, es, k, prefix, now, fuel, st).1 is Some,
    ensures
        checkout_entries(s, es, n, prefix, now, fuel, st) == checkout_entries(
            s,
            es,
            k,
            prefix,
            now,
            fuel,
            st,
        ),
    decreases n,
{
    if k < n {
        checkout_stops(s, es, k, (n - 1) as nat, prefix, now, fuel, st);
    }
}

/// The state of a checkout.
pub open spec fn state(work: DirView<WorkFileView>, index: Index) -> Checkout {
    Checkout { work, entries: index@.entries }
}

/// What a result says of the outcome.
pub open spec fn fault_of(r: Result<(), WorkdirError>) -> Option<WorkdirErrorView> {
    match r {
        Ok(_) => None,
        Err(e) => Some(e@),
    }
}

/// Checks out a file or link at a path.
fn write_out(work: &mut WorkTree, path: &[u8], kind: FileKind, data: Vec<u8>, now: Time) -> (r:
    Result<(), IoError>)
    ensures
        checked_out(old(work)@, path@, kind, data@, now) == (final(work)@, io_fault(r)),
{
    if kind != FileKind::Symlink {
        let file = WorkFile { kind, data, behind: Behind::Nothing, ctime: now, mtime: now };
        return write_through(work, path, file);
    }
    let behind = find_behind(work, path, &data);
    unlink(work, path);
    if !is_utf8(&data) || data.len() == 0 {
        return Err(IoError::NotFound);
    }
    if has_byte(&data, NUL) {
        return Err(IoError::InvalidInput);
    }
    make_link(work, path, WorkFile { kind, data, behind, ctime: now, mtime: now })
}

/// Writes a checked out file and stages it.
fn write_checked(
    entry: &TreeEntry,
    data: Vec<u8>,
    prefix: &[u8],
    now: Time,
    work: &mut WorkTree,
    index: &mut Index,
) -> (r: Result<(), WorkdirError>)
    requires
        entry.mode != EntryMode::Tree,
        entry.mode != EntryMode::Gitlink,
    ensures
        checkout_data(entry@, data@, prefix@, now, state(old(work)@, *old(index))) == (
            state(final(work)@, *final(index)),
            fault_of(r),
        ),
        final(index)@.extensions == old(index)@.extensions,
{
    let path = entry_file_path(prefix, &entry.name);
    let (kind, mode): (FileKind, u32) = match entry.mode {
        EntryMode::Executable => (FileKind::Executable, 0x81ed),
        EntryMode::Symlink => (FileKind::Symlink, 0xa000),
        _ => (FileKind::Regular, 0x81a4),
    };
    let size: u32 = (data.len() as u64 % 0x1_0000_0000) as u32;
    match write_out(work, &path, kind, data, now) {
        Err(e) => return Err(WorkdirError::Io(e)),
        Ok(_) => {},
    }
    index.upsert(
        IndexEntry {
            ctime: now,
            mtime: now,
            dev: 0,
            ino: 0,
            mode,
            uid: 0,
            gid: 0,
            size,
            id: entry.id,
            assume_valid: false,
            stage: 0,
            path: join_child(prefix, &entry.name),
        },
    );
    Ok(())
}

/// Checks out an entry that is no subtree.
fn checkout_plain_entry(
    repo: &Repository,
    entry: &TreeEntry,
    prefix: &[u8],
    now: Time,
    work: &mut WorkTree,
    index: &mut Index,
) -> (r: Result<(), WorkdirError>)
    requires
        entry.mode != EntryMode::Tree,
    ensures
        checkout_leaf(
            repo@.store(),
            entry@,
            prefix@,
            now,
            state(old(work)@, *old(index)),
        ) == (state(final(work)@, *final(index)), fault_of(r)),
        final(index)@.extensions == old(index)@.extensions,
{
    if entry.mode == EntryMode::Gitlink {
        let path = entry_file_path(prefix, &entry.name);
        return match make_dir(work, &path) {
            Ok(_) => Ok(()),
            Err(e) => Err(WorkdirError::Io(e)),
        };
    }
    match repo.read_object(&entry.id) {
        Err(e) => Err(WorkdirError::Odb(e)),
        Ok(Object::Blob(b)) => write_checked(entry, b.data, prefix, now, work, index),
        Ok(o) => Err(WorkdirError::UnexpectedKind(o.kind())),
    }
}

/// Checks out a tree below `prefix`.
fn checkout_tree_recursive(
    repo: &Repository,
    id: &ObjectId,
    prefix: &[u8],
    now: Time,
    fuel: usize,
    work: &mut WorkTree,
    index: &mut Index,
) -> (r: Result<(), WorkdirError>)
    ensures
        checkout_tree(
            repo@.store(),
            id@,
            prefix@,
            now,
            fuel as nat,
            state(old(work)@, *old(index)),
        ) == (state(final(work)@, *final(index)), fault_of(r)),
        final(index)@.extensions == old(index)@.extensions,
    decreases fuel,
{
    if fuel == 0 {
        return Err(WorkdirError::Odb(OdbError::CyclicObjects(*id)));
    }
    let tree = match repo.read_object(id) {
        Err(e) => return Err(WorkdirError::Odb(e)),
        Ok(Object::Tree(t)) => t,
        Ok(o) => return Err(WorkdirError::UnexpectedKind(o.kind())),
    };
    let dir = work_path(prefix);
    match make_dir(work, &dir) {
        Ok(_) => {},
        Err(e) => return Err(WorkdirError::Io(e)),
    }
    let ghost s = repo@.store();
    let ghost es = tree@;
    let ghost start = state(work@, *index);
    let ghost goal = checkout_tree(
        s,
        id@,
        prefix@,
        now,
        fuel as nat,
        state(old(work)@, *old(index)),
    );
    let mut i: usize = 0;
    while i < tree.entries.len()
        invariant
            i <= tree.entries@.len(),
            fuel > 0,
            s == repo@.store(),
            es == tree@,
            goal == checkout_tree(
                s,
                id@,
                prefix@,
                now,
                fuel as nat,
                state(old(work)@, *old(index)),
            ),
            goal == checkout_entries(s, es, es.len(), prefix@, now, (fuel - 1) as nat, start),
            checkout_entries(s, es, i as nat, prefix@, now, (fuel - 1) as nat, start) == (
                state(work@, *index),
                None::<WorkdirErrorView>,
            ),
            index@.extensions == old(index)@.extensions,
        decreases tree.entries.len() - i,
    {
        let entry = &tree.entries[i];
        assert(es[i as int] == entry@);
        let r = if entry.mode == EntryMode::Tree {
            let path = join_child(prefix, &entry.name);
            checkout_tree_recursive(repo, &entry.id, &path, now, fuel - 1, work, index)
        } else {
            checkout_plain_entry(repo, entry, prefix, now, work, index)
        };
        match r {
            Ok(_) => {},
            Err(e) => {
                proof {
                    checkout_stops(
                        s,
                        es,
                        (i + 1) as nat,
                        es.len(),
                        prefix@,
                        now,
                        (fuel - 1) as nat,
                        start,
                    );
                }
                return Err(e);
            },
        }
        i += 1;
    }
    Ok(())
}

/// What checking out a tree gives: the state it ends in and what stopped
/// it, if anything.
pub open spec fn checkout_outcome(repo: RepoView, id: Seq<u8>, now: Time) -> (
    Checkout,
    Option<WorkdirErrorView>,
) {
    let start = Checkout { work: repo.work, entries: Seq::empty() };
    if repo.work_dir is None {
        (start, Some(WorkdirErrorView::NoWorkTree))
    } else {
        checkout_tree(
            repo.store(),
            id,
            Seq::empty(),
            now,
            object_bound(repo.store()),
            start,
        )
    }
}

impl Repository {
    /// Checks a tree out into the working tree, and gives an index of what
    /// was written. `now` is the time that the files get. Where it fails,
    /// what was written before stays.
    pub fn checkout(&mut self, tree_id: &ObjectId, now: Time) -> (r: Result<Index, WorkdirError>)
        ensures
            final(self)@ == (RepoView {
                work: checkout_outcome(old(self)@, tree_id@, now).0.work,
                ..old(self)@
            }),
            match r {
                Ok(index) => checkout_outcome(old(self)@, tree_id@, now).1 is None
                    && index@.entries == checkout_outcome(old(self)@, tree_id@, now).0.entries
                    && index@.extensions == Seq::<(Seq<u8>, Seq<u8>)>::empty(),
                Err(e) => checkout_outcome(old(self)@, tree_id@, now).1 == Some(e@),
            },
    {
        if self.work_dir().is_none() {
            return Err(WorkdirError::NoWorkTree);
        }
        let mut index = Index::new();
        let root: Vec<u8> = Vec::new();
        assert(root@ =~= Seq::<u8>::empty());
        let fuel: usize = self.object_bound();
        let mut work: WorkTree = Dir::new();
        std::mem::swap(self.work_mut(), &mut work);
        let r = checkout_tree_recursive(self, tree_id, &root, now, fuel, &mut work, &mut index);
        std::mem::swap(self.work_mut(), &mut work);
        match r {
            Ok(_) => Ok(index),
            Err(e) => Err(e),
        }
    }
}

} // verus!
