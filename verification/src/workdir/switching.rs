//! Replacing the working tree by another tree.

use vstd::prelude::*;

use super::checkout::checkout_outcome;
use super::{plain_path, tracked_paths, work_path, WorkdirError, WorkdirErrorView};
use crate::bytemap::ByteMap;
use crate::bytes::ascii;
use crate::dir::DirView;
use crate::index::format::index_bytes;
use crate::index::store::index_of;
use crate::index::{
    entries_view, Index, IndexEntry, IndexEntryView, IndexError, IndexErrorView, IndexView, Time,
};
use crate::object::ObjectId;
use crate::odb::{RepoView, Repository};
use crate::worktree::places::{unlink, unlinked};
use crate::worktree::{WorkFileView, WorkTree};

verus! {

/// Why the working tree cannot be replaced.
#[derive(Debug, Clone, PartialEq, Eq)]
pub enum SwitchError {
    /// The index failed.
    Index(IndexError),
    /// The working tree failed.
    Workdir(WorkdirError),
}

/// What a [`SwitchError`] says.
pub enum SwitchErrorView {
    Index(IndexErrorView),
    Workdir(WorkdirErrorView),
}

impl View for SwitchError {
    type V = SwitchErrorView;

    open spec fn view(&self) -> SwitchErrorView {
        match self {
            SwitchError::Index(e) => SwitchErrorView::Index(e@),
            SwitchError::Workdir(e) => SwitchErrorView::Workdir(e@),
        }
    }
}

/// The working tree without those files of the first `n` old entries that
/// are not staged any more.
pub open spec fn without_stale(
    work: DirView<WorkFileView>,
    old_entries: Seq<IndexEntryView>,
    n: nat,
    kept: Set<Seq<u8>>,
) -> DirView<WorkFileView>
    decreases n,
{
    if n == 0 {
        work
    } else {
        let e = old_entries[n - 1];
        let done = without_stale(work, old_entries, (n - 1) as nat, kept);
        if e.stage == 0 && !kept.contains(e.path) {
            unlinked(done, plain_path(e.path))
        } else {
            done
        }
    }
}

/// The repository after its working tree and index were replaced by those
/// of a tree, and what went wrong, if anything. Files that were staged
/// before and are not in the tree are deleted.
pub open spec fn switched(repo: RepoView, tree: Seq<u8>, now: Time) -> (
    RepoView,
    Option<SwitchErrorView>,
) {
    match index_of(repo.git) {
        Err(e) => (repo, Some(SwitchErrorView::Index(e))),
        Ok(before) => {
            let (st, fault) = checkout_outcome(repo, tree, now);
            let index = IndexView { entries: st.entries, extensions: Seq::empty() };
            let work = without_stale(
                st.work,
                before.entries,
                before.entries.len(),
                tracked_paths(st.entries),
            );
            match fault {
                Some(e) => (RepoView { work: st.work, ..repo }, Some(SwitchErrorView::Workdir(e))),
                None => match repo.git.write_fault(ascii("index"@)) {
                    Some(e) => (
                        RepoView { work, ..repo },
                        Some(SwitchErrorView::Index(IndexErrorView::Io(e))),
                    ),
                    None => (
                        RepoView {
                            work,
                            git: repo.git.written(ascii("index"@), index_bytes(index)),
                            ..repo
                        },
                        None,
                    ),
                },
            }
        },
    }
}

/// The paths of the resolved entries.
fn collect_tracked(entries: &Vec<IndexEntry>) -> (r: ByteMap<()>)
    ensures
        r@.dom() == tracked_paths(entries_view(entries@)),
{
    let ghost es = entries_view(entries@);
    let mut out: ByteMap<()> = ByteMap::new();
    let mut i: usize = 0;
    assert(out@.dom() =~= tracked_paths(es.take(0)));
    while i < entries.len()
        invariant
            i <= entries@.len(),
            es == entries_view(entries@),
            out@.dom() == tracked_paths(es.take(i as int)),
        decreases entries.len() - i,
    {
        let e = &entries[i];
        proof {
            assert(es.take(i + 1).drop_last() =~= es.take(i as int));
            assert(es.take(i + 1).last() == e@);
        }
        if e.stage == 0 {
            out.put(&e.path, ());
        }
        assert(out@.dom() =~= tracked_paths(es.take(i + 1)));
        i += 1;
    }
    assert(es.take(i as int) =~= es);
    out
}

/// Deletes the files of old entries that are not kept.
fn remove_stale(work: &mut WorkTree, entries: &Vec<IndexEntry>, kept: &ByteMap<()>)
    ensures
        final(work)@ == without_stale(
            old(work)@,
            entries_view(entries@),
            entries@.len(),
            kept@.dom(),
        ),
{
    let ghost es = entries_view(entries@);
    let ghost start = work@;
    let mut i: usize = 0;
    while i < entries.len()
        invariant
            i <= entries@.len(),
            es == entries_view(entries@),
            work@ == without_stale(start, es, i as nat, kept@.dom()),
        decreases entries.len() - i,
    {
        let e = &entries[i];
        assert(es[i as int] == e@);
        if e.stage == 0 && !kept.has(&e.path) {
            let path = work_path(&e.path);
            unlink(work, &path);
        }
        i += 1;
    }
}

/// What a result says of the outcome.
pub open spec fn switch_fault(r: Result<(), SwitchError>) -> Option<SwitchErrorView> {
    match r {
        Ok(_) => None,
        Err(e) => Some(e@),
    }
}

impl Repository {
    /// Replaces working tree and index by those of a tree.
    pub fn switch_work_tree(&mut self, tree: &ObjectId, now: Time) -> (r: Result<(), SwitchError>)
        ensures
            switched(old(self)@, tree@, now) == (final(self)@, switch_fault(r)),
    {
        let before = match self.read_index() {
            Ok(i) => i,
            Err(e) => return Err(SwitchError::Index(e)),
        };
        let index = match self.checkout(tree, now) {
            Ok(i) => i,
            Err(e) => return Err(SwitchError::Workdir(e)),
        };
        let kept = collect_tracked(index.entries());
        remove_stale(self.work_mut(), before.entries(), &kept);
        match self.write_index(&index) {
            Ok(_) => Ok(()),
            Err(e) => Err(SwitchError::Index(e)),
        }
    }
}

} // verus!
