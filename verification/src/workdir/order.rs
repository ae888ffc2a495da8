//! In which order a status names changes, and the bytes that files count by.

use vstd::prelude::*;

use super::{
    entry_changes, head_files, removed_changes, status_of, stored_bytes, tracked_changes,
    untracked_changes, ChangeView,
};
use crate::dir::DirView;
use crate::index::store::index_of;
use crate::index::IndexEntryView;
use crate::notation::text_of;
use crate::odb::RepoView;
use crate::worktree::{FileKind, WorkFileView};
use vstd::utf8::{encode_utf8, valid_utf8};

verus! {

/// Law: a file counts by its contents, and a link by where it points.
pub proof fn law_stored_bytes(f: WorkFileView)
    ensures
        f.kind != FileKind::Symlink ==> stored_bytes(f) == f.data,
        f.kind == FileKind::Symlink && valid_utf8(f.data) ==> stored_bytes(f) == f.data,
        f.kind == FileKind::Symlink ==> stored_bytes(f) == encode_utf8(text_of(f.data)),
{
    if f.kind == FileKind::Symlink && valid_utf8(f.data) {
        vstd::utf8::decode_utf8_encode_utf8(f.data);
    }
}

/// The changes of tracked files name none that is untracked.
proof fn tracked_are(
    work: DirView<WorkFileView>,
    head: Map<Seq<u8>, Seq<u8>>,
    es: Seq<IndexEntryView>,
    n: nat,
)
    ensures
        tracked_changes(work, head, es, n) matches Ok(cs) ==> forall|i: int|
            0 <= i < cs.len() ==> !((#[trigger] cs[i]) is Untracked),
    decreases n,
{
    if n > 0 {
        tracked_are(work, head, es, (n - 1) as nat);
        if let Ok(done) = tracked_changes(work, head, es, (n - 1) as nat) {
            if let Ok(cs) = tracked_changes(work, head, es, n) {
                assert forall|i: int| 0 <= i < cs.len() implies !((#[trigger] cs[i])
                    is Untracked) by {
                    if i < done.len() {
                        assert(cs[i] == done[i]);
                    } else {
                        assert(cs[i] == entry_changes(work, head, es[n - 1])->Ok_0[i - done.len()]);
                    }
                }
            }
        }
    }
}

/// Removals are staged changes.
proof fn removed_are(paths: Seq<Seq<u8>>, n: nat, known: Set<Seq<u8>>)
    ensures
        forall|i: int|
            0 <= i < removed_changes(paths, n, known).len() ==> (#[trigger] removed_changes(
                paths,
                n,
                known,
            )[i]) is Staged,
    decreases n,
{
    if n > 0 {
        removed_are(paths, (n - 1) as nat, known);
    }
}

/// Untracked files are untracked.
proof fn untracked_are(paths: Seq<Seq<u8>>, n: nat, known: Set<Seq<u8>>)
    ensures
        forall|i: int|
            0 <= i < untracked_changes(paths, n, known).len() ==> (#[trigger] untracked_changes(
                paths,
                n,
                known,
            )[i]) is Untracked,
    decreases n,
{
    if n > 0 {
        untracked_are(paths, (n - 1) as nat, known);
    }
}

/// Law: a status names the untracked files last.
pub proof fn law_untracked_last(repo: RepoView, i: int, j: int)
    requires
        status_of(repo) is Ok,
        0 <= i < j < status_of(repo)->Ok_0.len(),
        status_of(repo)->Ok_0[i] is Untracked,
    ensures
        status_of(repo)->Ok_0[j] is Untracked,
{
    let es = index_of(repo.git)->Ok_0.entries;
    let head = head_files(repo)->Ok_0;
    let cs = tracked_changes(repo.work, head, es, es.len())->Ok_0;
    let gone = crate::bytemap::sorted_keys(head.dom());
    let paths = crate::bytemap::sorted_keys(repo.work.files.dom());
    let rs = removed_changes(gone, gone.len(), super::entry_paths(es));
    let us = untracked_changes(paths, paths.len(), super::tracked_paths(es));
    tracked_are(repo.work, head, es, es.len());
    removed_are(gone, gone.len(), super::entry_paths(es));
    untracked_are(paths, paths.len(), super::tracked_paths(es));
    let all = status_of(repo)->Ok_0;
    assert(all == cs + rs + us);
    let k = cs.len() + rs.len();
    if i < cs.len() {
        assert(all[i] == cs[i]);
    } else if i < k {
        assert(all[i] == rs[i - cs.len()]);
    }
    assert(all[j] == us[j - k]);
}

/// Law: of a tracked file its deletion or change is named before what is
/// staged, and the changes of two lists of entries one after the other.
pub proof fn law_tracked_order(
    work: DirView<WorkFileView>,
    head: Map<Seq<u8>, Seq<u8>>,
    es: Seq<IndexEntryView>,
    e: IndexEntryView,
)
    requires
        tracked_changes(work, head, es, es.len()) is Ok,
        e.stage == 0,
        entry_changes(work, head, e) is Ok,
    ensures
        tracked_changes(work, head, es.push(e), es.len() + 1) matches Ok(all) && all
            == tracked_changes(work, head, es, es.len())->Ok_0 + entry_changes(work, head, e)->Ok_0,
        entry_changes(work, head, e)->Ok_0.len() <= 2,
        entry_changes(work, head, e)->Ok_0.len() == 2 ==> entry_changes(work, head, e)->Ok_0[1]
            == ChangeView::Staged(e.path),
{
    tracked_front(work, head, es, seq![e], es.len());
    assert(es + seq![e] =~= es.push(e));
    assert(es.push(e)[es.len() as int] == e);
}

/// The changes look at the entries before their number only.
proof fn tracked_front(
    work: DirView<WorkFileView>,
    head: Map<Seq<u8>, Seq<u8>>,
    a: Seq<IndexEntryView>,
    b: Seq<IndexEntryView>,
    n: nat,
)
    requires
        n <= a.len(),
    ensures
        tracked_changes(work, head, a + b, n) == tracked_changes(work, head, a, n),
    decreases n,
{
    if n > 0 {
        tracked_front(work, head, a, b, (n - 1) as nat);
        assert((a + b)[n - 1] == a[n - 1]);
    }
}

} // verus!
