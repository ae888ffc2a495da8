//! What a checkout and a switch leave behind.

use vstd::prelude::*;
use vstd::utf8::valid_utf8;

use super::checkout::{checkout_data, checkout_leaf, checkout_outcome, file_mode, Checkout};
use super::laws::{all_staged, checked_out_there, has_path, no_links, own_ways, tree_staged};
use super::switching::{switched, without_stale};
use super::{
    entry_paths, head_files, head_tree, plain_path, status_of, tracked_changes, tracked_paths,
    WorkdirErrorView,
};
use crate::dir::DirView;
use crate::files::IoError;
use crate::index::laws::law_upsert_entries;
use crate::index::store::index_of;
use crate::index::{IndexEntryView, Time};
use crate::object::{EntryMode, ObjectView, TreeEntryView};
use crate::odb::{RepoView, Store};
use crate::refs::ref_value;
use crate::bytes::ascii;
use crate::treewalk::{child_path, files_of_tree, object_bound};
use crate::worktree::acts::law_dir_made;
use crate::worktree::places::{is_folder, seen, MAX_LINKS};
use crate::worktree::ways::{
    grows, is_link, neat, open_child, open_place, open_stays, open_to, opened, own_way_stays,
    own_way_walks, proper,
};
use crate::worktree::{FileKind, WorkFileView};

verus! {

// ---------------------------------------------------------------------
// Paths of an index
// ---------------------------------------------------------------------

/// Law: the paths of an index are those of its entries, and the tracked ones
/// those of its resolved entries.
pub proof fn law_index_paths(es: Seq<IndexEntryView>, p: Seq<u8>)
    ensures
        entry_paths(es).contains(p) <==> exists|i: int|
            0 <= i < es.len() && (#[trigger] es[i]).path == p,
        tracked_paths(es).contains(p) <==> exists|i: int|
            0 <= i < es.len() && (#[trigger] es[i]).path == p && es[i].stage == 0,
    decreases es.len(),
{
    if es.len() > 0 {
        let t = es.drop_last();
        let n = es.len() - 1;
        law_index_paths(t, p);
        if entry_paths(t).contains(p) {
            let i = choose|i: int| 0 <= i < t.len() && (#[trigger] t[i]).path == p;
            assert(es[i].path == p);
        }
        if tracked_paths(t).contains(p) {
            let i = choose|i: int|
                0 <= i < t.len() && (#[trigger] t[i]).path == p && t[i].stage == 0;
            assert(es[i].path == p && es[i].stage == 0);
        }
        if exists|i: int| 0 <= i < es.len() && (#[trigger] es[i]).path == p {
            let i = choose|i: int| 0 <= i < es.len() && (#[trigger] es[i]).path == p;
            if i < n {
                assert(t[i].path == p);
            }
        }
        if exists|i: int| 0 <= i < es.len() && (#[trigger] es[i]).path == p && es[i].stage == 0 {
            let i = choose|i: int|
                0 <= i < es.len() && (#[trigger] es[i]).path == p && es[i].stage == 0;
            if i < n {
                assert(t[i].path == p && t[i].stage == 0);
            }
        }
        assert(es[n] == es.last());
    }
}

/// Law: the files of HEAD are those of the tree of the commit that HEAD leads
/// to.
pub proof fn law_head_files(repo: RepoView, id: Seq<u8>, tree: Seq<u8>)
    requires
        ref_value(repo, ascii("HEAD"@)) == Ok::<_, crate::refs::RefErrorView>(id),
        repo.store().object(id) matches Ok(ObjectView::Commit(c)) && c.tree == tree,
    ensures
        head_tree(repo) == Ok::<_, WorkdirErrorView>(Some(tree)),
        files_of_tree(repo.store(), tree, true) matches Ok(m) ==> head_files(repo) == Ok::<
            _,
            WorkdirErrorView,
        >(m),
{
}

// ---------------------------------------------------------------------
// Checkout
// ---------------------------------------------------------------------

/// Law: after a checkout of a tree without submodules, every file of the tree
/// has an index entry.
pub proof fn law_checkout_complete(repo: RepoView, tree: Seq<u8>, now: Time, path: Seq<u8>)
    requires
        checkout_outcome(repo, tree, now).1 is None,
        no_links(repo.store(), tree, object_bound(repo.store())),
        files_of_tree(repo.store(), tree, true) is Ok,
        files_of_tree(repo.store(), tree, true)->Ok_0.contains_key(path),
    ensures
        exists|e: IndexEntryView| #[trigger]
            checkout_outcome(repo, tree, now).0.entries.contains(e) && e.path == path,
{
    let start = Checkout { work: repo.work, entries: Seq::empty() };
    tree_staged(
        repo.store(),
        tree,
        Seq::empty(),
        now,
        object_bound(repo.store()),
        start,
        Map::empty(),
    );
    assert(all_staged(
        files_of_tree(repo.store(), tree, true)->Ok_0,
        checkout_outcome(repo, tree, now).0.entries,
    ));
    assert(has_path(checkout_outcome(repo, tree, now).0.entries, path));
}

/// Law: a file of a tree is checked out under its name with the bytes of its
/// blob and as what its mode says: an executable, a link, or else a regular
/// file. Its index entry has that mode in Git's numbers, its size and its id.
/// Other files stay as they are.
pub proof fn law_checked_file(
    e: TreeEntryView,
    data: Seq<u8>,
    prefix: Seq<u8>,
    now: Time,
    st: Checkout,
)
    requires
        e.mode != EntryMode::Tree,
        e.mode != EntryMode::Gitlink,
        valid_utf8(e.name),
        proper(e.name),
        valid_utf8(prefix),
        opened(st.work, prefix),
        neat(st.work),
        crate::object::tree::entry_ok(e),
        e.mode != EntryMode::Symlink ==> !is_link(st.work, child_path(prefix, e.name)),
        checkout_data(e, data, prefix, now, st).1 is None,
    ensures
        ({
            let after = checkout_data(e, data, prefix, now, st).0;
            let p = child_path(prefix, e.name);
            &&& after.work.files.contains_key(p)
            &&& after.work.files[p].data == data
            &&& after.work.files[p].kind == FileKind::Executable <==> e.mode
                == EntryMode::Executable
            &&& after.work.files[p].kind == FileKind::Symlink <==> e.mode == EntryMode::Symlink
            &&& after.work.dirs == st.work.dirs
            &&& forall|q: Seq<u8>|
                q != p ==> (#[trigger] after.work.files.contains_key(q)
                    <==> st.work.files.contains_key(q)) && (st.work.files.contains_key(q)
                    ==> after.work.files[q] == st.work.files[q])
            &&& exists|x: IndexEntryView| #[trigger]
                after.entries.contains(x) && x.path == p && x.id == e.id && x.stage == 0 && x.size
                    == data.len() % 0x1_0000_0000 && x.mode == (if e.mode
                    == EntryMode::Executable {
                    33261
                } else if e.mode == EntryMode::Symlink {
                    40960
                } else {
                    33188int
                }) && x.mtime == now && x.ctime == now
        }),
{
    let after = checkout_data(e, data, prefix, now, st).0;
    let p = child_path(prefix, e.name);
    let (kind, mode) = file_mode(e.mode);
    open_child(st.work, prefix, e.name);
    checked_out_there(st.work, p, kind, data, now);
    let x = super::checkout::checked_entry(mode, data, e.id, p, now);
    law_upsert_entries(st.entries, x);
    assert(after.entries.contains(x));
}

/// Law: a submodule becomes a directory, without an index entry, and no file
/// changes.
pub proof fn law_submodule(
    s: Store,
    e: TreeEntryView,
    prefix: Seq<u8>,
    now: Time,
    st: Checkout,
)
    requires
        e.mode == EntryMode::Gitlink,
        valid_utf8(e.name),
        proper(e.name),
        valid_utf8(prefix),
        opened(st.work, prefix),
        crate::object::tree::entry_ok(e),
        !is_link(st.work, child_path(prefix, e.name)),
    ensures
        ({
            let (after, fault) = checkout_leaf(s, e, prefix, now, st);
            &&& after.entries == st.entries
            &&& after.work.files == st.work.files
            &&& fault is None ==> is_folder(after.work, child_path(prefix, e.name))
            &&& fault is Some <==> st.work.files.contains_key(child_path(prefix, e.name))
                && !is_folder(st.work, child_path(prefix, e.name))
        }),
{
    let p = child_path(prefix, e.name);
    open_child(st.work, prefix, e.name);
    law_dir_made(st.work, p);
}

/// Law: what is no blob is not checked out as a file, and nothing changes.
pub proof fn law_no_blob(s: Store, e: TreeEntryView, prefix: Seq<u8>, now: Time, st: Checkout)
    requires
        e.mode != EntryMode::Gitlink,
    ensures
        !(s.object(e.id) matches Ok(ObjectView::Blob(_))) ==> checkout_leaf(
            s,
            e,
            prefix,
            now,
            st,
        ).0 == st && checkout_leaf(s, e, prefix, now, st).1 is Some,
        s.object(e.id) matches Ok(ObjectView::Blob(data)) ==> checkout_leaf(
            s,
            e,
            prefix,
            now,
            st,
        ) == checkout_data(e, data, prefix, now, st),
{
}

// ---------------------------------------------------------------------
// Switch
// ---------------------------------------------------------------------

/// Whether one of the first `n` entries is resolved and has a path.
pub open spec fn resolved_at(es: Seq<IndexEntryView>, n: int, p: Seq<u8>) -> bool {
    exists|i: int| 0 <= i < n && (#[trigger] es[i]).path == p && es[i].stage == 0
}

/// What is left without the stale files.
proof fn stale_gone(
    work: DirView<WorkFileView>,
    old_entries: Seq<IndexEntryView>,
    n: nat,
    kept: Set<Seq<u8>>,
)
    requires
        n <= old_entries.len(),
        own_ways(work, old_entries),
    ensures
        ({
            let after = without_stale(work, old_entries, n, kept);
            &&& after.dirs == work.dirs
            &&& forall|p: Seq<u8>| #[trigger]
                after.files.contains_key(p) ==> work.files.contains_key(p) && after.files[p]
                    == work.files[p]
            &&& forall|p: Seq<u8>| #[trigger]
                work.files.contains_key(p) && p.len() > 0 && (kept.contains(p) || !resolved_at(
                    old_entries,
                    n as int,
                    p,
                )) ==> after.files.contains_key(p)
            &&& forall|p: Seq<u8>|
                resolved_at(old_entries, n as int, p) && !kept.contains(p) && valid_utf8(p)
                    && open_to(work, Seq::empty(), p) ==> !#[trigger] after.files.contains_key(p)
        }),
    decreases n,
{
    if n > 0 {
        let m = (n - 1) as nat;
        stale_gone(work, old_entries, m, kept);
        let done = without_stale(work, old_entries, m, kept);
        let after = without_stale(work, old_entries, n, kept);
        let e = old_entries[n - 1];
        assert forall|p: Seq<u8>| #[trigger] is_link(done, p) implies is_link(work, p) by {}
        if valid_utf8(e.path) && e.stage == 0 {
            own_way_stays(work, done, Seq::empty(), e.path);
            own_way_walks(done, Seq::empty(), e.path, MAX_LINKS as nat);
            assert(child_path(Seq::empty(), e.path) == e.path);
        }
        assert forall|p: Seq<u8>| #[trigger]
            work.files.contains_key(p) && p.len() > 0 && (kept.contains(p) || !resolved_at(
                old_entries,
                n as int,
                p,
            )) implies after.files.contains_key(p) by {
            if !kept.contains(p) {
                assert(!resolved_at(old_entries, m as int, p)) by {
                    if resolved_at(old_entries, m as int, p) {
                        let i = choose|i: int|
                            0 <= i < m && (#[trigger] old_entries[i]).path == p
                                && old_entries[i].stage == 0;
                        assert(old_entries[i].path == p && old_entries[i].stage == 0);
                    }
                }
                assert(!(old_entries[n - 1].path == p && old_entries[n - 1].stage == 0));
            }
            assert(done.files.contains_key(p));
        }
        assert forall|p: Seq<u8>|
            resolved_at(old_entries, n as int, p) && !kept.contains(p) && valid_utf8(p) && open_to(
                work,
                Seq::empty(),
                p,
            ) implies !#[trigger] after.files.contains_key(p) by {
            let i = choose|i: int|
                0 <= i < n && (#[trigger] old_entries[i]).path == p && old_entries[i].stage == 0;
            if i < m {
                assert(resolved_at(old_entries, m as int, p));
                assert(!done.files.contains_key(p));
            } else {
                assert(grows(work, done)) by {
                    assert forall|d: Seq<u8>| #[trigger]
                        crate::worktree::places::is_folder(work, d) implies
                        crate::worktree::places::is_folder(done, d) && (
                    !work.files.contains_key(d) ==> !done.files.contains_key(d)) by {}
                }
                open_stays(work, done, Seq::empty(), p);
                open_place(done, p, false);
                assert(plain_path(p) == p);
            }
        }
    }
}

/// Law: a switch deletes the files that were tracked and are not in the tree,
/// and no file but tracked ones: the others stay as the checkout left them.
/// The ways to the tracked files lead through no link.
pub proof fn law_switch_deletes(repo: RepoView, tree: Seq<u8>, now: Time, p: Seq<u8>)
    requires
        switched(repo, tree, now).1 is None,
        own_ways(checkout_outcome(repo, tree, now).0.work, index_of(repo.git)->Ok_0.entries),
        p.len() > 0,
    ensures
        ({
            let st = checkout_outcome(repo, tree, now).0;
            let es = index_of(repo.git)->Ok_0.entries;
            let after = switched(repo, tree, now).0.work;
            let stale = resolved_at(es, es.len() as int, p) && !resolved_at(
                st.entries,
                st.entries.len() as int,
                p,
            );
            &&& stale && valid_utf8(p) && open_to(st.work, Seq::empty(), p)
                ==> !after.files.contains_key(p)
            &&& !stale ==> (after.files.contains_key(p) <==> st.work.files.contains_key(p)) && (
            after.files.contains_key(p) ==> after.files[p] == st.work.files[p])
            &&& after.dirs == st.work.dirs
        }),
{
    let st = checkout_outcome(repo, tree, now).0;
    let es = index_of(repo.git)->Ok_0.entries;
    stale_gone(st.work, es, es.len(), tracked_paths(st.entries));
    law_index_paths(st.entries, p);
}

/// Law: a switch is made wherever the tree can be checked out and the index
/// written.
pub proof fn law_switch_succeeds(repo: RepoView, tree: Seq<u8>, now: Time)
    requires
        index_of(repo.git) is Ok,
        checkout_outcome(repo, tree, now).1 is None,
        repo.git.write_fault(ascii("index"@)) is None,
    ensures
        switched(repo, tree, now).1 is None,
        switched(repo, tree, now).0.git == repo.git.written(
            ascii("index"@),
            crate::index::format::index_bytes(
                crate::index::IndexView {
                    entries: checkout_outcome(repo, tree, now).0.entries,
                    extensions: Seq::empty(),
                },
            ),
        ),
{
}

/// Law: a file can be checked out wherever no directory stands in its place; a
/// link, if its target is a text without a NUL that is not empty.
pub proof fn law_checked_succeeds(
    e: TreeEntryView,
    data: Seq<u8>,
    prefix: Seq<u8>,
    now: Time,
    st: Checkout,
)
    requires
        e.mode != EntryMode::Tree,
        e.mode != EntryMode::Gitlink,
        valid_utf8(e.name),
        proper(e.name),
        valid_utf8(prefix),
        opened(st.work, prefix),
        neat(st.work),
        crate::object::tree::entry_ok(e),
        e.mode != EntryMode::Symlink ==> !is_link(st.work, child_path(prefix, e.name)),
    ensures
        checkout_data(e, data, prefix, now, st).1 is None <==> !is_folder(
            st.work,
            child_path(prefix, e.name),
        ) && (e.mode == EntryMode::Symlink ==> valid_utf8(data) && data.len() > 0
            && !data.contains(0u8)),
{
    let p = child_path(prefix, e.name);
    open_child(st.work, prefix, e.name);
    if e.mode == EntryMode::Symlink {
        open_place(st.work, p, false);
        let gone = st.work.without(p);
        assert(grows(st.work, gone));
        open_stays(st.work, gone, Seq::empty(), p);
        open_place(gone, p, false);
    } else {
        open_place(st.work, p, true);
    }
}

/// The changes of entries whose files can be looked at can be told.
proof fn tracked_told(
    work: DirView<WorkFileView>,
    head: Map<Seq<u8>, Seq<u8>>,
    es: Seq<IndexEntryView>,
    n: nat,
)
    requires
        n <= es.len(),
        forall|i: int|
            0 <= i < es.len() && (#[trigger] es[i]).stage == 0 ==> seen(
                work,
                plain_path(es[i].path),
            ) is Ok || seen(work, plain_path(es[i].path)) == Err::<WorkFileView, _>(
                IoError::NotFound,
            ),
    ensures
        tracked_changes(work, head, es, n) is Ok,
    decreases n,
{
    if n > 0 {
        tracked_told(work, head, es, (n - 1) as nat);
        assert(es[n - 1] == es[n - 1]);
    }
}

/// Law: a status can be told wherever there is a working tree, the index and
/// HEAD's tree can be read, and each tracked file can be looked at or is not
/// there.
pub proof fn law_status_succeeds(repo: RepoView)
    requires
        repo.work_dir is Some,
        index_of(repo.git) is Ok,
        head_files(repo) is Ok,
        ({
            let es = index_of(repo.git)->Ok_0.entries;
            forall|i: int|
                0 <= i < es.len() && (#[trigger] es[i]).stage == 0 ==> seen(
                    repo.work,
                    plain_path(es[i].path),
                ) is Ok || seen(repo.work, plain_path(es[i].path)) == Err::<WorkFileView, _>(
                    IoError::NotFound,
                )
        }),
    ensures
        status_of(repo) is Ok,
{
    let es = index_of(repo.git)->Ok_0.entries;
    tracked_told(repo.work, head_files(repo)->Ok_0, es, es.len());
}

} // verus!
