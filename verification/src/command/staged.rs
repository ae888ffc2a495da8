//! Which files are staged when paths are added.

use vstd::prelude::*;

use super::adding::{
    added, dir_added, entry_for, is_met, path_added, paths_added, staged_path, text_path,
    AddErrorView, Staging,
};
use crate::bytemap::{sorted_keys, sorted_keys_lists};
use crate::bytes::ascii;
use crate::dir::{parent, DirView};
use crate::files::IoError;
use crate::gitignore::{ignore_rules, ignores, relative, RuleView};
use crate::index::format::index_bytes;
use crate::index::laws::law_upsert_entries;
use crate::index::store::index_of;
use crate::index::{IndexEntryView, IndexView};
use crate::object::ObjectView;
use crate::odb::RepoView;
use crate::treewalk::parts;
use crate::workdir::laws::has_path;
use crate::workdir::stored_bytes;
use crate::worktree::ways::{is_link, open_place, open_to};
use crate::worktree::{FileKind, WorkFileView};

verus! {

/// Whether an entry is that of a file of the working tree that is not ignored.
pub open spec fn entry_of_file(
    work: DirView<WorkFileView>,
    sets: Seq<(Seq<u8>, Seq<RuleView>)>,
    e: IndexEntryView,
    p: Seq<u8>,
) -> bool {
    let f = work.files[p];
    &&& !work.is_dir(p)
    &&& e.path == text_path(p)
    &&& !ignores(sets, e.path, false)
    &&& e.id == ObjectView::Blob(stored_bytes(f)).id()
    &&& e.stage == 0
    &&& e.size == stored_bytes(f).len() % 0x1_0000_0000
    &&& e.mode == match f.kind {
        FileKind::Regular => 33188u32,
        FileKind::Executable => 33261u32,
        FileKind::Symlink => 40960u32,
    }
    &&& e.mtime == f.mtime
    &&& e.ctime == f.ctime
}

/// Whether each entry was there before or is that of a file.
pub open spec fn entries_come(
    work: DirView<WorkFileView>,
    sets: Seq<(Seq<u8>, Seq<RuleView>)>,
    before: Seq<IndexEntryView>,
    after: Seq<IndexEntryView>,
) -> bool {
    forall|e: IndexEntryView| #[trigger]
        after.contains(e) ==> before.contains(e) || exists|p: Seq<u8>| #[trigger]
            entry_of_file(work, sets, e, p)
}

/// Whether no path is lost.
pub open spec fn paths_stay(a: Seq<IndexEntryView>, b: Seq<IndexEntryView>) -> bool {
    forall|p: Seq<u8>| #[trigger] has_path(a, p) ==> has_path(b, p)
}

/// What staging one file does.
proof fn one_staged(es: Seq<IndexEntryView>, e: IndexEntryView)
    ensures
        paths_stay(es, crate::index::laws::upserted(es, e)),
        has_path(crate::index::laws::upserted(es, e), e.path),
{
    let after = crate::index::laws::upserted(es, e);
    law_upsert_entries(es, e);
    assert(after.contains(e));
    assert forall|p: Seq<u8>| #[trigger] has_path(es, p) implies has_path(after, p) by {
        let x = choose|x: IndexEntryView| #[trigger] es.contains(x) && x.path == p;
        if p == e.path {
            assert(after.contains(e));
        } else {
            assert(after.contains(x));
        }
    }
}

/// What staging a path does to the entries.
proof fn path_stages(
    st: Staging,
    work: DirView<WorkFileView>,
    sets: Seq<(Seq<u8>, Seq<RuleView>)>,
    path: Seq<u8>,
    depth: nat,
)
    ensures
        entries_come(work, sets, st.entries, path_added(st, work, sets, path, depth).0.entries),
        paths_stay(st.entries, path_added(st, work, sets, path, depth).0.entries),
    decreases depth, 0nat,
{
    if let Ok(p) = staged_path(work, path) {
        if work.is_dir(p) {
            if depth > 0 {
                let paths = sorted_keys(work.files.dom());
                dir_stages(st, work, paths, paths.len(), sets, p, (depth - 1) as nat);
            }
        } else if !ignores(sets, text_path(p), false) {
            let e = entry_for(work.files[p], p);
            one_staged(st.entries, e);
            law_upsert_entries(st.entries, e);
            assert(entry_of_file(work, sets, e, p));
        }
    }
}

/// So does staging the files of a directory.
proof fn dir_stages(
    st: Staging,
    work: DirView<WorkFileView>,
    paths: Seq<Seq<u8>>,
    n: nat,
    sets: Seq<(Seq<u8>, Seq<RuleView>)>,
    dir: Seq<u8>,
    depth: nat,
)
    ensures
        entries_come(work, sets, st.entries, dir_added(st, work, paths, n, sets, dir, depth).0.entries),
        paths_stay(st.entries, dir_added(st, work, paths, n, sets, dir, depth).0.entries),
    decreases depth, n,
{
    if n > 0 {
        dir_stages(st, work, paths, (n - 1) as nat, sets, dir, depth);
        let (before, fault) = dir_added(st, work, paths, (n - 1) as nat, sets, dir, depth);
        if fault is None && is_met(sets, dir, paths[n - 1]) {
            path_stages(before, work, sets, paths[n - 1], depth);
        }
    }
}

/// Law: staging a path loses no path of the index, and every entry that it adds
/// is that of a file of the working tree that is not ignored, with the id of
/// its bytes, its size and its mode.
pub proof fn law_add_entries(
    st: Staging,
    work: DirView<WorkFileView>,
    sets: Seq<(Seq<u8>, Seq<RuleView>)>,
    path: Seq<u8>,
    depth: nat,
)
    ensures
        entries_come(work, sets, st.entries, path_added(st, work, sets, path, depth).0.entries),
        paths_stay(st.entries, path_added(st, work, sets, path, depth).0.entries),
{
    path_stages(st, work, sets, path, depth);
}

/// Law: a path that leads to a file that is not ignored is staged.
pub proof fn law_add_file(
    st: Staging,
    work: DirView<WorkFileView>,
    sets: Seq<(Seq<u8>, Seq<RuleView>)>,
    path: Seq<u8>,
    p: Seq<u8>,
    depth: nat,
)
    requires
        staged_path(work, path) == Ok::<_, AddErrorView>(p),
        !work.is_dir(p),
        !ignores(sets, text_path(p), false),
        path_added(st, work, sets, path, depth).1 is None,
    ensures
        exists|e: IndexEntryView| #[trigger]
            path_added(st, work, sets, path, depth).0.entries.contains(e) && entry_of_file(
                work,
                sets,
                e,
                p,
            ),
{
    let e = entry_for(work.files[p], p);
    law_upsert_entries(st.entries, e);
    assert(path_added(st, work, sets, path, depth).0.entries.contains(e));
    assert(entry_of_file(work, sets, e, p));
}

/// One of the files of a directory is staged.
proof fn dir_file_staged(
    st: Staging,
    work: DirView<WorkFileView>,
    paths: Seq<Seq<u8>>,
    n: nat,
    sets: Seq<(Seq<u8>, Seq<RuleView>)>,
    dir: Seq<u8>,
    depth: nat,
    k: int,
    p: Seq<u8>,
)
    requires
        0 <= k < n,
        is_met(sets, dir, paths[k]),
        staged_path(work, paths[k]) == Ok::<_, AddErrorView>(p),
        !work.is_dir(p),
        !ignores(sets, text_path(p), false),
        dir_added(st, work, paths, n, sets, dir, depth).1 is None,
    ensures
        has_path(dir_added(st, work, paths, n, sets, dir, depth).0.entries, text_path(p)),
    decreases n,
{
    let (before, fault) = dir_added(st, work, paths, (n - 1) as nat, sets, dir, depth);
    if k < n - 1 {
        assert(fault is None);
        dir_file_staged(st, work, paths, (n - 1) as nat, sets, dir, depth, k, p);
        if is_met(sets, dir, paths[n - 1]) {
            path_stages(before, work, sets, paths[n - 1], depth);
        }
    } else {
        law_add_file(before, work, sets, paths[k], p, depth);
        one_staged(before.entries, entry_for(work.files[p], p));
    }
}

/// Law: a path that leads to a directory that is not ignored has every file
/// below the directory staged that is not ignored, lies in no `.git` and in no
/// ignored directory.
pub proof fn law_add_directory(
    st: Staging,
    work: DirView<WorkFileView>,
    sets: Seq<(Seq<u8>, Seq<RuleView>)>,
    path: Seq<u8>,
    dir: Seq<u8>,
    depth: nat,
    file: Seq<u8>,
)
    requires
        work.files.dom().finite(),
        staged_path(work, path) == Ok::<_, AddErrorView>(dir),
        work.is_dir(dir),
        dir.len() > 0 ==> !ignores(sets, text_path(dir), true),
        work.files.contains_key(file),
        staged_path(work, file) == Ok::<_, AddErrorView>(file),
        !work.is_dir(file),
        relative(file, dir) matches Some(rel) && !parts(rel).contains(ascii(".git"@)),
        parent(file).len() > 0 ==> !ignores(sets, text_path(parent(file)), true),
        !ignores(sets, text_path(file), false),
        path_added(st, work, sets, path, depth).1 is None,
    ensures
        has_path(path_added(st, work, sets, path, depth).0.entries, text_path(file)),
{
    let paths = sorted_keys(work.files.dom());
    sorted_keys_lists(work.files.dom());
    assert(work.files.dom().contains(file));
    assert(paths.contains(file));
    let k = choose|k: int| 0 <= k < paths.len() && paths[k] == file;
    dir_file_staged(st, work, paths, paths.len(), sets, dir, (depth - 1) as nat, k, file);
}

/// Law: paths are staged one after the other, and the first that cannot be
/// staged ends it.
pub proof fn law_add_paths(
    st: Staging,
    work: DirView<WorkFileView>,
    sets: Seq<(Seq<u8>, Seq<RuleView>)>,
    paths: Seq<Seq<u8>>,
    n: nat,
    k: int,
)
    requires
        0 <= k < n <= paths.len(),
        paths_added(st, work, sets, paths, n).1 is None,
    ensures
        exists|before: Staging|
            {
                let one = #[trigger] path_added(
                    before,
                    work,
                    sets,
                    paths[k],
                    work.files.len() + 1,
                );
                &&& one.1 is None
                &&& entries_come(work, sets, st.entries, before.entries)
                &&& paths_stay(one.0.entries, paths_added(st, work, sets, paths, n).0.entries)
            },
        entries_come(work, sets, st.entries, paths_added(st, work, sets, paths, n).0.entries),
    decreases n,
{
    let m = (n - 1) as nat;
    let (last, fault) = paths_added(st, work, sets, paths, m);
    assert(fault is None);
    let depth = work.files.len() + 1;
    path_stages(last, work, sets, paths[n - 1], depth);
    all_come(st, work, sets, paths, m);
    let out = paths_added(st, work, sets, paths, n);
    assert(out == path_added(last, work, sets, paths[n - 1], depth));
    if k < n - 1 {
        law_add_paths(st, work, sets, paths, m, k);
        let before = choose|before: Staging|
            {
                let one = #[trigger] path_added(
                    before,
                    work,
                    sets,
                    paths[k],
                    work.files.len() + 1,
                );
                &&& one.1 is None
                &&& entries_come(work, sets, st.entries, before.entries)
                &&& paths_stay(one.0.entries, paths_added(st, work, sets, paths, m).0.entries)
            };
        let one = path_added(before, work, sets, paths[k], depth);
        assert(paths_stay(one.0.entries, out.0.entries));
    }
}

/// All entries come from files.
proof fn all_come(
    st: Staging,
    work: DirView<WorkFileView>,
    sets: Seq<(Seq<u8>, Seq<RuleView>)>,
    paths: Seq<Seq<u8>>,
    n: nat,
)
    ensures
        entries_come(work, sets, st.entries, paths_added(st, work, sets, paths, n).0.entries),
    decreases n,
{
    if n > 0 {
        all_come(st, work, sets, paths, (n - 1) as nat);
        let (last, fault) = paths_added(st, work, sets, paths, (n - 1) as nat);
        if fault is None {
            path_stages(last, work, sets, paths[n - 1], work.files.len() + 1);
        }
    }
}

/// Law: where adding paths succeeds, the index that is written has the staged
/// entries and the extensions it had; the working tree stays as it is.
pub proof fn law_added(
    repo: RepoView,
    paths: Seq<Seq<u8>>,
    sets: Seq<(Seq<u8>, Seq<RuleView>)>,
    index: IndexView,
)
    requires
        added(repo, paths).1 is None,
        ignore_rules(repo.work, repo.git) matches Ok(x) && x == sets,
        index_of(repo.git) matches Ok(x) && x == index,
    ensures
        ({
            let st = Staging { git: repo.git, entries: index.entries };
            let out = paths_added(st, repo.work, sets, paths, paths.len());
            &&& out.1 is None
            &&& added(repo, paths).0.work == repo.work
            &&& added(repo, paths).0.git.files.contains_key(ascii("index"@))
            &&& added(repo, paths).0.git.files[ascii("index"@)] == index_bytes(
                IndexView { entries: out.0.entries, extensions: index.extensions },
            )
            &&& forall|p: Seq<u8>|
                p != ascii("index"@) ==> (#[trigger] added(repo, paths).0.git.files.contains_key(p)
                    <==> out.0.git.files.contains_key(p))
        }),
{
}

/// Law: a path through directories only that leads to a file or directory of
/// the working tree is staged as it is. Where nothing stands it is not found,
/// and the git directory is outside.
pub proof fn law_staged_path(work: DirView<WorkFileView>, path: Seq<u8>)
    requires
        open_to(work, Seq::empty(), path),
        !is_link(work, path),
    ensures
        ({
            let git = seq![46u8, 103u8, 105u8, 116u8];
            let inside = path == git || (path.len() > 4 && path.take(5) == git.push(47));
            &&& inside ==> staged_path(work, path) == Err::<Seq<u8>, _>(AddErrorView::Outside(path))
            &&& !inside && work.exists_at(path) ==> staged_path(work, path) == Ok::<
                _,
                AddErrorView,
            >(path)
            &&& !inside && !work.exists_at(path) ==> staged_path(work, path) == Err::<Seq<u8>, _>(
                AddErrorView::Io(IoError::NotFound),
            )
        }),
{
    reveal_strlit(".git");
    let git = seq![46u8, 103u8, 105u8, 116u8];
    assert(ascii(".git"@) =~= git);
    open_place(work, path, true);
    if path.len() > 4 {
        let w = path.take(5);
        if w == git.push(47) {
            assert(w[4] == 47 && w[4] == path[4]);
            assert(path.take(4) =~= git) by {
                assert forall|i: int| 0 <= i < 4 implies path[i] == git[i] by {
                    assert(w[i] == git.push(47)[i]);
                }
            }
        }
        if path[4] == 47 && git == path.take(4) {
            assert forall|i: int| 0 <= i < 5 implies w[i] == git.push(47)[i] by {
                if i < 4 {
                    assert(path.take(4)[i] == git[i]);
                }
            }
            assert(w =~= git.push(47));
        }
    }
}

/// Law: a file that is not ignored can be staged wherever its blob can be
/// stored, and one that is ignored is passed over.
pub proof fn law_add_succeeds(
    st: Staging,
    work: DirView<WorkFileView>,
    sets: Seq<(Seq<u8>, Seq<RuleView>)>,
    path: Seq<u8>,
    p: Seq<u8>,
    depth: nat,
)
    requires
        staged_path(work, path) == Ok::<_, AddErrorView>(p),
        !work.is_dir(p),
    ensures
        ignores(sets, text_path(p), false) ==> path_added(st, work, sets, path, depth) == (
            st,
            None::<AddErrorView>,
        ),
        !ignores(sets, text_path(p), false) ==> (path_added(st, work, sets, path, depth).1 is None
            <==> crate::odb::store_fault(st.git, ObjectView::Blob(stored_bytes(work.files[p]))) is None),
{
}

} // verus!
