//! What a status promises.

use vstd::prelude::*;
use vstd::utf8::encode_utf8;

use super::{
    entry_changes, entry_paths, head_files, head_tree, plain_path, removed_changes, status_of,
    stored_bytes, tracked_changes, tracked_paths, untracked_changes, ChangeView,
};
use crate::bytemap::{sorted_keys, sorted_keys_lists};
use crate::bytes::ascii;
use crate::dir::DirView;
use crate::files::IoError;
use crate::index::store::index_of;
use crate::index::IndexEntryView;
use crate::notation::text_of;
use crate::object::{object_id, ObjectKind};
use crate::odb::RepoView;
use crate::treewalk::laws::tree_files_finite;
use crate::treewalk::{object_bound, parts};
use crate::worktree::places::seen;
use crate::worktree::WorkFileView;

verus! {

/// What a change means, of HEAD's files, the index entries and the working
/// tree. A file is deleted or modified if its resolved entry says otherwise,
/// and staged if HEAD says otherwise than its entry or its lack of one. A
/// file outside every `.git` without a resolved entry is untracked.
pub open spec fn change_holds(
    work: DirView<WorkFileView>,
    head: Map<Seq<u8>, Seq<u8>>,
    es: Seq<IndexEntryView>,
    c: ChangeView,
) -> bool {
    match c {
        ChangeView::Deleted(p) => exists|i: int|
            0 <= i < es.len() && (#[trigger] es[i]).stage == 0 && es[i].path == p && seen(
                work,
                plain_path(p),
            ) == Err::<WorkFileView, _>(IoError::NotFound),
        ChangeView::Modified(p) => exists|i: int|
            0 <= i < es.len() && (#[trigger] es[i]).stage == 0 && es[i].path == p && seen(
                work,
                plain_path(p),
            ) is Ok && object_id(
                ObjectKind::Blob,
                stored_bytes(seen(work, plain_path(p))->Ok_0),
            ) != es[i].id,
        ChangeView::Staged(p) => {
            ||| exists|i: int|
                0 <= i < es.len() && (#[trigger] es[i]).stage == 0 && es[i].path == p && !(
                head.contains_key(p) && head[p] == es[i].id)
            ||| head.contains_key(p) && !entry_paths(es).contains(p)
        },
        ChangeView::Untracked(p) => exists|f: Seq<u8>| #[trigger]
            work.files.contains_key(f) && encode_utf8(text_of(f)) == p && !parts(f).contains(
                ascii(".git"@),
            ) && !tracked_paths(es).contains(p),
    }
}

/// Whether one of the first `n` entries makes a change.
spec fn entry_makes(
    work: DirView<WorkFileView>,
    head: Map<Seq<u8>, Seq<u8>>,
    es: Seq<IndexEntryView>,
    n: nat,
    c: ChangeView,
) -> bool {
    exists|i: int|
        0 <= i < n && (#[trigger] es[i]).stage == 0 && entry_changes(work, head, es[i]) is Ok
            && entry_changes(work, head, es[i])->Ok_0.contains(c)
}

/// The changes of entries are those that an entry makes.
proof fn tracked_makes(
    work: DirView<WorkFileView>,
    head: Map<Seq<u8>, Seq<u8>>,
    es: Seq<IndexEntryView>,
    n: nat,
    c: ChangeView,
)
    requires
        n <= es.len(),
        tracked_changes(work, head, es, n) is Ok,
    ensures
        tracked_changes(work, head, es, n)->Ok_0.contains(c) <==> entry_makes(
            work,
            head,
            es,
            n,
            c,
        ),
    decreases n,
{
    if n > 0 {
        let m = (n - 1) as nat;
        tracked_makes(work, head, es, m, c);
        let done = tracked_changes(work, head, es, m)->Ok_0;
        let e = es[n - 1];
        let all = tracked_changes(work, head, es, n)->Ok_0;
        if e.stage == 0 {
            let cs = entry_changes(work, head, e)->Ok_0;
            contains_concat(done, cs, c);
        }
        if entry_makes(work, head, es, m, c) {
            let i = choose|i: int|
                0 <= i < m && (#[trigger] es[i]).stage == 0 && entry_changes(
                    work,
                    head,
                    es[i],
                ) is Ok && entry_changes(work, head, es[i])->Ok_0.contains(c);
            assert(es[i].stage == 0);
        }
        if entry_makes(work, head, es, n, c) {
            let i = choose|i: int|
                0 <= i < n && (#[trigger] es[i]).stage == 0 && entry_changes(
                    work,
                    head,
                    es[i],
                ) is Ok && entry_changes(work, head, es[i])->Ok_0.contains(c);
            if i < m {
                assert(entry_makes(work, head, es, m, c));
            }
        }
    }
}

/// What a concatenation holds.
proof fn contains_concat(a: Seq<ChangeView>, b: Seq<ChangeView>, c: ChangeView)
    ensures
        (a + b).contains(c) <==> a.contains(c) || b.contains(c),
{
    let all = a + b;
    if a.contains(c) {
        let i = choose|i: int| 0 <= i < a.len() && a[i] == c;
        assert(all[i] == c);
    }
    if b.contains(c) {
        let i = choose|i: int| 0 <= i < b.len() && b[i] == c;
        assert(all[a.len() + i] == c);
    }
}

/// What an entry makes of itself.
proof fn entry_change_holds(
    work: DirView<WorkFileView>,
    head: Map<Seq<u8>, Seq<u8>>,
    e: IndexEntryView,
    c: ChangeView,
)
    requires
        entry_changes(work, head, e) is Ok,
    ensures
        entry_changes(work, head, e)->Ok_0.contains(c) <==> match c {
            ChangeView::Deleted(p) => e.path == p && seen(work, plain_path(p)) == Err::<
                WorkFileView,
                _,
            >(IoError::NotFound),
            ChangeView::Modified(p) => e.path == p && seen(work, plain_path(p)) is Ok && object_id(
                ObjectKind::Blob,
                stored_bytes(seen(work, plain_path(p))->Ok_0),
            ) != e.id,
            ChangeView::Staged(p) => e.path == p && !(head.contains_key(p) && head[p] == e.id),
            ChangeView::Untracked(_) => false,
        },
{
    let staged = if head.contains_key(e.path) && head[e.path] == e.id {
        Seq::empty()
    } else {
        seq![ChangeView::Staged(e.path)]
    };
    if staged.len() > 0 {
        assert(staged[0] == ChangeView::Staged(e.path));
        assert(staged.contains(ChangeView::Staged(e.path)));
    }
    match seen(work, plain_path(e.path)) {
        Ok(f) => {
            let first = seq![ChangeView::Modified(e.path)];
            assert(first[0] == ChangeView::Modified(e.path));
            assert(first.contains(ChangeView::Modified(e.path)));
            contains_concat(first, staged, c);
        },
        Err(_) => {
            let first = seq![ChangeView::Deleted(e.path)];
            assert(first[0] == ChangeView::Deleted(e.path));
            assert(first.contains(ChangeView::Deleted(e.path)));
            contains_concat(first, staged, c);
        },
    }
}

/// The removals among the first paths.
proof fn removed_makes(paths: Seq<Seq<u8>>, n: nat, known: Set<Seq<u8>>, c: ChangeView)
    requires
        n <= paths.len(),
    ensures
        removed_changes(paths, n, known).contains(c) <==> c is Staged && !known.contains(
            c->Staged_0,
        ) && paths.take(n as int).contains(c->Staged_0),
    decreases n,
{
    if n > 0 {
        let done = removed_changes(paths, (n - 1) as nat, known);
        removed_makes(paths, (n - 1) as nat, known, c);
        let p = paths[n - 1];
        assert(paths.take(n as int) =~= paths.take(n - 1).push(p));
        push_contains(paths.take(n - 1), p, c->Staged_0);
        push_contains(done, ChangeView::Staged(p), c);
    }
}

/// What a list with one thing more holds.
proof fn push_contains<T>(s: Seq<T>, x: T, y: T)
    ensures
        s.push(x).contains(y) <==> s.contains(y) || x == y,
{
    let all = s.push(x);
    if s.contains(y) {
        let i = choose|i: int| 0 <= i < s.len() && s[i] == y;
        assert(all[i] == y);
    }
    assert(all[s.len() as int] == x);
}

/// Whether one of the first `n` paths makes an untracked file.
spec fn path_makes(paths: Seq<Seq<u8>>, n: nat, known: Set<Seq<u8>>, c: ChangeView) -> bool {
    exists|i: int|
        0 <= i < n && c == ChangeView::Untracked(encode_utf8(text_of(#[trigger] paths[i])))
            && !parts(paths[i]).contains(ascii(".git"@)) && !known.contains(c->Untracked_0)
}

/// The untracked files among the first paths.
proof fn untracked_makes(paths: Seq<Seq<u8>>, n: nat, known: Set<Seq<u8>>, c: ChangeView)
    requires
        n <= paths.len(),
    ensures
        untracked_changes(paths, n, known).contains(c) <==> path_makes(paths, n, known, c),
    decreases n,
{
    if n > 0 {
        let m = (n - 1) as nat;
        let done = untracked_changes(paths, m, known);
        untracked_makes(paths, m, known, c);
        let p = paths[n - 1];
        push_contains(done, ChangeView::Untracked(encode_utf8(text_of(p))), c);
        if path_makes(paths, m, known, c) {
            let i = choose|i: int|
                0 <= i < m && c == ChangeView::Untracked(encode_utf8(text_of(#[trigger] paths[i])))
                    && !parts(paths[i]).contains(ascii(".git"@)) && !known.contains(
                    c->Untracked_0,
                );
            assert(paths[i] == paths[i]);
            assert(path_makes(paths, n, known, c));
        }
    }
}

/// Law: a status names just the changes that there are.
pub proof fn law_status_says(repo: RepoView, c: ChangeView)
    requires
        status_of(repo) is Ok,
        repo.work.files.dom().finite(),
    ensures
        status_of(repo)->Ok_0.contains(c) <==> change_holds(
            repo.work,
            head_files(repo)->Ok_0,
            index_of(repo.git)->Ok_0.entries,
            c,
        ),
{
    let work = repo.work;
    let head = head_files(repo)->Ok_0;
    let es = index_of(repo.git)->Ok_0.entries;
    let listed = tracked_changes(work, head, es, es.len())->Ok_0;
    head_files_finite(repo);
    let gone = sorted_keys(head.dom());
    let paths = sorted_keys(work.files.dom());
    sorted_keys_lists(head.dom());
    sorted_keys_lists(work.files.dom());
    let removed = removed_changes(gone, gone.len(), entry_paths(es));
    let others = untracked_changes(paths, paths.len(), tracked_paths(es));
    contains_concat(listed + removed, others, c);
    contains_concat(listed, removed, c);
    tracked_makes(work, head, es, es.len(), c);
    removed_makes(gone, gone.len(), entry_paths(es), c);
    untracked_makes(paths, paths.len(), tracked_paths(es), c);
    assert(gone.take(gone.len() as int) =~= gone);
    assert forall|i: int| 0 <= i < es.len() && (#[trigger] es[i]).stage == 0 implies entry_changes(
        work,
        head,
        es[i],
    ) is Ok by {
        tracked_all_ok(work, head, es, es.len(), i);
    }
    assert forall|i: int| 0 <= i < es.len() && (#[trigger] es[i]).stage == 0 implies (
    entry_changes(work, head, es[i])->Ok_0.contains(c) <==> match c {
        ChangeView::Deleted(p) => es[i].path == p && seen(work, plain_path(p)) == Err::<
            WorkFileView,
            _,
        >(IoError::NotFound),
        ChangeView::Modified(p) => es[i].path == p && seen(work, plain_path(p)) is Ok && object_id(
            ObjectKind::Blob,
            stored_bytes(seen(work, plain_path(p))->Ok_0),
        ) != es[i].id,
        ChangeView::Staged(p) => es[i].path == p && !(head.contains_key(p) && head[p] == es[i].id),
        ChangeView::Untracked(_) => false,
    }) by {
        entry_change_holds(work, head, es[i], c);
    }
    match c {
        ChangeView::Untracked(p) => {
            if path_makes(paths, paths.len(), tracked_paths(es), c) {
                let i = choose|i: int|
                    0 <= i < paths.len() && c == ChangeView::Untracked(
                        encode_utf8(text_of(#[trigger] paths[i])),
                    ) && !parts(paths[i]).contains(ascii(".git"@)) && !tracked_paths(es).contains(
                        c->Untracked_0,
                    );
                assert(paths.contains(paths[i]));
                assert(work.files.contains_key(paths[i]));
            }
            if change_holds(work, head, es, c) {
                let f = choose|f: Seq<u8>| #[trigger]
                    work.files.contains_key(f) && encode_utf8(text_of(f)) == p && !parts(
                        f,
                    ).contains(ascii(".git"@)) && !tracked_paths(es).contains(p);
                assert(work.files.dom().contains(f));
                assert(paths.contains(f));
                let i = choose|i: int| 0 <= i < paths.len() && paths[i] == f;
                assert(paths[i] == f);
            }
        },
        ChangeView::Staged(p) => {
            assert(head.dom().contains(p) <==> gone.contains(p));
        },
        _ => {},
    }
}

/// Where a list of entries can be compared, each resolved one can.
proof fn tracked_all_ok(
    work: DirView<WorkFileView>,
    head: Map<Seq<u8>, Seq<u8>>,
    es: Seq<IndexEntryView>,
    n: nat,
    i: int,
)
    requires
        n <= es.len(),
        0 <= i < n,
        es[i].stage == 0,
        tracked_changes(work, head, es, n) is Ok,
    ensures
        entry_changes(work, head, es[i]) is Ok,
    decreases n,
{
    if i < n - 1 {
        tracked_all_ok(work, head, es, (n - 1) as nat, i);
    }
}

/// HEAD has finitely many files.
proof fn head_files_finite(repo: RepoView)
    requires
        head_files(repo) is Ok,
    ensures
        head_files(repo)->Ok_0.dom().finite(),
{
    let s = repo.store();
    if let Ok(Some(tree)) = head_tree(repo) {
        tree_files_finite(s, tree, Seq::empty(), true, object_bound(s), Map::empty());
    }
}

/// Whether HEAD, index and working tree agree: the file of every resolved
/// entry is what the entry says, and so is HEAD's; every file of HEAD has an
/// entry, and every file outside a `.git` a resolved one.
pub open spec fn all_agree(
    work: DirView<WorkFileView>,
    head: Map<Seq<u8>, Seq<u8>>,
    es: Seq<IndexEntryView>,
) -> bool {
    &&& forall|i: int|
        0 <= i < es.len() && (#[trigger] es[i]).stage == 0 ==> {
            let file = seen(work, plain_path(es[i].path));
            &&& file is Ok
            &&& object_id(ObjectKind::Blob, stored_bytes(file->Ok_0)) == es[i].id
            &&& head.contains_key(es[i].path)
            &&& head[es[i].path] == es[i].id
        }
    &&& forall|p: Seq<u8>| #[trigger] head.contains_key(p) ==> entry_paths(es).contains(p)
    &&& forall|f: Seq<u8>| #[trigger]
        work.files.contains_key(f) ==> parts(f).contains(ascii(".git"@)) || tracked_paths(
            es,
        ).contains(encode_utf8(text_of(f)))
}

/// Law: a status is empty if and only if HEAD, index and working tree agree.
pub proof fn law_status_clean(repo: RepoView)
    requires
        status_of(repo) is Ok,
        repo.work.files.dom().finite(),
    ensures
        status_of(repo)->Ok_0.len() == 0 <==> all_agree(
            repo.work,
            head_files(repo)->Ok_0,
            index_of(repo.git)->Ok_0.entries,
        ),
{
    let cs = status_of(repo)->Ok_0;
    let work = repo.work;
    let head = head_files(repo)->Ok_0;
    let es = index_of(repo.git)->Ok_0.entries;
    if all_agree(work, head, es) && cs.len() > 0 {
        let c = cs[0];
        assert(cs.contains(c));
        law_status_says(repo, c);
    }
    if cs.len() == 0 {
        assert forall|i: int| 0 <= i < es.len() && (#[trigger] es[i]).stage == 0 implies {
            let file = seen(work, plain_path(es[i].path));
            &&& file is Ok
            &&& object_id(ObjectKind::Blob, stored_bytes(file->Ok_0)) == es[i].id
            &&& head.contains_key(es[i].path)
            &&& head[es[i].path] == es[i].id
        } by {
            let p = es[i].path;
            tracked_all_ok(work, head, es, es.len(), i);
            law_status_says(repo, ChangeView::Deleted(p));
            law_status_says(repo, ChangeView::Modified(p));
            law_status_says(repo, ChangeView::Staged(p));
        }
        assert forall|p: Seq<u8>| #[trigger] head.contains_key(p) implies entry_paths(
            es,
        ).contains(p) by {
            law_status_says(repo, ChangeView::Staged(p));
        }
        assert forall|f: Seq<u8>| #[trigger] work.files.contains_key(f) implies parts(f).contains(
            ascii(".git"@),
        ) || tracked_paths(es).contains(encode_utf8(text_of(f))) by {
            law_status_says(repo, ChangeView::Untracked(encode_utf8(text_of(f))));
        }
    }
}

} // verus!
