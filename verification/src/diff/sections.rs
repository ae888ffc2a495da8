//! The diff of two sides has a section for each path on which they differ.

use vstd::prelude::*;

use super::repo::{
    cached_diff, file_diff, index_files, map_diff, maps_diff, trees_diff, unstaged_diff, work_data,
    work_diff, work_fault, DiffErrorView,
};
use super::unified;
use crate::bytemap::{lists_keys, sorted_keys, sorted_keys_lists};
use crate::bytes::lex_lt;
use crate::dir::DirView;
use crate::files::IoError;
use crate::index::store::index_of;
use crate::index::IndexEntryView;
use crate::notation::text_of;
use crate::object::ObjectKind;
use crate::odb::{RepoView, Store};
use crate::treewalk::laws::tree_files_finite;
use crate::treewalk::{files_of_tree, object_bound};
use crate::worktree::places::read_through;
use crate::worktree::WorkFileView;

verus! {

/// Whether two sides differ on a path: just one has a file there, or both
/// have, with different blobs.
pub open spec fn differ(
    a: Map<Seq<u8>, Seq<u8>>,
    b: Map<Seq<u8>, Seq<u8>>,
    p: Seq<u8>,
) -> bool {
    a.contains_key(p) != b.contains_key(p) || (a.contains_key(p) && a[p] != b[p])
}

/// The paths on which two sides differ.
pub open spec fn differing(
    a: Map<Seq<u8>, Seq<u8>>,
    b: Map<Seq<u8>, Seq<u8>>,
) -> Set<Seq<u8>> {
    Set::new(|p: Seq<u8>| differ(a, b, p))
}

/// What is shown of a file on one side: the payload of its blob, and nothing
/// where there is no file or the object is none.
pub open spec fn shown_bytes(s: Store, m: Map<Seq<u8>, Seq<u8>>, p: Seq<u8>) -> Seq<u8> {
    if m.contains_key(p) && s.raw(m[p])->Ok_0.0 == ObjectKind::Blob {
        s.raw(m[p])->Ok_0.1
    } else {
        Seq::empty()
    }
}

/// The section of a path: its title and the unified diff of both sides.
pub open spec fn section(p: Seq<u8>, x: Seq<u8>, y: Seq<u8>) -> Seq<char> {
    let name = text_of(p);
    seq!['d', 'i', 'f', 'f', ' ', '-', '-', 'g', 'i', 't', ' ', 'a', '/'] + name + seq![
        ' ',
        'b',
        '/',
    ] + name + seq!['\n'] + unified(x, seq!['a', '/'] + name, y, seq!['b', '/'] + name, 3)
}

/// The sections of a list of paths, one after the other.
pub open spec fn sections(
    s: Store,
    a: Map<Seq<u8>, Seq<u8>>,
    b: Map<Seq<u8>, Seq<u8>>,
    ps: Seq<Seq<u8>>,
) -> Seq<char>
    decreases ps.len(),
{
    if ps.len() == 0 {
        Seq::empty()
    } else {
        sections(s, a, b, ps.drop_last()) + section(
            ps.last(),
            shown_bytes(s, a, ps.last()),
            shown_bytes(s, b, ps.last()),
        )
    }
}

/// The diff of a file is a section.
proof fn file_diff_is_section(p: Seq<u8>, x: Seq<u8>, y: Seq<u8>)
    ensures
        file_diff(p, x, y) == section(p, x, y),
        section(p, x, y).len() > 0,
{
    reveal_strlit("diff --git a/");
    reveal_strlit(" b/");
    reveal_strlit("\n");
    reveal_strlit("a/");
    reveal_strlit("b/");
    assert("diff --git a/"@ =~= seq![
        'd',
        'i',
        'f',
        'f',
        ' ',
        '-',
        '-',
        'g',
        'i',
        't',
        ' ',
        'a',
        '/',
    ]);
    assert(" b/"@ =~= seq![' ', 'b', '/']);
    assert("\n"@ =~= seq!['\n']);
    assert("a/"@ =~= seq!['a', '/']);
    assert("b/"@ =~= seq!['b', '/']);
}

/// Those of the first `n` paths on which the sides differ.
spec fn changed(
    a: Map<Seq<u8>, Seq<u8>>,
    b: Map<Seq<u8>, Seq<u8>>,
    ps: Seq<Seq<u8>>,
    n: nat,
) -> Seq<Seq<u8>>
    decreases n,
{
    if n == 0 {
        Seq::empty()
    } else if differ(a, b, ps[n - 1]) {
        changed(a, b, ps, (n - 1) as nat).push(ps[n - 1])
    } else {
        changed(a, b, ps, (n - 1) as nat)
    }
}

/// The diff of the first paths has the sections of those on which the sides
/// differ.
proof fn map_diff_sections(
    s: Store,
    a: Map<Seq<u8>, Seq<u8>>,
    b: Map<Seq<u8>, Seq<u8>>,
    ps: Seq<Seq<u8>>,
    n: nat,
)
    requires
        n <= ps.len(),
        forall|i: int| 0 <= i < ps.len() ==> a.contains_key(#[trigger] ps[i]) || b.contains_key(ps[i]),
    ensures
        match map_diff(s, a, b, ps, n) {
            Ok(t) => t == sections(s, a, b, changed(a, b, ps, n)) && forall|i: int|
                0 <= i < n && differ(a, b, #[trigger] ps[i]) ==> side_reads(s, a, ps[i])
                    && side_reads(s, b, ps[i]),
            Err(e) => exists|i: int|
                0 <= i < n && differ(a, b, #[trigger] ps[i]) && (!side_reads(s, a, ps[i])
                    || !side_reads(s, b, ps[i])),
        },
    decreases n,
{
    if n > 0 {
        let k = (n - 1) as nat;
        let p = ps[n - 1];
        map_diff_sections(s, a, b, ps, k);
        match map_diff(s, a, b, ps, k) {
            Ok(done) => {
                let list = changed(a, b, ps, k);
                if differ(a, b, p) {
                    assert(list.push(p).drop_last() =~= list);
                    file_diff_is_section(p, shown_bytes(s, a, p), shown_bytes(s, b, p));
                    assert(differ(a, b, ps[n - 1]));
                } else {
                    assert(a.contains_key(p) && b.contains_key(p));
                }
            },
            Err(_) => {
                let i = choose|i: int|
                    0 <= i < k && differ(a, b, #[trigger] ps[i]) && (!side_reads(s, a, ps[i])
                        || !side_reads(s, b, ps[i]));
                assert(differ(a, b, ps[i]));
            },
        }
    }
}

/// Whether the blob of a file on one side can be read, if there is a file.
pub open spec fn side_reads(s: Store, m: Map<Seq<u8>, Seq<u8>>, p: Seq<u8>) -> bool {
    m.contains_key(p) ==> s.raw(m[p]) is Ok
}

/// The changed paths are in order and are all of them.
proof fn changed_lists(
    a: Map<Seq<u8>, Seq<u8>>,
    b: Map<Seq<u8>, Seq<u8>>,
    ps: Seq<Seq<u8>>,
    n: nat,
)
    requires
        n <= ps.len(),
        forall|i: int, j: int| 0 <= i < j < ps.len() ==> lex_lt(#[trigger] ps[i], #[trigger] ps[j]),
    ensures
        ({
            let c = changed(a, b, ps, n);
            &&& forall|p: Seq<u8>| #[trigger]
                c.contains(p) <==> ps.take(n as int).contains(p) && differ(a, b, p)
            &&& forall|i: int, j: int|
                0 <= i < j < c.len() ==> lex_lt(#[trigger] c[i], #[trigger] c[j])
        }),
    decreases n,
{
    if n > 0 {
        let k = (n - 1) as nat;
        changed_lists(a, b, ps, k);
        let t = changed(a, b, ps, k);
        let c = changed(a, b, ps, n);
        let x = ps[n - 1];
        assert(ps.take(n as int) =~= ps.take(k as int).push(x));
        assert forall|p: Seq<u8>| #[trigger] c.contains(p) <==> ps.take(n as int).contains(p)
            && differ(a, b, p) by {
            pushed(ps.take(k as int), x, p);
            pushed(t, x, p);
        }
        assert forall|i: int, j: int| 0 <= i < j < c.len() implies lex_lt(
            #[trigger] c[i],
            #[trigger] c[j],
        ) by {
            if j == t.len() {
                assert(t.contains(t[i]));
                assert(ps.take(k as int).contains(t[i]));
                let m = choose|m: int| 0 <= m < k && ps.take(k as int)[m] == t[i];
                assert(lex_lt(ps[m], ps[n - 1]));
            } else {
                assert(lex_lt(t[i], t[j]));
            }
        }
    }
}

/// What a list with one thing more holds.
proof fn pushed(s: Seq<Seq<u8>>, x: Seq<u8>, y: Seq<u8>)
    ensures
        s.push(x).contains(y) <==> s.contains(y) || x == y,
{
    let all = s.push(x);
    if s.contains(y) {
        let i = choose|i: int| 0 <= i < s.len() && s[i] == y;
        assert(all[i] == y);
    }
    assert(all[s.len() as int] == x);
}

/// Law: the diff of two sides has a section for each path on which they
/// differ, by ascending path, and for no other; and it can be made just where
/// the blobs of these paths can be read.
pub proof fn law_diff_sections(s: Store, a: Map<Seq<u8>, Seq<u8>>, b: Map<Seq<u8>, Seq<u8>>)
    requires
        a.dom().finite(),
        b.dom().finite(),
    ensures
        match maps_diff(s, a, b) {
            Ok(t) => exists|ps: Seq<Seq<u8>>| #[trigger]
                lists_keys(ps, differing(a, b)) && t == sections(s, a, b, ps),
            Err(_) => exists|p: Seq<u8>| #[trigger]
                differ(a, b, p) && (!side_reads(s, a, p) || !side_reads(s, b, p)),
        },
        (forall|p: Seq<u8>| #[trigger]
            differ(a, b, p) ==> side_reads(s, a, p) && side_reads(s, b, p)) ==> maps_diff(
            s,
            a,
            b,
        ) is Ok,
{
    let all = a.dom().union(b.dom());
    let ps = sorted_keys(all);
    sorted_keys_lists(all);
    assert forall|i: int| 0 <= i < ps.len() implies a.contains_key(#[trigger] ps[i])
        || b.contains_key(ps[i]) by {
        assert(ps.contains(ps[i]));
        assert(all.contains(ps[i]));
    }
    map_diff_sections(s, a, b, ps, ps.len());
    changed_lists(a, b, ps, ps.len());
    let c = changed(a, b, ps, ps.len());
    assert(ps.take(ps.len() as int) =~= ps);
    assert(lists_keys(c, differing(a, b))) by {
        assert forall|k: Seq<u8>| #[trigger] differing(a, b).contains(k) <==> c.contains(k) by {
            if differ(a, b, k) {
                assert(all.contains(k));
                assert(ps.contains(k));
            }
        }
    }
}

/// No section is empty.
proof fn sections_nonempty(
    s: Store,
    a: Map<Seq<u8>, Seq<u8>>,
    b: Map<Seq<u8>, Seq<u8>>,
    ps: Seq<Seq<u8>>,
)
    ensures
        sections(s, a, b, ps).len() == 0 <==> ps.len() == 0,
{
    if ps.len() > 0 {
        let p = ps.last();
        file_diff_is_section(p, shown_bytes(s, a, p), shown_bytes(s, b, p));
    }
}

/// Two sides are the same if and only if they differ on no path.
proof fn same_sides(a: Map<Seq<u8>, Seq<u8>>, b: Map<Seq<u8>, Seq<u8>>, ps: Seq<Seq<u8>>)
    requires
        lists_keys(ps, differing(a, b)),
    ensures
        ps.len() == 0 <==> a == b,
{
    if ps.len() > 0 {
        assert(ps.contains(ps[0]));
        assert(differing(a, b).contains(ps[0]));
    } else {
        assert forall|p: Seq<u8>| !#[trigger] differ(a, b, p) by {
            if differ(a, b, p) {
                assert(differing(a, b).contains(p));
                assert(ps.contains(p));
            }
        }
        assert forall|p: Seq<u8>| #[trigger] a.contains_key(p) == b.contains_key(p) by {
            assert(!differ(a, b, p));
        }
        assert forall|p: Seq<u8>| a.contains_key(p) implies #[trigger] a[p] == b[p] by {
            assert(!differ(a, b, p));
        }
        assert(a.dom() =~= b.dom());
        assert(a =~= b);
    }
}

/// Law: the diff of two sides is empty if and only if they are the same.
pub proof fn law_diff_empty(s: Store, a: Map<Seq<u8>, Seq<u8>>, b: Map<Seq<u8>, Seq<u8>>)
    requires
        a.dom().finite(),
        b.dom().finite(),
    ensures
        (maps_diff(s, a, b) matches Ok(t) && t.len() == 0) <==> a == b,
{
    law_diff_sections(s, a, b);
    if a == b {
        assert(forall|p: Seq<u8>| !#[trigger] differ(a, b, p));
    }
    if let Ok(t) = maps_diff(s, a, b) {
        let ps = choose|ps: Seq<Seq<u8>>| #[trigger]
            lists_keys(ps, differing(a, b)) && t == sections(s, a, b, ps);
        sections_nonempty(s, a, b, ps);
        same_sides(a, b, ps);
    }
}

/// Law: the diff of two trees is that of the files that a walk finds in them;
/// what is no tree has none.
pub proof fn law_trees_diff(s: Store, a: Seq<u8>, b: Seq<u8>)
    ensures
        match trees_diff(s, a, b) {
            Ok(t) => exists|x: Map<Seq<u8>, Seq<u8>>, y: Map<Seq<u8>, Seq<u8>>|
                #![trigger differing(x, y)]
                {
                    &&& x.dom().finite() && y.dom().finite()
                    &&& files_of_tree(s, a, false) == Ok::<_, crate::treewalk::WalkErrorView>(x)
                    &&& files_of_tree(s, b, false) == Ok::<_, crate::treewalk::WalkErrorView>(y)
                    &&& exists|ps: Seq<Seq<u8>>| #[trigger]
                        lists_keys(ps, differing(x, y)) && t == sections(s, x, y, ps)
                    &&& t.len() == 0 <==> x == y
                },
            Err(e) => e is Odb,
        },
{
    not_strict(s, a);
    not_strict(s, b);
    if let Ok(x) = files_of_tree(s, a, false) {
        if let Ok(y) = files_of_tree(s, b, false) {
            tree_files_finite(s, a, Seq::empty(), false, object_bound(s), Map::empty());
            tree_files_finite(s, b, Seq::empty(), false, object_bound(s), Map::empty());
            law_diff_sections(s, x, y);
            law_diff_empty(s, x, y);
            if let Ok(t) = maps_diff(s, x, y) {
                assert(differing(x, y) == differing(x, y));
            }
        }
    }
}

/// A lenient walk never says that something is no tree.
proof fn not_strict(s: Store, id: Seq<u8>)
    ensures
        files_of_tree(s, id, false) matches Err(e) ==> e is Odb,
{
    lenient_walk(s, id, Seq::empty(), object_bound(s), Map::empty());
}

/// Nor at any depth.
proof fn lenient_walk(
    s: Store,
    id: Seq<u8>,
    prefix: Seq<u8>,
    fuel: nat,
    found: Map<Seq<u8>, Seq<u8>>,
)
    ensures
        crate::treewalk::tree_files(s, id, prefix, false, fuel, found) matches Err(e) ==> e is Odb,
    decreases fuel, 0nat,
{
    if fuel > 0 {
        if let Ok(crate::object::ObjectView::Tree(es)) = s.object(id) {
            lenient_entries(s, es, es.len(), prefix, (fuel - 1) as nat, found);
        }
    }
}

/// Nor for the entries of a tree.
proof fn lenient_entries(
    s: Store,
    es: Seq<crate::object::TreeEntryView>,
    n: nat,
    prefix: Seq<u8>,
    fuel: nat,
    found: Map<Seq<u8>, Seq<u8>>,
)
    ensures
        crate::treewalk::entries_files(s, es, n, prefix, false, fuel, found) matches Err(e)
            ==> e is Odb,
    decreases fuel, n + 1,
{
    if n > 0 {
        lenient_entries(s, es, (n - 1) as nat, prefix, fuel, found);
        if let Ok(m) = crate::treewalk::entries_files(
            s,
            es,
            (n - 1) as nat,
            prefix,
            false,
            fuel,
            found,
        ) {
            let e = es[n - 1];
            lenient_walk(s, e.id, crate::treewalk::child_path(prefix, e.name), fuel, m);
        }
    }
}

// ---------------------------------------------------------------------
// The index as a side
// ---------------------------------------------------------------------

/// Law: as a side, the index has the id of the last resolved entry for each
/// path, and nothing for a path without one.
pub proof fn law_index_side(es: Seq<IndexEntryView>, p: Seq<u8>)
    ensures
        index_files(es).dom().finite(),
        index_files(es).contains_key(p) <==> exists|i: int|
            0 <= i < es.len() && (#[trigger] es[i]).stage == 0 && es[i].path == p,
        index_files(es).contains_key(p) ==> exists|i: int|
            0 <= i < es.len() && (#[trigger] es[i]).stage == 0 && es[i].path == p && es[i].id
                == index_files(es)[p] && forall|j: int|
                i < j < es.len() ==> !((#[trigger] es[j]).stage == 0 && es[j].path == p),
    decreases es.len(),
{
    if es.len() > 0 {
        let t = es.drop_last();
        law_index_side(t, p);
        let n = es.len() - 1;
        assert(forall|i: int| 0 <= i < n ==> #[trigger] t[i] == es[i]);
        if es[n].stage == 0 && es[n].path == p {
            assert(es[n].path == p);
        } else {
            if index_files(t).contains_key(p) {
                let i = choose|i: int|
                    0 <= i < t.len() && (#[trigger] t[i]).stage == 0 && t[i].path == p && t[i].id
                        == index_files(t)[p] && forall|j: int|
                        i < j < t.len() ==> !((#[trigger] t[j]).stage == 0 && t[j].path == p);
                assert(es[i] == t[i]);
                assert forall|j: int| i < j < es.len() implies !((#[trigger] es[j]).stage == 0
                    && es[j].path == p) by {
                    if j < n {
                        assert(t[j] == es[j]);
                    }
                }
            }
            if exists|i: int| 0 <= i < es.len() && (#[trigger] es[i]).stage == 0 && es[i].path == p {
                let i = choose|i: int|
                    0 <= i < es.len() && (#[trigger] es[i]).stage == 0 && es[i].path == p;
                assert(t[i] == es[i]);
            }
        }
    }
}

/// Law: where HEAD leads to a commit, the diff of the index against HEAD is
/// that from the files of the commit's tree to the index.
pub proof fn law_cached_diff(repo: RepoView, head: Seq<u8>, tree: Seq<u8>)
    requires
        crate::refs::ref_value(repo, crate::bytes::ascii("HEAD"@)) == Ok::<
            _,
            crate::refs::RefErrorView,
        >(head),
        repo.store().object(head) matches Ok(crate::object::ObjectView::Commit(c)) && c.tree == tree,
        index_of(repo.git) is Ok,
    ensures
        match files_of_tree(repo.store(), tree, false) {
            Ok(x) => cached_diff(repo) == match maps_diff(
                repo.store(),
                x,
                index_files(index_of(repo.git)->Ok_0.entries),
            ) {
                Ok(t) => Ok::<_, DiffErrorView>(t),
                Err(e) => Err(DiffErrorView::Odb(e)),
            },
            Err(_) => cached_diff(repo) is Err,
        },
{
    not_strict(repo.store(), tree);
}

// ---------------------------------------------------------------------
// The working tree as a side
// ---------------------------------------------------------------------

/// What is read of a file of the working tree; a missing file is empty.
pub open spec fn work_bytes(work: DirView<WorkFileView>, p: Seq<u8>) -> Seq<u8> {
    let at = if vstd::utf8::valid_utf8(p) {
        p
    } else {
        Seq::empty()
    };
    match read_through(work, at) {
        Ok(b) => b,
        Err(_) => Seq::empty(),
    }
}

/// The sections of a list of staged paths against the working tree.
pub open spec fn work_sections(
    s: Store,
    staged: Map<Seq<u8>, Seq<u8>>,
    work: DirView<WorkFileView>,
    ps: Seq<Seq<u8>>,
) -> Seq<char>
    decreases ps.len(),
{
    if ps.len() == 0 {
        Seq::empty()
    } else {
        work_sections(s, staged, work, ps.drop_last()) + section(
            ps.last(),
            shown_bytes(s, staged, ps.last()),
            work_bytes(work, ps.last()),
        )
    }
}

/// Those of the first `n` paths whose file is not what is staged.
spec fn work_changed(
    s: Store,
    staged: Map<Seq<u8>, Seq<u8>>,
    work: DirView<WorkFileView>,
    ps: Seq<Seq<u8>>,
    n: nat,
) -> Seq<Seq<u8>>
    decreases n,
{
    if n == 0 {
        Seq::empty()
    } else if shown_bytes(s, staged, ps[n - 1]) != work_bytes(work, ps[n - 1]) {
        work_changed(s, staged, work, ps, (n - 1) as nat).push(ps[n - 1])
    } else {
        work_changed(s, staged, work, ps, (n - 1) as nat)
    }
}

/// The diff of the first paths has the sections of those whose file is not
/// what is staged.
proof fn work_diff_sections(
    s: Store,
    staged: Map<Seq<u8>, Seq<u8>>,
    work: DirView<WorkFileView>,
    ps: Seq<Seq<u8>>,
    n: nat,
)
    requires
        n <= ps.len(),
        forall|i: int| 0 <= i < ps.len() ==> staged.contains_key(#[trigger] ps[i]),
        forall|i: int| 0 <= i < ps.len() ==> work_data(work, #[trigger] ps[i]) is Ok,
    ensures
        work_diff(s, staged, work, ps, n) matches Ok(t) ==> t == work_sections(
            s,
            staged,
            work,
            work_changed(s, staged, work, ps, n),
        ),
        (forall|i: int| 0 <= i < n ==> s.raw(staged[#[trigger] ps[i]]) is Ok) ==> work_diff(
            s,
            staged,
            work,
            ps,
            n,
        ) is Ok,
    decreases n,
{
    if n > 0 {
        let k = (n - 1) as nat;
        let p = ps[n - 1];
        work_diff_sections(s, staged, work, ps, k);
        assert(work_data(work, p) == Ok::<_, IoError>(work_bytes(work, p)));
        let list = work_changed(s, staged, work, ps, k);
        assert(list.push(p).drop_last() =~= list);
        file_diff_is_section(p, shown_bytes(s, staged, p), work_bytes(work, p));
    }
}

/// The changed files are in order and are all of them.
proof fn work_changed_lists(
    s: Store,
    staged: Map<Seq<u8>, Seq<u8>>,
    work: DirView<WorkFileView>,
    ps: Seq<Seq<u8>>,
    n: nat,
)
    requires
        n <= ps.len(),
        forall|i: int, j: int| 0 <= i < j < ps.len() ==> lex_lt(#[trigger] ps[i], #[trigger] ps[j]),
    ensures
        ({
            let c = work_changed(s, staged, work, ps, n);
            &&& forall|p: Seq<u8>| #[trigger]
                c.contains(p) <==> ps.take(n as int).contains(p) && shown_bytes(s, staged, p)
                    != work_bytes(work, p)
            &&& forall|i: int, j: int|
                0 <= i < j < c.len() ==> lex_lt(#[trigger] c[i], #[trigger] c[j])
        }),
    decreases n,
{
    if n > 0 {
        let k = (n - 1) as nat;
        work_changed_lists(s, staged, work, ps, k);
        let t = work_changed(s, staged, work, ps, k);
        let c = work_changed(s, staged, work, ps, n);
        let x = ps[n - 1];
        assert(ps.take(n as int) =~= ps.take(k as int).push(x));
        assert forall|p: Seq<u8>| #[trigger] c.contains(p) <==> ps.take(n as int).contains(p)
            && shown_bytes(s, staged, p) != work_bytes(work, p) by {
            pushed(ps.take(k as int), x, p);
            pushed(t, x, p);
        }
        assert forall|i: int, j: int| 0 <= i < j < c.len() implies lex_lt(
            #[trigger] c[i],
            #[trigger] c[j],
        ) by {
            if j == t.len() {
                assert(t.contains(t[i]));
                assert(ps.take(k as int).contains(t[i]));
                let m = choose|m: int| 0 <= m < k && ps.take(k as int)[m] == t[i];
                assert(lex_lt(ps[m], ps[n - 1]));
            } else {
                assert(lex_lt(t[i], t[j]));
            }
        }
    }
}

/// Whether nothing but its absence keeps a file of the working tree from
/// being read.
pub open spec fn work_reads(work: DirView<WorkFileView>, p: Seq<u8>) -> bool {
    let at = if vstd::utf8::valid_utf8(p) {
        p
    } else {
        Seq::empty()
    };
    match read_through(work, at) {
        Ok(_) => true,
        Err(e) => e == IoError::NotFound,
    }
}

/// The first file that cannot be read stops a diff.
proof fn work_fault_is(work: DirView<WorkFileView>, ps: Seq<Seq<u8>>, n: nat)
    requires
        n <= ps.len(),
    ensures
        work_fault(work, ps, n) is None <==> forall|i: int|
            0 <= i < n ==> work_reads(work, #[trigger] ps[i]),
        work_fault(work, ps, n) is None ==> forall|i: int|
            0 <= i < n ==> work_data(work, #[trigger] ps[i]) is Ok,
    decreases n,
{
    if n > 0 {
        work_fault_is(work, ps, (n - 1) as nat);
        assert(work_data(work, ps[n - 1]) is Ok <==> work_reads(work, ps[n - 1]));
    }
}

/// The staged paths whose file is not what is staged.
pub open spec fn work_differing(
    s: Store,
    staged: Map<Seq<u8>, Seq<u8>>,
    work: DirView<WorkFileView>,
) -> Set<Seq<u8>> {
    Set::new(
        |p: Seq<u8>|
            staged.contains_key(p) && shown_bytes(s, staged, p) != work_bytes(work, p),
    )
}

/// Law: the diff of the working tree has a section for each staged path whose
/// file has other contents than what is staged, by ascending path, and for no
/// other. It can be made where all these files can be read or are missing and
/// all staged blobs can be read.
pub proof fn law_unstaged_diff(repo: RepoView)
    requires
        repo.work_dir is Some,
        index_of(repo.git) is Ok,
    ensures
        ({
            let staged = index_files(index_of(repo.git)->Ok_0.entries);
            let s = repo.store();
            &&& unstaged_diff(repo) matches Ok(t) ==> exists|ps: Seq<Seq<u8>>| #[trigger]
                lists_keys(ps, work_differing(s, staged, repo.work)) && t == work_sections(
                    s,
                    staged,
                    repo.work,
                    ps,
                )
            &&& (forall|p: Seq<u8>| #[trigger]
                staged.contains_key(p) ==> work_reads(repo.work, p) && s.raw(staged[p]) is Ok)
                ==> unstaged_diff(repo) is Ok
            &&& unstaged_diff(repo) is Ok ==> forall|p: Seq<u8>| #[trigger]
                staged.contains_key(p) ==> work_reads(repo.work, p)
        }),
{
    let staged = index_files(index_of(repo.git)->Ok_0.entries);
    let s = repo.store();
    let work = repo.work;
    law_index_side(index_of(repo.git)->Ok_0.entries, Seq::empty());
    let ps = sorted_keys(staged.dom());
    sorted_keys_lists(staged.dom());
    work_fault_is(work, ps, ps.len());
    assert forall|i: int| 0 <= i < ps.len() implies staged.contains_key(#[trigger] ps[i]) by {
        assert(ps.contains(ps[i]));
        assert(staged.dom().contains(ps[i]));
    }
    assert forall|p: Seq<u8>| #[trigger] staged.contains_key(p) implies ps.contains(p) by {
        assert(staged.dom().contains(p));
    }
    if work_fault(work, ps, ps.len()) is None {
        work_diff_sections(s, staged, work, ps, ps.len());
        work_changed_lists(s, staged, work, ps, ps.len());
        let c = work_changed(s, staged, work, ps, ps.len());
        assert(ps.take(ps.len() as int) =~= ps);
        assert(lists_keys(c, work_differing(s, staged, work))) by {
            assert forall|k: Seq<u8>| #[trigger]
                work_differing(s, staged, work).contains(k) <==> c.contains(k) by {
                if staged.contains_key(k) {
                    assert(ps.contains(k));
                }
                if ps.contains(k) {
                    assert(staged.dom().contains(k));
                }
            }
        }
        assert forall|p: Seq<u8>| #[trigger] staged.contains_key(p) implies work_reads(
            work,
            p,
        ) by {
            assert(ps.contains(p));
            let i = choose|i: int| 0 <= i < ps.len() && ps[i] == p;
            assert(work_reads(work, ps[i]));
        }
    } else if forall|p: Seq<u8>| #[trigger]
        staged.contains_key(p) ==> work_reads(work, p) && s.raw(staged[p]) is Ok {
        assert forall|i: int| 0 <= i < ps.len() implies work_reads(work, #[trigger] ps[i]) by {
            assert(staged.contains_key(ps[i]));
        }
    }
}

} // verus!
