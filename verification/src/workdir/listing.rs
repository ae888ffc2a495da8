//! The tree that is built from the index lists what the index lists.

use vstd::prelude::*;

use super::staging::{
    below, below_shrinks, dir_entries, dir_names, first_part, is_deep, own_files, store_subdirs,
    store_tree, subdirs, total_len, tree_of, LeafView,
};
use crate::bytemap::{lists_keys, sorted_keys_lists};
use crate::bytes::{upto, upto_spec, SLASH};
use crate::codec::{zlib_deflated, zlib_inflated};
use crate::dir::{is_above, DirView};
use crate::object::laws::{canonical_object, law_object_round_trip, object_ok};
use crate::object::tree::{canonical, has_name, law_canonical_first};
use crate::object::{EntryMode, ObjectView, TreeEntryView};
use crate::odb::laws::{frame_extent, only_preimage, other_file_kept};
use crate::odb::{after_store, loose_frame, loose_path, OdbErrorView, Store};
use crate::pack::PackView;
use crate::treewalk::laws::says_cyclic;
use crate::treewalk::{child_path, entries_files, files_of_tree, object_bound, tree_files};

verus! {

/// Whether a tree can carry the path: its parts are not empty.
pub open spec fn path_ok(path: Seq<u8>) -> bool
    decreases path.len(),
{
    let k = upto(path, SLASH);
    &&& path.len() > 0
    &&& k > 0
    &&& 0 <= k < path.len() ==> path_ok(path.skip(k + 1))
}

/// Whether one tree can carry the leaves: their paths are fit for it and
/// differ, and none is a file where another has a directory.
pub open spec fn leaves_ok(ls: Seq<LeafView>) -> bool {
    &&& forall|l: LeafView| #[trigger]
        ls.contains(l) ==> path_ok(l.path) && l.mode != EntryMode::Tree
    &&& forall|a: LeafView, b: LeafView|
        #![trigger ls.contains(a), ls.contains(b)]
        ls.contains(a) && ls.contains(b) && a.path == b.path ==> a == b
    &&& forall|a: LeafView, b: LeafView|
        #![trigger ls.contains(a), ls.contains(b)]
        ls.contains(a) && ls.contains(b) ==> !is_above(a.path, b.path)
}

/// Whether the store has the tree of the leaves and all its subtrees.
pub open spec fn holds_trees(s: Store, ls: Seq<LeafView>) -> bool
    decreases total_len(ls),
{
    &&& s.object(tree_of(ls).id()) == Ok::<_, OdbErrorView>(canonical_object(tree_of(ls)))
    &&& forall|name: Seq<u8>| #[trigger]
        dir_names(ls).contains(name) ==> total_len(below(ls, name)) < total_len(ls)
            && holds_trees(s, below(ls, name))
}

/// A leaf as its directory sees it.
pub open spec fn shortened(l: LeafView) -> LeafView {
    LeafView { path: l.path.skip(upto(l.path, SLASH) + 1), mode: l.mode, id: l.id }
}

/// The leaves below a directory are the shortened ones that lead into it.
pub proof fn below_contains(ls: Seq<LeafView>, name: Seq<u8>, x: LeafView)
    ensures
        below(ls, name).contains(x) <==> exists|l: LeafView| #[trigger]
            ls.contains(l) && is_deep(l.path) && first_part(l.path) == name && shortened(l) == x,
    decreases ls.len(),
{
    if ls.len() > 0 {
        let t = ls.drop_last();
        let last = ls.last();
        below_contains(t, name, x);
        let b = below(t, name);
        let all = below(ls, name);
        assert(ls[ls.len() - 1] == last);
        assert(ls.contains(last));
        if is_deep(last.path) && first_part(last.path) == name {
            assert(all == b.push(shortened(last)));
            assert(all[b.len() as int] == shortened(last));
        }
        if all.contains(x) {
            let i = choose|i: int| 0 <= i < all.len() && all[i] == x;
            if i < b.len() {
                assert(b[i] == x);
                assert(b.contains(x));
                let l = choose|l: LeafView| #[trigger]
                    t.contains(l) && is_deep(l.path) && first_part(l.path) == name && shortened(l)
                        == x;
                let j = choose|j: int| 0 <= j < t.len() && t[j] == l;
                assert(ls[j] == l);
                assert(ls.contains(l));
            }
        }
        if exists|l: LeafView| #[trigger]
            ls.contains(l) && is_deep(l.path) && first_part(l.path) == name && shortened(l) == x {
            let l = choose|l: LeafView| #[trigger]
                ls.contains(l) && is_deep(l.path) && first_part(l.path) == name && shortened(l)
                    == x;
            let j = choose|j: int| 0 <= j < ls.len() && ls[j] == l;
            if j < t.len() {
                assert(t[j] == l);
                assert(t.contains(l));
                assert(b.contains(x));
                let i = choose|i: int| 0 <= i < b.len() && b[i] == x;
                assert(all[i] == x);
            }
        }
    }
}

/// The directory's own files are its leaves that lead no deeper.
pub proof fn own_contains(ls: Seq<LeafView>, e: TreeEntryView)
    ensures
        own_files(ls).contains(e) <==> exists|l: LeafView| #[trigger]
            ls.contains(l) && !is_deep(l.path) && e == (TreeEntryView {
                mode: l.mode,
                name: l.path,
                id: l.id,
            }),
    decreases ls.len(),
{
    if ls.len() > 0 {
        let t = ls.drop_last();
        let last = ls.last();
        own_contains(t, e);
        let b = own_files(t);
        let all = own_files(ls);
        let le = TreeEntryView { mode: last.mode, name: last.path, id: last.id };
        assert(ls[ls.len() - 1] == last);
        assert(ls.contains(last));
        if !is_deep(last.path) {
            assert(all == b.push(le));
            assert(all[b.len() as int] == le);
        }
        if all.contains(e) {
            let i = choose|i: int| 0 <= i < all.len() && all[i] == e;
            if i < b.len() {
                assert(b[i] == e);
                assert(b.contains(e));
                let l = choose|l: LeafView| #[trigger]
                    t.contains(l) && !is_deep(l.path) && e == (TreeEntryView {
                        mode: l.mode,
                        name: l.path,
                        id: l.id,
                    });
                let j = choose|j: int| 0 <= j < t.len() && t[j] == l;
                assert(ls[j] == l);
                assert(ls.contains(l));
            }
        }
        if exists|l: LeafView| #[trigger]
            ls.contains(l) && !is_deep(l.path) && e == (TreeEntryView {
                mode: l.mode,
                name: l.path,
                id: l.id,
            }) {
            let l = choose|l: LeafView| #[trigger]
                ls.contains(l) && !is_deep(l.path) && e == (TreeEntryView {
                    mode: l.mode,
                    name: l.path,
                    id: l.id,
                });
            let j = choose|j: int| 0 <= j < ls.len() && ls[j] == l;
            if j < t.len() {
                assert(t[j] == l);
                assert(t.contains(l));
                assert(b.contains(e));
                let i = choose|i: int| 0 <= i < b.len() && b[i] == e;
                assert(all[i] == e);
            }
        }
    }
}

/// The directory names are the first parts of the leaves that lead deeper.
pub proof fn dir_names_contains(ls: Seq<LeafView>, name: Seq<u8>)
    ensures
        dir_names(ls).finite(),
        dir_names(ls).contains(name) <==> exists|l: LeafView| #[trigger]
            ls.contains(l) && is_deep(l.path) && first_part(l.path) == name,
    decreases ls.len(),
{
    if ls.len() > 0 {
        let t = ls.drop_last();
        let last = ls.last();
        dir_names_contains(t, name);
        assert(ls[ls.len() - 1] == last);
        assert(ls.contains(last));
        if dir_names(t).contains(name) {
            let l = choose|l: LeafView| #[trigger]
                t.contains(l) && is_deep(l.path) && first_part(l.path) == name;
            let j = choose|j: int| 0 <= j < t.len() && t[j] == l;
            assert(ls[j] == l);
            assert(ls.contains(l));
        }
        if exists|l: LeafView| #[trigger]
            ls.contains(l) && is_deep(l.path) && first_part(l.path) == name {
            let l = choose|l: LeafView| #[trigger]
                ls.contains(l) && is_deep(l.path) && first_part(l.path) == name;
            let j = choose|j: int| 0 <= j < ls.len() && ls[j] == l;
            if j < t.len() {
                assert(t[j] == l);
                assert(t.contains(l));
            }
        }
    }
}

/// The entries of the subdirectories, one for each.
proof fn dir_entries_are(ls: Seq<LeafView>, n: nat)
    requires
        n <= subdirs(ls).len(),
        lists_keys(subdirs(ls), dir_names(ls)),
    ensures
        dir_entries(ls, n).len() == n,
        forall|i: int|
            0 <= i < n ==> (#[trigger] dir_entries(ls, n)[i]) == (TreeEntryView {
                mode: EntryMode::Tree,
                name: subdirs(ls)[i],
                id: tree_of(below(ls, subdirs(ls)[i])).id(),
            }),
    decreases n,
{
    if n > 0 {
        dir_entries_are(ls, (n - 1) as nat);
        let name = subdirs(ls)[n - 1];
        assert(subdirs(ls).contains(name));
        below_shrinks(ls, name);
        let before = dir_entries(ls, (n - 1) as nat);
        let all = dir_entries(ls, n);
        assert forall|i: int| 0 <= i < n implies (#[trigger] all[i]) == (TreeEntryView {
            mode: EntryMode::Tree,
            name: subdirs(ls)[i],
            id: tree_of(below(ls, subdirs(ls)[i])).id(),
        }) by {
            if i < n - 1 {
                assert(all[i] == before[i]);
            }
        }
    }
}

/// The entries of a directory before they are sorted.
pub open spec fn plain_dir(ls: Seq<LeafView>) -> Seq<TreeEntryView> {
    own_files(ls) + dir_entries(ls, subdirs(ls).len())
}

/// A path leads from its first part on.
pub proof fn deep_path(path: Seq<u8>)
    requires
        is_deep(path),
        path_ok(path),
    ensures
        first_part(path).len() > 0,
        path == first_part(path) + seq![SLASH] + path.skip(upto(path, SLASH) + 1),
        path_ok(path.skip(upto(path, SLASH) + 1)),
        is_above(first_part(path), path),
{
    upto_spec(path, SLASH);
    let k = upto(path, SLASH);
    assert(path =~= first_part(path) + seq![SLASH] + path.skip(k + 1));
    assert(path.take(k) =~= first_part(path));
}

/// The leaves below a directory are fit for a tree.
pub proof fn below_ok(ls: Seq<LeafView>, name: Seq<u8>)
    requires
        leaves_ok(ls),
    ensures
        leaves_ok(below(ls, name)),
{
    let sub = below(ls, name);
    assert forall|x: LeafView| #[trigger] sub.contains(x) implies path_ok(x.path) && x.mode
        != EntryMode::Tree by {
        below_contains(ls, name, x);
        let l = choose|l: LeafView| #[trigger]
            ls.contains(l) && is_deep(l.path) && first_part(l.path) == name && shortened(l) == x;
        deep_path(l.path);
    }
    assert forall|x: LeafView, y: LeafView|
        #![trigger sub.contains(x), sub.contains(y)]
        sub.contains(x) && sub.contains(y) implies (x.path == y.path ==> x == y) && !is_above(
        x.path,
        y.path,
    ) by {
        below_contains(ls, name, x);
        below_contains(ls, name, y);
        let a = choose|l: LeafView| #[trigger]
            ls.contains(l) && is_deep(l.path) && first_part(l.path) == name && shortened(l) == x;
        let b = choose|l: LeafView| #[trigger]
            ls.contains(l) && is_deep(l.path) && first_part(l.path) == name && shortened(l) == y;
        deep_path(a.path);
        deep_path(b.path);
        let k = name.len() as int;
        if x.path == y.path {
            assert(a.path == b.path);
        }
        if is_above(x.path, y.path) {
            assert(a.path =~= b.path.take(a.path.len() as int));
            assert(b.path[a.path.len() as int] == y.path[x.path.len() as int]);
            assert(is_above(a.path, b.path));
        }
    }
}

/// What a directory's entries are: its own files and its subdirectories.
pub proof fn plain_dir_contains(ls: Seq<LeafView>, e: TreeEntryView)
    ensures
        plain_dir(ls).contains(e) <==> own_files(ls).contains(e) || (dir_names(ls).contains(e.name)
            && e == (TreeEntryView {
            mode: EntryMode::Tree,
            name: e.name,
            id: tree_of(below(ls, e.name)).id(),
        })),
{
    dir_names_contains(ls, Seq::empty());
    sorted_keys_lists(dir_names(ls));
    let own = own_files(ls);
    let names = subdirs(ls);
    let dirs = dir_entries(ls, names.len());
    dir_entries_are(ls, names.len());
    let es = plain_dir(ls);
    if es.contains(e) {
        let i = choose|i: int| 0 <= i < es.len() && es[i] == e;
        if i < own.len() {
            assert(own[i] == e);
        } else {
            assert(dirs[i - own.len()] == e);
            assert(names.contains(names[i - own.len()]));
        }
    }
    if own.contains(e) {
        let i = choose|i: int| 0 <= i < own.len() && own[i] == e;
        assert(es[i] == e);
    } else if dir_names(ls).contains(e.name) && e.mode == EntryMode::Tree && e.id == tree_of(
        below(ls, e.name),
    ).id() {
        let i = choose|i: int| 0 <= i < names.len() && names[i] == e.name;
        assert(dirs[i] == e);
        assert(es[own.len() + i] == e);
    }
}

/// Entries of a directory with the same name are the same.
proof fn plain_dir_same(ls: Seq<LeafView>, e: TreeEntryView, f: TreeEntryView)
    requires
        leaves_ok(ls),
        plain_dir(ls).contains(e),
        plain_dir(ls).contains(f),
        e.name == f.name,
    ensures
        e == f,
{
    plain_dir_contains(ls, e);
    plain_dir_contains(ls, f);
    own_contains(ls, e);
    own_contains(ls, f);
    if own_files(ls).contains(e) && own_files(ls).contains(f) {
        let a = choose|l: LeafView| #[trigger]
            ls.contains(l) && !is_deep(l.path) && e == (TreeEntryView {
                mode: l.mode,
                name: l.path,
                id: l.id,
            });
        let b = choose|l: LeafView| #[trigger]
            ls.contains(l) && !is_deep(l.path) && f == (TreeEntryView {
                mode: l.mode,
                name: l.path,
                id: l.id,
            });
        assert(a == b);
    } else if own_files(ls).contains(e) {
        file_is_no_dir(ls, e);
    } else if own_files(ls).contains(f) {
        file_is_no_dir(ls, f);
    }
}

/// A file's name is not that of a directory.
pub proof fn file_is_no_dir(ls: Seq<LeafView>, e: TreeEntryView)
    requires
        leaves_ok(ls),
        own_files(ls).contains(e),
    ensures
        !dir_names(ls).contains(e.name),
        e.mode != EntryMode::Tree,
{
    own_contains(ls, e);
    let a = choose|l: LeafView| #[trigger]
        ls.contains(l) && !is_deep(l.path) && e == (TreeEntryView {
            mode: l.mode,
            name: l.path,
            id: l.id,
        });
    if dir_names(ls).contains(e.name) {
        dir_names_contains(ls, e.name);
        let b = choose|b: LeafView| #[trigger]
            ls.contains(b) && is_deep(b.path) && first_part(b.path) == e.name;
        deep_path(b.path);
        assert(is_above(a.path, b.path));
    }
}

/// Sorting a directory's entries loses none.
pub proof fn canonical_contains(ls: Seq<LeafView>, e: TreeEntryView)
    requires
        leaves_ok(ls),
    ensures
        canonical(plain_dir(ls)).contains(e) <==> plain_dir(ls).contains(e),
{
    let es = plain_dir(ls);
    law_canonical_first(es, e);
    if es.contains(e) {
        let i = choose|i: int| 0 <= i < es.len() && es[i] == e;
        first_with_name(es, e.name, i);
        let k = choose|k: int|
            0 <= k <= i && (#[trigger] es[k]).name == e.name && !has_name(es.take(k), e.name);
        assert(es.contains(es[k]));
        plain_dir_same(ls, e, es[k]);
    }
}

/// Where there is an entry with a name, there is a first one.
proof fn first_with_name(es: Seq<TreeEntryView>, name: Seq<u8>, i: int)
    requires
        0 <= i < es.len(),
        es[i].name == name,
    ensures
        exists|k: int|
            0 <= k <= i && (#[trigger] es[k]).name == name && !has_name(es.take(k), name),
    decreases i,
{
    if has_name(es.take(i), name) {
        let t = es.take(i);
        let j = choose|j: int| 0 <= j < t.len() && (#[trigger] t[j]).name == name;
        assert(es[j].name == name);
        first_with_name(es, name, j);
        let k = choose|k: int|
            0 <= k <= j && (#[trigger] es[k]).name == name && !has_name(es.take(k), name);
        assert(es[k].name == name);
    } else {
        assert(es[i].name == name);
    }
}

// ---------------------------------------------------------------------
// Walking the tree
// ---------------------------------------------------------------------

/// Whether `m` is `found` with some leaves added.
spec fn adds(
    found: Map<Seq<u8>, Seq<u8>>,
    m: Map<Seq<u8>, Seq<u8>>,
    prefix: Seq<u8>,
    leaves: Set<LeafView>,
) -> bool {
    &&& forall|p: Seq<u8>| #[trigger]
        m.contains_key(p) ==> found.contains_key(p) || is_path_of(leaves, prefix, p)
    &&& forall|l: LeafView| #[trigger]
        leaves.contains(l) ==> m.contains_key(child_path(prefix, l.path)) && m[child_path(
            prefix,
            l.path,
        )] == l.id
    &&& forall|p: Seq<u8>| #[trigger]
        found.contains_key(p) ==> m.contains_key(p) && (m[p] == found[p] || is_path_of(
            leaves,
            prefix,
            p,
        ))
}

/// Whether one of the leaves has the path.
spec fn is_path_of(leaves: Set<LeafView>, prefix: Seq<u8>, p: Seq<u8>) -> bool {
    exists|l: LeafView| #[trigger] leaves.contains(l) && child_path(prefix, l.path) == p
}

/// Paths in one directory differ as they do from there on.
pub proof fn child_path_same(prefix: Seq<u8>, a: Seq<u8>, b: Seq<u8>)
    requires
        child_path(prefix, a) == child_path(prefix, b),
    ensures
        a == b,
{
    if prefix.len() > 0 {
        let k = prefix.len() as int + 1;
        assert(child_path(prefix, a).skip(k) =~= a);
        assert(child_path(prefix, b).skip(k) =~= b);
    }
}

/// Leaves of one list that were added one after the other were added.
proof fn adds_more(
    ls: Seq<LeafView>,
    found: Map<Seq<u8>, Seq<u8>>,
    m1: Map<Seq<u8>, Seq<u8>>,
    m2: Map<Seq<u8>, Seq<u8>>,
    prefix: Seq<u8>,
    first: Set<LeafView>,
    second: Set<LeafView>,
)
    requires
        leaves_ok(ls),
        adds(found, m1, prefix, first),
        adds(m1, m2, prefix, second),
        forall|l: LeafView| #[trigger] first.contains(l) ==> ls.contains(l),
        forall|l: LeafView| #[trigger] second.contains(l) ==> ls.contains(l),
    ensures
        adds(found, m2, prefix, first.union(second)),
{
    let both = first.union(second);
    assert forall|p: Seq<u8>| is_path_of(first, prefix, p) || is_path_of(
        second,
        prefix,
        p,
    ) implies #[trigger] is_path_of(both, prefix, p) by {
        if is_path_of(first, prefix, p) {
            let l = choose|l: LeafView| #[trigger]
                first.contains(l) && child_path(prefix, l.path) == p;
            assert(both.contains(l));
        } else {
            let l = choose|l: LeafView| #[trigger]
                second.contains(l) && child_path(prefix, l.path) == p;
            assert(both.contains(l));
        }
    }
    assert forall|l: LeafView| #[trigger] both.contains(l) implies m2.contains_key(
        child_path(prefix, l.path),
    ) && m2[child_path(prefix, l.path)] == l.id by {
        if !second.contains(l) {
            let p = child_path(prefix, l.path);
            assert(first.contains(l));
            assert(m1.contains_key(p));
            if is_path_of(second, prefix, p) {
                let x = choose|x: LeafView| #[trigger]
                    second.contains(x) && child_path(prefix, x.path) == p;
                child_path_same(prefix, x.path, l.path);
                assert(ls.contains(x) && ls.contains(l));
                assert(x == l);
            }
        }
    }
}

/// Whether an entry of the directory stands for the leaf, or leads to it.
pub open spec fn owns(e: TreeEntryView, l: LeafView) -> bool {
    if e.mode == EntryMode::Tree {
        is_deep(l.path) && first_part(l.path) == e.name
    } else {
        l.path == e.name
    }
}

/// The leaves that the first `n` entries stand for.
pub open spec fn picked(ls: Seq<LeafView>, es: Seq<TreeEntryView>, n: nat) -> Set<LeafView> {
    Set::new(
        |l: LeafView| ls.contains(l) && exists|i: int| 0 <= i < n && owns(#[trigger] es[i], l),
    )
}

/// The leaves of one more entry.
pub proof fn picked_next(ls: Seq<LeafView>, es: Seq<TreeEntryView>, n: nat)
    requires
        0 < n <= es.len(),
    ensures
        picked(ls, es, n) == picked(ls, es, (n - 1) as nat).union(
            Set::new(|l: LeafView| ls.contains(l) && owns(es[n - 1], l)),
        ),
{
    let own = Set::new(|l: LeafView| ls.contains(l) && owns(es[n - 1], l));
    let before = picked(ls, es, (n - 1) as nat);
    assert forall|l: LeafView| picked(ls, es, n).contains(l) implies before.union(own).contains(
        l,
    ) by {
        let i = choose|i: int| 0 <= i < n && owns(#[trigger] es[i], l);
        if i == n - 1 {
            assert(own.contains(l));
        }
    }
    assert forall|l: LeafView| own.contains(l) implies picked(ls, es, n).contains(l) by {
        assert(owns(es[n - 1], l));
    }
    assert(picked(ls, es, n) =~= before.union(own));
}

/// All entries of the directory together stand for all leaves.
pub proof fn all_picked(ls: Seq<LeafView>)
    requires
        leaves_ok(ls),
    ensures
        picked(ls, canonical(plain_dir(ls)), canonical(plain_dir(ls)).len()) == ls.to_set(),
{
    let es = canonical(plain_dir(ls));
    assert forall|l: LeafView| ls.contains(l) implies #[trigger] picked(
        ls,
        es,
        es.len(),
    ).contains(l) by {
        let e = if is_deep(l.path) {
            TreeEntryView {
                mode: EntryMode::Tree,
                name: first_part(l.path),
                id: tree_of(below(ls, first_part(l.path))).id(),
            }
        } else {
            TreeEntryView { mode: l.mode, name: l.path, id: l.id }
        };
        dir_names_contains(ls, first_part(l.path));
        own_contains(ls, e);
        plain_dir_contains(ls, e);
        canonical_contains(ls, e);
        let i = choose|i: int| 0 <= i < es.len() && es[i] == e;
        assert(owns(es[i], l));
    }
    assert(picked(ls, es, es.len()) =~= ls.to_set());
}

/// Leaves added below a subdirectory were added.
proof fn adds_below(
    ls: Seq<LeafView>,
    found: Map<Seq<u8>, Seq<u8>>,
    m: Map<Seq<u8>, Seq<u8>>,
    prefix: Seq<u8>,
    e: TreeEntryView,
)
    requires
        leaves_ok(ls),
        e.mode == EntryMode::Tree,
        e.name.len() > 0,
        adds(found, m, child_path(prefix, e.name), below(ls, e.name).to_set()),
    ensures
        adds(found, m, prefix, Set::new(|l: LeafView| ls.contains(l) && owns(e, l))),
{
    let sub = below(ls, e.name);
    let inner = child_path(prefix, e.name);
    let leaves = Set::new(|l: LeafView| ls.contains(l) && owns(e, l));
    assert forall|l: LeafView| #[trigger] leaves.contains(l) implies sub.to_set().contains(
        shortened(l),
    ) && child_path(inner, shortened(l).path) == child_path(prefix, l.path) by {
        below_contains(ls, e.name, shortened(l));
        deep_path(l.path);
        assert(child_path(inner, shortened(l).path) =~= child_path(prefix, l.path));
    }
    assert forall|p: Seq<u8>| is_path_of(sub.to_set(), inner, p) implies #[trigger] is_path_of(
        leaves,
        prefix,
        p,
    ) by {
        let x = choose|x: LeafView| #[trigger]
            sub.to_set().contains(x) && child_path(inner, x.path) == p;
        below_contains(ls, e.name, x);
        let l = choose|l: LeafView| #[trigger]
            ls.contains(l) && is_deep(l.path) && first_part(l.path) == e.name && shortened(l) == x;
        assert(leaves.contains(l));
    }
    assert forall|l: LeafView| #[trigger] leaves.contains(l) implies m.contains_key(
        child_path(prefix, l.path),
    ) && m[child_path(prefix, l.path)] == l.id by {
        assert(sub.to_set().contains(shortened(l)));
        assert(m.contains_key(child_path(inner, shortened(l).path)));
    }
}

/// The walk over the tree of the leaves adds just them.
proof fn tree_lists(
    s: Store,
    ls: Seq<LeafView>,
    prefix: Seq<u8>,
    fuel: nat,
    found: Map<Seq<u8>, Seq<u8>>,
)
    requires
        leaves_ok(ls),
        holds_trees(s, ls),
    ensures
        match tree_files(s, tree_of(ls).id(), prefix, true, fuel, found) {
            Ok(m) => adds(found, m, prefix, ls.to_set()),
            Err(e) => says_cyclic(Err(e)),
        },
    decreases total_len(ls), 1nat, 0nat,
{
    if fuel > 0 {
        let es = canonical(plain_dir(ls));
        assert(s.object(tree_of(ls).id()) == Ok::<_, OdbErrorView>(ObjectView::Tree(es)));
        entries_list(s, ls, es.len(), prefix, (fuel - 1) as nat, found);
        all_picked(ls);
    }
}

/// The walk over the first entries adds just the leaves they stand for.
proof fn entries_list(
    s: Store,
    ls: Seq<LeafView>,
    n: nat,
    prefix: Seq<u8>,
    fuel: nat,
    found: Map<Seq<u8>, Seq<u8>>,
)
    requires
        leaves_ok(ls),
        holds_trees(s, ls),
        n <= canonical(plain_dir(ls)).len(),
    ensures
        match entries_files(s, canonical(plain_dir(ls)), n, prefix, true, fuel, found) {
            Ok(m) => adds(found, m, prefix, picked(ls, canonical(plain_dir(ls)), n)),
            Err(e) => says_cyclic(Err(e)),
        },
    decreases total_len(ls), 0nat, n,
{
    let es = canonical(plain_dir(ls));
    if n == 0 {
        assert(picked(ls, es, 0) =~= Set::<LeafView>::empty());
    } else {
        entries_list(s, ls, (n - 1) as nat, prefix, fuel, found);
        match entries_files(s, es, (n - 1) as nat, prefix, true, fuel, found) {
            Err(_) => {},
            Ok(m1) => {
                let e = es[n - 1];
                let own = Set::new(|l: LeafView| ls.contains(l) && owns(e, l));
                assert(es.contains(e));
                canonical_contains(ls, e);
                plain_dir_contains(ls, e);
                if e.mode == EntryMode::Tree {
                    if own_files(ls).contains(e) {
                        file_is_no_dir(ls, e);
                    }
                    dir_names_contains(ls, e.name);
                    let b = choose|b: LeafView| #[trigger]
                        ls.contains(b) && is_deep(b.path) && first_part(b.path) == e.name;
                    deep_path(b.path);
                    below_ok(ls, e.name);
                    below_shrinks(ls, e.name);
                    tree_lists(s, below(ls, e.name), child_path(prefix, e.name), fuel, m1);
                    match tree_files(
                        s,
                        e.id,
                        child_path(prefix, e.name),
                        true,
                        fuel,
                        m1,
                    ) {
                        Ok(m2) => {
                            adds_below(ls, m1, m2, prefix, e);
                        },
                        Err(_) => {},
                    }
                } else {
                    file_added(ls, m1, prefix, e);
                }
                match entries_files(s, es, n, prefix, true, fuel, found) {
                    Ok(m2) => {
                        adds_more(
                            ls,
                            found,
                            m1,
                            m2,
                            prefix,
                            picked(ls, es, (n - 1) as nat),
                            own,
                        );
                        picked_next(ls, es, n);
                    },
                    Err(_) => {},
                }
            },
        }
    }
}

/// A file's entry adds the file's leaf.
proof fn file_added(
    ls: Seq<LeafView>,
    found: Map<Seq<u8>, Seq<u8>>,
    prefix: Seq<u8>,
    e: TreeEntryView,
)
    requires
        leaves_ok(ls),
        own_files(ls).contains(e),
    ensures
        adds(
            found,
            found.insert(child_path(prefix, e.name), e.id),
            prefix,
            Set::new(|l: LeafView| ls.contains(l) && owns(e, l)),
        ),
{
    file_is_no_dir(ls, e);
    own_contains(ls, e);
    let a = choose|l: LeafView| #[trigger]
        ls.contains(l) && !is_deep(l.path) && e == (TreeEntryView {
            mode: l.mode,
            name: l.path,
            id: l.id,
        });
    let leaves = Set::new(|l: LeafView| ls.contains(l) && owns(e, l));
    let p = child_path(prefix, e.name);
    assert(leaves.contains(a));
    assert(is_path_of(leaves, prefix, p));
    assert forall|l: LeafView| #[trigger] leaves.contains(l) implies l == a by {
        assert(ls.contains(l) && ls.contains(a));
    }
}

/// Law: where a store has the tree of some leaves with all its subtrees,
/// the files of that tree are just the leaves: each path has the id of its
/// leaf. The walk may only say that objects are cyclic.
pub proof fn law_tree_lists_leaves(s: Store, ls: Seq<LeafView>)
    requires
        leaves_ok(ls),
        holds_trees(s, ls),
    ensures
        match files_of_tree(s, tree_of(ls).id(), true) {
            Ok(m) => {
                &&& forall|p: Seq<u8>| #[trigger]
                    m.contains_key(p) <==> exists|l: LeafView| #[trigger]
                        ls.contains(l) && l.path == p
                &&& forall|l: LeafView| #[trigger] ls.contains(l) ==> m[l.path] == l.id
            },
            Err(e) => says_cyclic(Err(e)),
        },
{
    tree_lists(s, ls, Seq::empty(), object_bound(s), Map::empty());
    match files_of_tree(s, tree_of(ls).id(), true) {
        Ok(m) => {
            let leaves = ls.to_set();
            assert forall|p: Seq<u8>| #[trigger] m.contains_key(p) <==> exists|l: LeafView|
                #[trigger] ls.contains(l) && l.path == p by {
                if m.contains_key(p) {
                    assert(is_path_of(leaves, Seq::empty(), p));
                    let l = choose|l: LeafView| #[trigger]
                        leaves.contains(l) && child_path(Seq::empty(), l.path) == p;
                    assert(ls.contains(l));
                }
                if exists|l: LeafView| #[trigger] ls.contains(l) && l.path == p {
                    let l = choose|l: LeafView| #[trigger] ls.contains(l) && l.path == p;
                    assert(leaves.contains(l));
                }
            }
            assert forall|l: LeafView| #[trigger] ls.contains(l) implies m[l.path] == l.id by {
                assert(leaves.contains(l));
            }
        },
        Err(_) => {},
    }
}

// ---------------------------------------------------------------------
// Storing the tree
// ---------------------------------------------------------------------

/// Whether an object's loose file holds it.
pub open spec fn kept(git: DirView<Seq<u8>>, o: ObjectView) -> bool {
    &&& git.files.contains_key(loose_path(o.id()))
    &&& loose_frame(git, o.id()) == Ok::<_, OdbErrorView>(Some(o.framed()))
}

/// Whether what is stored for an object is the object: its format can carry
/// it, its bytes come out of their compressed form, and no other bytes have
/// the same digest.
pub open spec fn storable(o: ObjectView) -> bool {
    &&& object_ok(o)
    &&& o.payload().len() <= usize::MAX
    &&& o.id().len() == 20
    &&& only_preimage(o.framed())
    &&& zlib_deflated(o.framed()) matches Some(z) ==> zlib_inflated(z) == Some(
        (o.framed(), z.len()),
    )
}

/// Whether that holds of the tree of the leaves and all its subtrees.
pub open spec fn trees_storable(ls: Seq<LeafView>) -> bool
    decreases total_len(ls),
{
    &&& storable(tree_of(ls))
    &&& forall|name: Seq<u8>| #[trigger]
        dir_names(ls).contains(name) ==> total_len(below(ls, name)) < total_len(ls)
            && trees_storable(below(ls, name))
}

/// Whether the tree of the leaves and all its subtrees are stored.
spec fn trees_kept(git: DirView<Seq<u8>>, ls: Seq<LeafView>) -> bool
    decreases total_len(ls),
{
    &&& kept(git, tree_of(ls))
    &&& forall|name: Seq<u8>| #[trigger]
        dir_names(ls).contains(name) ==> total_len(below(ls, name)) < total_len(ls) && trees_kept(
            git,
            below(ls, name),
        )
}

/// Whether what was stored before is stored after.
spec fn keeps(before: DirView<Seq<u8>>, after: DirView<Seq<u8>>) -> bool {
    forall|o: ObjectView| #[trigger]
        kept(before, o) && o.id().len() == 20 ==> kept(after, o)
}

/// An object that was stored is kept, and so is what was there.
proof fn store_keeps(git: DirView<Seq<u8>>, o: ObjectView)
    requires
        storable(o),
        after_store(git, o).1 is None,
    ensures
        kept(after_store(git, o).0, o),
        keeps(git, after_store(git, o).0),
{
    let after = after_store(git, o).0;
    let path = loose_path(o.id());
    frame_extent(o.kind(), o.payload());
    assert forall|x: ObjectView| #[trigger] kept(git, x) && x.id().len() == 20 implies kept(
        after,
        x,
    ) by {
        if !git.exists_at(path) {
            assert(x.id() != o.id());
            other_file_kept(git, o.id(), zlib_deflated(o.framed())->0, x.id());
            assert(after.read(loose_path(x.id())) == git.read(loose_path(x.id())));
            if !after.files.contains_key(loose_path(x.id())) {
                assert(after.read(loose_path(x.id())) is Err);
            }
        }
    }
}

/// Trees that were stored stay stored.
proof fn trees_stay(before: DirView<Seq<u8>>, after: DirView<Seq<u8>>, ls: Seq<LeafView>)
    requires
        keeps(before, after),
        trees_storable(ls),
        trees_kept(before, ls),
    ensures
        trees_kept(after, ls),
    decreases total_len(ls),
{
    assert(kept(before, tree_of(ls)));
    assert forall|name: Seq<u8>| #[trigger] dir_names(ls).contains(name) implies total_len(
        below(ls, name),
    ) < total_len(ls) && trees_kept(after, below(ls, name)) by {
        trees_stay(before, after, below(ls, name));
    }
}

/// Storing the first subdirectories stores their trees.
proof fn subdirs_stored(git: DirView<Seq<u8>>, ls: Seq<LeafView>, n: nat)
    requires
        trees_storable(ls),
        n <= subdirs(ls).len(),
        store_subdirs(git, ls, n).1 is None,
    ensures
        keeps(git, store_subdirs(git, ls, n).0),
        forall|i: int|
            0 <= i < n ==> trees_kept(
                store_subdirs(git, ls, n).0,
                below(ls, #[trigger] subdirs(ls)[i]),
            ),
    decreases total_len(ls), n,
{
    if n > 0 {
        let names = subdirs(ls);
        dir_names_contains(ls, Seq::empty());
        sorted_keys_lists(dir_names(ls));
        let name = names[n - 1];
        assert(names.contains(name));
        assert(dir_names(ls).contains(name));
        let sub = below(ls, name);
        let g1 = store_subdirs(git, ls, (n - 1) as nat).0;
        subdirs_stored(git, ls, (n - 1) as nat);
        tree_stored(g1, sub);
        let g2 = store_subdirs(git, ls, n).0;
        assert(g2 == store_tree(g1, sub).0);
        assert forall|i: int| 0 <= i < n implies trees_kept(
            g2,
            below(ls, #[trigger] names[i]),
        ) by {
            if i < n - 1 {
                assert(names.contains(names[i]));
                assert(dir_names(ls).contains(names[i]));
                trees_stay(g1, g2, below(ls, names[i]));
            }
        }
    }
}

/// Storing a tree stores it with all its subtrees.
proof fn tree_stored(git: DirView<Seq<u8>>, ls: Seq<LeafView>)
    requires
        trees_storable(ls),
        store_tree(git, ls).1 is None,
    ensures
        keeps(git, store_tree(git, ls).0),
        trees_kept(store_tree(git, ls).0, ls),
    decreases total_len(ls), subdirs(ls).len() + 1,
{
    let names = subdirs(ls);
    let g1 = store_subdirs(git, ls, names.len()).0;
    subdirs_stored(git, ls, names.len());
    store_keeps(g1, tree_of(ls));
    let g2 = store_tree(git, ls).0;
    dir_names_contains(ls, Seq::empty());
    sorted_keys_lists(dir_names(ls));
    assert forall|name: Seq<u8>| #[trigger] dir_names(ls).contains(name) implies total_len(
        below(ls, name),
    ) < total_len(ls) && trees_kept(g2, below(ls, name)) by {
        let i = choose|i: int| 0 <= i < names.len() && names[i] == name;
        assert(trees_kept(g1, below(ls, names[i])));
        trees_stay(g1, g2, below(ls, name));
    }
}

/// What is kept can be read.
proof fn kept_holds(s: Store, ls: Seq<LeafView>)
    requires
        trees_storable(ls),
        trees_kept(s.git, ls),
    ensures
        holds_trees(s, ls),
    decreases total_len(ls),
{
    law_object_round_trip(tree_of(ls));
    assert forall|name: Seq<u8>| #[trigger] dir_names(ls).contains(name) implies total_len(
        below(ls, name),
    ) < total_len(ls) && holds_trees(s, below(ls, name)) by {
        kept_holds(s, below(ls, name));
    }
}

/// Law: after the tree of some leaves was stored, it can be read with all
/// its subtrees.
pub proof fn law_store_tree_then_read(
    git: DirView<Seq<u8>>,
    packs: Seq<PackView>,
    ls: Seq<LeafView>,
)
    requires
        trees_storable(ls),
        store_tree(git, ls).1 is None,
    ensures
        holds_trees((Store { git: store_tree(git, ls).0, packs }), ls),
{
    tree_stored(git, ls);
    kept_holds(Store { git: store_tree(git, ls).0, packs }, ls);
}

} // verus!
