//! The files of a stored tree, and the tree that they make again.

use vstd::prelude::*;

use super::checkout::checkout_outcome;
use super::listing::{
    below_contains, canonical_contains, dir_names_contains, holds_trees, leaves_ok, own_contains,
    path_ok, plain_dir, plain_dir_contains, shortened,
};
use super::rebuild::{
    dir_sorted, law_leaf_order, leaves_checked_out, no_submodules, same_below, same_leaves,
    same_sorted, sorted_strictly,
};
use super::staging::{
    below, below_shrinks, dir_names, first_part, index_leaves, is_deep, own_files, store_subdirs,
    store_tree, subdirs, total_len, tree_of, LeafView,
};
use crate::bytemap::sorted_keys_lists;
use crate::bytes::{upto, upto_is, upto_spec, SLASH};
use crate::dir::{is_above, DirView};
use crate::index::Time;
use crate::object::laws::{canonical_object, law_parsed_entries};
use crate::object::tree::{
    canonical, entries_ok, entry_ok, law_canonical_names, law_canonical_sorted, law_tree_stable,
    names_unique,
};
use crate::object::{
    object_id, payload_object, EntryMode, ObjectKind, ObjectView, ParseErrorView, TreeEntryView,
};
use crate::codec::{zlib_deflated, zlib_inflated};
use crate::files::IoError;
use crate::odb::laws::{law_read_has_id, other_file_kept};
use crate::odb::{after_store, loose_frame, loose_path, store_fault, OdbErrorView, RepoView, Store};

verus! {

// ---------------------------------------------------------------------
// The leaves of a stored tree
// ---------------------------------------------------------------------

/// Leaves seen from the directory above theirs.
pub open spec fn inside(name: Seq<u8>, ls: Seq<LeafView>) -> Seq<LeafView> {
    ls.map_values(
        |l: LeafView|
            LeafView { path: name + seq![SLASH] + l.path, mode: l.mode, id: l.id },
    )
}

/// The leaves of a stored tree, down through `depth` levels.
pub open spec fn tree_leaves(s: Store, id: Seq<u8>, depth: nat) -> Seq<LeafView>
    decreases depth, 0nat,
{
    if depth == 0 {
        Seq::empty()
    } else {
        match s.object(id) {
            Ok(ObjectView::Tree(es)) => entries_leaves(s, es, es.len(), (depth - 1) as nat),
            _ => Seq::empty(),
        }
    }
}

/// The leaves of the first `n` entries.
pub open spec fn entries_leaves(
    s: Store,
    es: Seq<TreeEntryView>,
    n: nat,
    depth: nat,
) -> Seq<LeafView>
    decreases depth, n + 1,
{
    if n == 0 {
        Seq::empty()
    } else {
        let e = es[n - 1];
        entries_leaves(s, es, (n - 1) as nat, depth) + if e.mode == EntryMode::Tree {
            inside(e.name, tree_leaves(s, e.id, depth))
        } else {
            seq![LeafView { path: e.name, mode: e.mode, id: e.id }]
        }
    }
}

/// Whether a leaf is one of those that an entry stands for.
spec fn gives(s: Store, e: TreeEntryView, depth: nat, l: LeafView) -> bool {
    if e.mode == EntryMode::Tree {
        &&& is_deep(l.path)
        &&& first_part(l.path) == e.name
        &&& tree_leaves(s, e.id, depth).contains(shortened(l))
    } else {
        l == (LeafView { path: e.name, mode: e.mode, id: e.id })
    }
}

/// Whether one of the first `n` entries stands for a leaf.
spec fn given(s: Store, es: Seq<TreeEntryView>, n: nat, depth: nat, l: LeafView) -> bool {
    exists|i: int| 0 <= i < n && gives(s, #[trigger] es[i], depth, l)
}

/// The leaves that an entry stands for.
proof fn inside_contains(s: Store, e: TreeEntryView, depth: nat, l: LeafView)
    requires
        entry_ok(e),
        e.mode == EntryMode::Tree,
    ensures
        inside(e.name, tree_leaves(s, e.id, depth)).contains(l) <==> gives(s, e, depth, l),
{
    let sub = tree_leaves(s, e.id, depth);
    let all = inside(e.name, sub);
    if all.contains(l) {
        let i = choose|i: int| 0 <= i < all.len() && all[i] == l;
        let x = sub[i];
        assert(sub.contains(x));
        assert(l.path == e.name + seq![SLASH] + x.path);
        let k = e.name.len() as int;
        assert forall|j: int| 0 <= j < k implies l.path[j] != SLASH by {
            assert(l.path[j] == e.name[j]);
            assert(e.name.contains(e.name[j]));
        }
        upto_is(l.path, SLASH, k);
        assert(first_part(l.path) =~= e.name);
        assert(l.path.skip(k + 1) =~= x.path);
        assert(shortened(l) == x);
    }
    if gives(s, e, depth, l) {
        upto_spec(l.path, SLASH);
        let x = shortened(l);
        let i = choose|i: int| 0 <= i < sub.len() && sub[i] == x;
        assert(l.path =~= first_part(l.path) + seq![SLASH] + x.path);
        assert(all[i].path =~= l.path);
        assert(all[i] == l);
    }
}

/// The leaves of entries are those that an entry stands for.
proof fn leaves_given(s: Store, es: Seq<TreeEntryView>, n: nat, depth: nat, l: LeafView)
    requires
        entries_ok(es),
        n <= es.len(),
    ensures
        entries_leaves(s, es, n, depth).contains(l) <==> given(s, es, n, depth, l),
    decreases n,
{
    if n > 0 {
        let m = (n - 1) as nat;
        leaves_given(s, es, m, depth, l);
        let e = es[n - 1];
        assert(entry_ok(e));
        let done = entries_leaves(s, es, m, depth);
        let more = if e.mode == EntryMode::Tree {
            inside(e.name, tree_leaves(s, e.id, depth))
        } else {
            seq![LeafView { path: e.name, mode: e.mode, id: e.id }]
        };
        let all = done + more;
        assert(more.contains(l) <==> gives(s, e, depth, l)) by {
            if e.mode == EntryMode::Tree {
                inside_contains(s, e, depth, l);
            } else {
                assert(more[0] == (LeafView { path: e.name, mode: e.mode, id: e.id }));
            }
        }
        if done.contains(l) {
            let i = choose|i: int| 0 <= i < done.len() && done[i] == l;
            assert(all[i] == l);
            let k = choose|k: int| 0 <= k < m && gives(s, #[trigger] es[k], depth, l);
            assert(gives(s, es[k], depth, l));
        }
        if more.contains(l) {
            let i = choose|i: int| 0 <= i < more.len() && more[i] == l;
            assert(all[done.len() + i] == l);
            assert(gives(s, es[n - 1], depth, l));
        }
        if all.contains(l) {
            let i = choose|i: int| 0 <= i < all.len() && all[i] == l;
            if i < done.len() {
                assert(done[i] == l);
            } else {
                assert(more[i - done.len()] == l);
            }
        }
        if given(s, es, n, depth, l) {
            let k = choose|k: int| 0 <= k < n && gives(s, #[trigger] es[k], depth, l);
            if k < m {
                assert(given(s, es, m, depth, l));
            }
        }
    }
}

/// A leaf's first part is the name of the entry that stands for it, and the
/// leaf lies deeper just where the entry is a tree.
proof fn gives_name(s: Store, e: TreeEntryView, depth: nat, l: LeafView)
    requires
        entry_ok(e),
        gives(s, e, depth, l),
    ensures
        first_part(l.path) == e.name,
        is_deep(l.path) <==> e.mode == EntryMode::Tree,
        upto(l.path, SLASH) == e.name.len(),
{
    if e.mode != EntryMode::Tree {
        let k = e.name.len() as int;
        assert forall|j: int| 0 <= j < k implies e.name[j] != SLASH by {
            assert(e.name.contains(e.name[j]));
        }
        upto_is(e.name, SLASH, k);
        assert(e.name.take(k) =~= e.name);
    } else {
        upto_spec(l.path, SLASH);
    }
}

/// Two leaves with the same first part stand for the same entry.
proof fn same_entry(
    s: Store,
    es: Seq<TreeEntryView>,
    depth: nat,
    a: LeafView,
    b: LeafView,
    i: int,
    j: int,
)
    requires
        entries_ok(es),
        names_unique(es),
        0 <= i < es.len(),
        0 <= j < es.len(),
        gives(s, es[i], depth, a),
        gives(s, es[j], depth, b),
        first_part(a.path) == first_part(b.path),
    ensures
        i == j,
{
    assert(entry_ok(es[i]) && entry_ok(es[j]));
    gives_name(s, es[i], depth, a);
    gives_name(s, es[j], depth, b);
    if i < j {
        assert(es[i].name != es[j].name);
    } else if j < i {
        assert(es[j].name != es[i].name);
    }
}

/// Whether the leaves of all subtrees are fit for a tree.
spec fn subtrees_ok(s: Store, es: Seq<TreeEntryView>, depth: nat) -> bool {
    forall|i: int|
        0 <= i < es.len() && (#[trigger] es[i]).mode == EntryMode::Tree ==> leaves_ok(
            tree_leaves(s, es[i].id, depth),
        )
}

/// The leaves of a tree with distinct names are fit for a tree.
proof fn leaves_fit(s: Store, es: Seq<TreeEntryView>, depth: nat)
    requires
        entries_ok(es),
        names_unique(es),
        subtrees_ok(s, es, depth),
    ensures
        leaves_ok(entries_leaves(s, es, es.len(), depth)),
{
    let n = es.len();
    let ls = entries_leaves(s, es, n, depth);
    assert forall|l: LeafView| #[trigger] ls.contains(l) implies path_ok(l.path) && l.mode
        != EntryMode::Tree by {
        leaves_given(s, es, n, depth, l);
        let i = choose|i: int| 0 <= i < n && gives(s, #[trigger] es[i], depth, l);
        let e = es[i];
        assert(entry_ok(e));
        gives_name(s, e, depth, l);
        if e.mode == EntryMode::Tree {
            let sub = tree_leaves(s, e.id, depth);
            assert(leaves_ok(sub));
            assert(sub.contains(shortened(l)));
        }
    }
    assert forall|a: LeafView, b: LeafView|
        #![trigger ls.contains(a), ls.contains(b)]
        ls.contains(a) && ls.contains(b) implies (a.path == b.path ==> a == b) && !is_above(
        a.path,
        b.path,
    ) by {
        leaves_given(s, es, n, depth, a);
        leaves_given(s, es, n, depth, b);
        let i = choose|i: int| 0 <= i < n && gives(s, #[trigger] es[i], depth, a);
        let j = choose|j: int| 0 <= j < n && gives(s, #[trigger] es[j], depth, b);
        leaves_apart(s, es, depth, a, b, i, j);
    }
}

/// Two leaves of a tree do not stand in each other's way.
proof fn leaves_apart(
    s: Store,
    es: Seq<TreeEntryView>,
    depth: nat,
    a: LeafView,
    b: LeafView,
    i: int,
    j: int,
)
    requires
        entries_ok(es),
        names_unique(es),
        subtrees_ok(s, es, depth),
        0 <= i < es.len(),
        0 <= j < es.len(),
        gives(s, es[i], depth, a),
        gives(s, es[j], depth, b),
    ensures
        a.path == b.path ==> a == b,
        !is_above(a.path, b.path),
{
    let e = es[i];
    assert(entry_ok(e) && entry_ok(es[j]));
    gives_name(s, e, depth, a);
    gives_name(s, es[j], depth, b);
    let sub = tree_leaves(s, e.id, depth);
    if a.path == b.path {
        same_entry(s, es, depth, a, b, i, j);
        if e.mode == EntryMode::Tree {
            assert(leaves_ok(sub));
            assert(sub.contains(shortened(a)) && sub.contains(shortened(b)));
        }
    }
    if is_above(a.path, b.path) {
        let k = e.name.len() as int;
        let m = a.path.len() as int;
        upto_spec(a.path, SLASH);
        assert forall|x: int| 0 <= x < k implies b.path[x] != SLASH by {
            assert(a.path[x] == b.path.take(m)[x]);
        }
        assert(b.path[k] == SLASH) by {
            if k < m {
                assert(a.path[k] == b.path.take(m)[k]);
            }
        }
        upto_is(b.path, SLASH, k);
        assert(first_part(a.path) =~= first_part(b.path)) by {
            assert(a.path.take(k) =~= b.path.take(k));
        }
        same_entry(s, es, depth, a, b, i, j);
        assert(is_deep(b.path));
        assert(e.mode == EntryMode::Tree);
        let (x, y) = (shortened(a), shortened(b));
        assert(leaves_ok(sub));
        assert(sub.contains(x) && sub.contains(y));
        assert(path_ok(x.path));
        assert(x.path =~= y.path.take(x.path.len() as int));
        assert(is_above(x.path, y.path));
    }
}

/// The leaves below a subtree's name are the subtree's leaves.
proof fn below_subtree(s: Store, es: Seq<TreeEntryView>, depth: nat, i: int)
    requires
        entries_ok(es),
        names_unique(es),
        0 <= i < es.len(),
        es[i].mode == EntryMode::Tree,
    ensures
        same_leaves(
            tree_leaves(s, es[i].id, depth),
            below(entries_leaves(s, es, es.len(), depth), es[i].name),
        ),
{
    let n = es.len();
    let e = es[i];
    assert(entry_ok(e));
    let ls = entries_leaves(s, es, n, depth);
    let sub = tree_leaves(s, e.id, depth);
    assert forall|x: LeafView| #[trigger] sub.contains(x) <==> below(ls, e.name).contains(x) by {
        below_contains(ls, e.name, x);
        if sub.contains(x) {
            let l = LeafView { path: e.name + seq![SLASH] + x.path, mode: x.mode, id: x.id };
            let all = inside(e.name, sub);
            let k = choose|k: int| 0 <= k < sub.len() && sub[k] == x;
            assert(all[k] == l);
            inside_contains(s, e, depth, l);
            assert(gives(s, es[i], depth, l));
            leaves_given(s, es, n, depth, l);
            let m = e.name.len() as int;
            gives_name(s, e, depth, l);
            assert(l.path.skip(m + 1) =~= x.path);
            assert(shortened(l) == x);
            assert(ls.contains(l));
        }
        if below(ls, e.name).contains(x) {
            let l = choose|l: LeafView| #[trigger]
                ls.contains(l) && is_deep(l.path) && first_part(l.path) == e.name && shortened(l)
                    == x;
            leaves_given(s, es, n, depth, l);
            let j = choose|j: int| 0 <= j < n && gives(s, #[trigger] es[j], depth, l);
            assert(entry_ok(es[j]));
            gives_name(s, es[j], depth, l);
            if i < j {
                assert(es[i].name != es[j].name);
            } else if j < i {
                assert(es[j].name != es[i].name);
            }
        }
    }
}

// ---------------------------------------------------------------------
// Trees that the index can build
// ---------------------------------------------------------------------

/// Whether the store has an empty tree under the id.
pub open spec fn is_empty_tree(s: Store, id: Seq<u8>) -> bool {
    s.object(id) matches Ok(ObjectView::Tree(es)) && es.len() == 0
}

/// Whether the store has a tree, at most `depth` levels deep, that an index
/// can stand for: it is stored under the id of its canonical bytes, with its
/// entries in canonical order, and has neither submodules nor empty subtrees;
/// and so has every tree below it.
pub open spec fn is_plain_tree(s: Store, id: Seq<u8>, depth: nat) -> bool
    decreases depth,
{
    &&& depth > 0
    &&& s.object(id) matches Ok(ObjectView::Tree(es)) && {
        &&& ObjectView::Tree(es).id() == id
        &&& canonical(es) == es
        &&& forall|i: int| #![trigger es[i]]
            0 <= i < es.len() ==> es[i].mode != EntryMode::Gitlink && (es[i].mode
                == EntryMode::Tree ==> is_plain_tree(s, es[i].id, (depth - 1) as nat)
                && !is_empty_tree(s, es[i].id))
    }
}

/// The entries of a tree that was read can be carried by a tree.
pub proof fn read_entries_ok(s: Store, id: Seq<u8>, es: Seq<TreeEntryView>)
    requires
        s.object(id) == Ok::<_, OdbErrorView>(ObjectView::Tree(es)),
    ensures
        entries_ok(es),
{
    law_read_has_id(s, id);
    let (kind, payload) = choose|kind: ObjectKind, payload: Seq<u8>| #[trigger]
        object_id(kind, payload) == id && payload_object(kind, payload) == Ok::<
            _,
            ParseErrorView,
        >(s.object(id)->Ok_0);
    match kind {
        ObjectKind::Tree => law_parsed_entries(payload),
        _ => {},
    }
}

/// A store that has the trees of some leaves has those of the same leaves in
/// another order.
proof fn holds_same(s: Store, a: Seq<LeafView>, b: Seq<LeafView>)
    requires
        leaves_ok(a),
        same_leaves(a, b),
        holds_trees(s, a),
    ensures
        holds_trees(s, b),
    decreases total_len(a),
{
    law_leaf_order(a, b);
    assert(canonical_object(tree_of(a)) == canonical_object(tree_of(b)));
    assert forall|name: Seq<u8>| #[trigger] dir_names(b).contains(name) implies total_len(
        below(b, name),
    ) < total_len(b) && holds_trees(s, below(b, name)) by {
        same_below(a, b, name);
        below_shrinks(a, name);
        below_shrinks(b, name);
        super::listing::below_ok(a, name);
        holds_same(s, below(a, name), below(b, name));
    }
}

/// What the leaves of a stored tree are: they make the tree again.
spec fn leaves_make(s: Store, id: Seq<u8>, ls: Seq<LeafView>) -> bool {
    &&& leaves_ok(ls)
    &&& no_submodules(ls)
    &&& holds_trees(s, ls)
    &&& tree_of(ls).id() == id
    &&& ls.len() == 0 ==> is_empty_tree(s, id)
}

/// Whether that holds of all subtrees.
spec fn subtrees_made(s: Store, es: Seq<TreeEntryView>, depth: nat) -> bool {
    forall|i: int|
        0 <= i < es.len() && (#[trigger] es[i]).mode == EntryMode::Tree ==> leaves_make(
            s,
            es[i].id,
            tree_leaves(s, es[i].id, depth),
        ) && tree_leaves(s, es[i].id, depth).len() > 0
}

/// The directories that the leaves of entries lead into are the subtrees.
proof fn dirs_are_subtrees(s: Store, es: Seq<TreeEntryView>, depth: nat, name: Seq<u8>) -> (i: int)
    requires
        entries_ok(es),
        dir_names(entries_leaves(s, es, es.len(), depth)).contains(name),
    ensures
        0 <= i < es.len(),
        es[i].name == name,
        es[i].mode == EntryMode::Tree,
{
    let ls = entries_leaves(s, es, es.len(), depth);
    dir_names_contains(ls, name);
    let l = choose|l: LeafView| #[trigger]
        ls.contains(l) && is_deep(l.path) && first_part(l.path) == name;
    leaves_given(s, es, es.len(), depth, l);
    let i = choose|i: int| 0 <= i < es.len() && gives(s, #[trigger] es[i], depth, l);
    assert(entry_ok(es[i]));
    gives_name(s, es[i], depth, l);
    i
}

/// A subtree with leaves is a directory that the leaves lead into.
proof fn subtree_is_dir(s: Store, es: Seq<TreeEntryView>, depth: nat, i: int)
    requires
        entries_ok(es),
        names_unique(es),
        0 <= i < es.len(),
        es[i].mode == EntryMode::Tree,
        tree_leaves(s, es[i].id, depth).len() > 0,
    ensures
        dir_names(entries_leaves(s, es, es.len(), depth)).contains(es[i].name),
{
    let ls = entries_leaves(s, es, es.len(), depth);
    let name = es[i].name;
    let x = tree_leaves(s, es[i].id, depth)[0];
    assert(tree_leaves(s, es[i].id, depth).contains(x));
    below_subtree(s, es, depth, i);
    assert(below(ls, name).contains(x));
    below_contains(ls, name, x);
    let l = choose|l: LeafView| #[trigger]
        ls.contains(l) && is_deep(l.path) && first_part(l.path) == name && shortened(l) == x;
    dir_names_contains(ls, name);
    assert(ls.contains(l));
}

/// The tree of a subtree's leaves is the subtree.
proof fn subtree_made(s: Store, es: Seq<TreeEntryView>, depth: nat, i: int)
    requires
        entries_ok(es),
        names_unique(es),
        subtrees_made(s, es, depth),
        0 <= i < es.len(),
        es[i].mode == EntryMode::Tree,
    ensures
        tree_of(below(entries_leaves(s, es, es.len(), depth), es[i].name)).id() == es[i].id,
        holds_trees(s, below(entries_leaves(s, es, es.len(), depth), es[i].name)),
{
    let sub = tree_leaves(s, es[i].id, depth);
    let found = below(entries_leaves(s, es, es.len(), depth), es[i].name);
    assert(leaves_make(s, es[i].id, sub));
    below_subtree(s, es, depth, i);
    law_leaf_order(sub, found);
    holds_same(s, sub, found);
}

/// The entries that the leaves of a tree make are the tree's.
proof fn entries_made(s: Store, es: Seq<TreeEntryView>, depth: nat)
    requires
        entries_ok(es),
        canonical(es) == es,
        subtrees_made(s, es, depth),
        leaves_ok(entries_leaves(s, es, es.len(), depth)),
    ensures
        canonical(plain_dir(entries_leaves(s, es, es.len(), depth))) == es,
{
    let ls = entries_leaves(s, es, es.len(), depth);
    let made = canonical(plain_dir(ls));
    law_canonical_names(es);
    law_canonical_sorted(es);
    assert forall|i: int| 0 <= i < es.len() implies !(#[trigger] es[i]).name.contains(SLASH) by {
        assert(entry_ok(es[i]));
    }
    sorted_strictly(es);
    dir_sorted(ls);
    assert forall|e: TreeEntryView| #[trigger] made.contains(e) <==> es.contains(e) by {
        canonical_contains(ls, e);
        plain_dir_contains(ls, e);
        own_contains(ls, e);
        if made.contains(e) {
            if own_files(ls).contains(e) {
                let l = choose|l: LeafView| #[trigger]
                    ls.contains(l) && !is_deep(l.path) && e == (TreeEntryView {
                        mode: l.mode,
                        name: l.path,
                        id: l.id,
                    });
                leaves_given(s, es, es.len(), depth, l);
                let i = choose|i: int| 0 <= i < es.len() && gives(s, #[trigger] es[i], depth, l);
                assert(es[i] == e);
            } else {
                let i = dirs_are_subtrees(s, es, depth, e.name);
                subtree_made(s, es, depth, i);
                assert(es[i] == e);
            }
        }
        if es.contains(e) {
            let i = choose|i: int| 0 <= i < es.len() && es[i] == e;
            assert(es[i].name == e.name);
            if e.mode == EntryMode::Tree {
                assert(leaves_make(s, es[i].id, tree_leaves(s, es[i].id, depth)));
                subtree_is_dir(s, es, depth, i);
                subtree_made(s, es, depth, i);
            } else {
                let l = LeafView { path: e.name, mode: e.mode, id: e.id };
                assert(gives(s, es[i], depth, l));
                leaves_given(s, es, es.len(), depth, l);
                assert(entry_ok(es[i]));
                gives_name(s, es[i], depth, l);
                assert(ls.contains(l));
            }
        }
    }
    same_sorted(made, es);
}

/// The leaves of a stored tree make the tree again.
proof fn tree_made(s: Store, id: Seq<u8>, depth: nat)
    requires
        is_plain_tree(s, id, depth),
    ensures
        leaves_make(s, id, tree_leaves(s, id, depth)),
    decreases depth,
{
    let es = s.object(id)->Ok_0->Tree_0;
    assert(s.object(id) == Ok::<_, OdbErrorView>(ObjectView::Tree(es)));
    let d = (depth - 1) as nat;
    let ls = tree_leaves(s, id, depth);
    assert(ls == entries_leaves(s, es, es.len(), d));
    read_entries_ok(s, id, es);
    law_canonical_names(es);
    assert forall|i: int|
        0 <= i < es.len() && (#[trigger] es[i]).mode == EntryMode::Tree implies leaves_make(
        s,
        es[i].id,
        tree_leaves(s, es[i].id, d),
    ) && tree_leaves(s, es[i].id, d).len() > 0 by {
        tree_made(s, es[i].id, d);
    }
    assert(subtrees_ok(s, es, d)) by {
        assert forall|i: int|
            0 <= i < es.len() && (#[trigger] es[i]).mode == EntryMode::Tree implies leaves_ok(
            tree_leaves(s, es[i].id, d),
        ) by {
            assert(leaves_make(s, es[i].id, tree_leaves(s, es[i].id, d)));
        }
    }
    leaves_fit(s, es, d);
    entries_made(s, es, d);
    assert(no_submodules(ls)) by {
        assert forall|l: LeafView| #[trigger] ls.contains(l) implies l.mode
            != EntryMode::Gitlink by {
            leaves_given(s, es, es.len(), d, l);
            let i = choose|i: int| 0 <= i < es.len() && gives(s, #[trigger] es[i], d, l);
            if es[i].mode == EntryMode::Tree {
                assert(leaves_make(s, es[i].id, tree_leaves(s, es[i].id, d)));
                assert(tree_leaves(s, es[i].id, d).contains(shortened(l)));
            }
        }
    }
    assert(tree_of(ls).id() == id) by {
        law_tree_stable(plain_dir(ls));
        assert(tree_of(ls) == ObjectView::Tree(plain_dir(ls)));
    }
    assert(holds_trees(s, ls)) by {
        assert(canonical_object(tree_of(ls)) == ObjectView::Tree(es));
        assert forall|name: Seq<u8>| #[trigger] dir_names(ls).contains(name) implies total_len(
            below(ls, name),
        ) < total_len(ls) && holds_trees(s, below(ls, name)) by {
            let i = dirs_are_subtrees(s, es, d, name);
            subtree_made(s, es, d, i);
            below_shrinks(ls, name);
        }
    }
    if es.len() > 0 {
        let e = es[0];
        assert(entry_ok(es[0]));
        if e.mode == EntryMode::Tree {
            subtree_is_dir(s, es, d, 0);
            dir_names_contains(ls, e.name);
            let l = choose|l: LeafView| #[trigger]
                ls.contains(l) && is_deep(l.path) && first_part(l.path) == e.name;
            assert(ls.contains(l));
        } else {
            let l = LeafView { path: e.name, mode: e.mode, id: e.id };
            assert(gives(s, es[0], d, l));
            leaves_given(s, es, es.len(), d, l);
            assert(ls.contains(l));
        }
    }
}

// ---------------------------------------------------------------------
// Storing what is stored
// ---------------------------------------------------------------------

/// Whether a tree and every tree below it, down through `depth` levels, has
/// a loose file that can be read.
pub open spec fn trees_loose(git: DirView<Seq<u8>>, s: Store, id: Seq<u8>, depth: nat) -> bool
    decreases depth,
{
    &&& loose_frame(git, id) matches Ok(Some(_))
    &&& s.object(id) matches Ok(ObjectView::Tree(es)) ==> forall|i: int| #![trigger es[i]]
        0 <= i < es.len() && es[i].mode == EntryMode::Tree && depth > 0 ==> trees_loose(
            git,
            s,
            es[i].id,
            (depth - 1) as nat,
        )
}

/// Whether the trees of some leaves have loose files that can be read.
spec fn leaves_loose(git: DirView<Seq<u8>>, ls: Seq<LeafView>) -> bool
    decreases total_len(ls),
{
    &&& loose_frame(git, tree_of(ls).id()) matches Ok(Some(_))
    &&& forall|name: Seq<u8>| #[trigger]
        dir_names(ls).contains(name) ==> total_len(below(ls, name)) < total_len(ls)
            && leaves_loose(git, below(ls, name))
}

/// The order of the leaves makes no difference.
proof fn loose_same(git: DirView<Seq<u8>>, a: Seq<LeafView>, b: Seq<LeafView>)
    requires
        leaves_ok(a),
        same_leaves(a, b),
        leaves_loose(git, a),
    ensures
        leaves_loose(git, b),
    decreases total_len(a),
{
    law_leaf_order(a, b);
    assert forall|name: Seq<u8>| #[trigger] dir_names(b).contains(name) implies total_len(
        below(b, name),
    ) < total_len(b) && leaves_loose(git, below(b, name)) by {
        same_below(a, b, name);
        below_shrinks(a, name);
        below_shrinks(b, name);
        super::listing::below_ok(a, name);
        loose_same(git, below(a, name), below(b, name));
    }
}

/// The trees of a stored tree's leaves are the stored ones.
proof fn tree_loose(git: DirView<Seq<u8>>, s: Store, id: Seq<u8>, depth: nat)
    requires
        is_plain_tree(s, id, depth),
        trees_loose(git, s, id, depth),
    ensures
        leaves_loose(git, tree_leaves(s, id, depth)),
    decreases depth,
{
    let es = s.object(id)->Ok_0->Tree_0;
    assert(s.object(id) == Ok::<_, OdbErrorView>(ObjectView::Tree(es)));
    let d = (depth - 1) as nat;
    let ls = tree_leaves(s, id, depth);
    assert(ls == entries_leaves(s, es, es.len(), d));
    read_entries_ok(s, id, es);
    law_canonical_names(es);
    tree_made(s, id, depth);
    assert forall|name: Seq<u8>| #[trigger] dir_names(ls).contains(name) implies total_len(
        below(ls, name),
    ) < total_len(ls) && leaves_loose(git, below(ls, name)) by {
        let i = dirs_are_subtrees(s, es, d, name);
        below_shrinks(ls, name);
        tree_loose(git, s, es[i].id, d);
        tree_made(s, es[i].id, d);
        below_subtree(s, es, d, i);
        loose_same(git, tree_leaves(s, es[i].id, d), below(ls, name));
    }
}

/// Storing a tree whose loose file can be read does nothing.
proof fn store_again(git: DirView<Seq<u8>>, o: ObjectView)
    requires
        loose_frame(git, o.id()) matches Ok(Some(_)),
    ensures
        after_store(git, o) == (git, None::<OdbErrorView>),
{
}

/// Nor does storing trees whose loose files can be read.
proof fn store_leaves_again(git: DirView<Seq<u8>>, ls: Seq<LeafView>, n: nat)
    requires
        leaves_loose(git, ls),
        n <= subdirs(ls).len(),
    ensures
        store_subdirs(git, ls, n) == (git, None::<OdbErrorView>),
    decreases total_len(ls), n,
{
    if n > 0 {
        store_leaves_again(git, ls, (n - 1) as nat);
        let names = subdirs(ls);
        dir_names_contains(ls, Seq::empty());
        sorted_keys_lists(dir_names(ls));
        let name = names[n - 1];
        assert(names.contains(name));
        assert(dir_names(ls).contains(name));
        let sub = below(ls, name);
        store_leaves_again(git, sub, subdirs(sub).len());
        store_again(git, tree_of(sub));
    }
}

// ---------------------------------------------------------------------
// Storing what is not there
// ---------------------------------------------------------------------

/// Whether an object can be stored, and still after it was stored: nothing
/// keeps it from being stored, and if its loose file is not there, its frame
/// comes out of its compressed form again, as it does out of every stream that
/// the encoder makes.
pub open spec fn can_store(git: DirView<Seq<u8>>, o: ObjectView) -> bool {
    &&& store_fault(git, o) is None
    &&& git.exists_at(loose_path(o.id())) || (zlib_inflated(
        zlib_deflated(o.framed())->0,
    ) matches Some((f, _)) && f == o.framed())
}

/// Law: an object whose loose file is not there can be stored where its frame
/// can be compressed, and comes out again, and its path is free to be written.
pub proof fn law_can_store(git: DirView<Seq<u8>>, o: ObjectView)
    requires
        !git.exists_at(loose_path(o.id())),
        git.write_fault(loose_path(o.id())) is None,
        zlib_deflated(o.framed()) matches Some(z) && zlib_inflated(z) == Some(
            (o.framed(), z.len()),
        ),
    ensures
        can_store(git, o),
{
}

/// Whether a tree and every tree below it, down through `depth` levels, can
/// be stored.
pub open spec fn trees_can_store(
    git: DirView<Seq<u8>>,
    s: Store,
    id: Seq<u8>,
    depth: nat,
) -> bool
    decreases depth,
{
    s.object(id) matches Ok(ObjectView::Tree(es)) ==> {
        &&& can_store(git, ObjectView::Tree(es))
        &&& forall|i: int| #![trigger es[i]]
            0 <= i < es.len() && es[i].mode == EntryMode::Tree && depth > 0 ==> trees_can_store(
                git,
                s,
                es[i].id,
                (depth - 1) as nat,
            )
    }
}

/// Whether the trees of some leaves can be stored.
spec fn leaves_can_store(git: DirView<Seq<u8>>, ls: Seq<LeafView>) -> bool
    decreases total_len(ls),
{
    &&& can_store(git, tree_of(ls))
    &&& tree_of(ls).id().len() == 20
    &&& forall|name: Seq<u8>| #[trigger]
        dir_names(ls).contains(name) ==> total_len(below(ls, name)) < total_len(ls)
            && leaves_can_store(git, below(ls, name))
}

/// Whether what can be stored in one can be stored in the other.
spec fn lets_store(a: DirView<Seq<u8>>, b: DirView<Seq<u8>>) -> bool {
    forall|o: ObjectView| #[trigger]
        can_store(a, o) && o.id().len() == 20 ==> can_store(b, o)
}

/// Storing an object keeps none from being stored.
proof fn store_lets_store(git: DirView<Seq<u8>>, o: ObjectView)
    requires
        can_store(git, o),
        o.id().len() == 20,
    ensures
        after_store(git, o).1 is None,
        lets_store(git, after_store(git, o).0),
{
    let path = loose_path(o.id());
    let after = after_store(git, o).0;
    assert forall|x: ObjectView| #[trigger] can_store(git, x) && x.id().len() == 20 implies can_store(
        after,
        x,
    ) by {
        if !git.exists_at(path) {
            let z = zlib_deflated(o.framed())->0;
            if x.id() != o.id() {
                other_file_kept(git, o.id(), z, x.id());
                let q = loose_path(x.id());
                assert(after.read(q) == git.read(q));
                assert(after.exists_at(q) == git.exists_at(q));
                if !git.exists_at(q) {
                    assert(git.read(q) == Err::<Seq<u8>, _>(IoError::NotFound));
                }
            } else {
                assert(after.files.contains_key(path));
            }
        }
    }
}

/// What the leaves' trees need stays.
proof fn leaves_stay_storable(a: DirView<Seq<u8>>, b: DirView<Seq<u8>>, ls: Seq<LeafView>)
    requires
        lets_store(a, b),
        leaves_can_store(a, ls),
    ensures
        leaves_can_store(b, ls),
    decreases total_len(ls),
{
    assert(can_store(a, tree_of(ls)));
    assert forall|name: Seq<u8>| #[trigger] dir_names(ls).contains(name) implies total_len(
        below(ls, name),
    ) < total_len(ls) && leaves_can_store(b, below(ls, name)) by {
        leaves_stay_storable(a, b, below(ls, name));
    }
}

/// The trees of the first subdirectories are stored.
proof fn subdirs_store(git: DirView<Seq<u8>>, ls: Seq<LeafView>, n: nat)
    requires
        leaves_can_store(git, ls),
        n <= subdirs(ls).len(),
    ensures
        store_subdirs(git, ls, n).1 is None,
        lets_store(git, store_subdirs(git, ls, n).0),
    decreases total_len(ls), n,
{
    if n > 0 {
        subdirs_store(git, ls, (n - 1) as nat);
        let names = subdirs(ls);
        dir_names_contains(ls, Seq::empty());
        sorted_keys_lists(dir_names(ls));
        let name = names[n - 1];
        assert(names.contains(name));
        assert(dir_names(ls).contains(name));
        let sub = below(ls, name);
        let g1 = store_subdirs(git, ls, (n - 1) as nat).0;
        leaves_stay_storable(git, g1, sub);
        subdirs_store(g1, sub, subdirs(sub).len());
        let g2 = store_subdirs(g1, sub, subdirs(sub).len()).0;
        assert(can_store(g1, tree_of(sub)));
        assert(can_store(g2, tree_of(sub)));
        store_lets_store(g2, tree_of(sub));
        let g3 = after_store(g2, tree_of(sub)).0;
        assert(lets_store(git, g3)) by {
            assert forall|o: ObjectView| #[trigger] can_store(git, o) && o.id().len()
                == 20 implies can_store(g3, o) by {
                assert(can_store(g1, o));
                assert(can_store(g2, o));
            }
        }
    }
}

/// A tree depends on its entries in canonical order only.
proof fn same_framed(a: Seq<TreeEntryView>, b: Seq<TreeEntryView>)
    requires
        canonical(a) == canonical(b),
    ensures
        ObjectView::Tree(a).framed() == ObjectView::Tree(b).framed(),
        ObjectView::Tree(a).id() == ObjectView::Tree(b).id(),
{
}

/// The order of the leaves makes no difference.
proof fn storable_same(git: DirView<Seq<u8>>, a: Seq<LeafView>, b: Seq<LeafView>)
    requires
        leaves_ok(a),
        same_leaves(a, b),
        leaves_can_store(git, a),
    ensures
        leaves_can_store(git, b),
    decreases total_len(a),
{
    law_leaf_order(a, b);
    same_framed(plain_dir(a), plain_dir(b));
    assert forall|name: Seq<u8>| #[trigger] dir_names(b).contains(name) implies total_len(
        below(b, name),
    ) < total_len(b) && leaves_can_store(git, below(b, name)) by {
        same_below(a, b, name);
        below_shrinks(a, name);
        below_shrinks(b, name);
        super::listing::below_ok(a, name);
        storable_same(git, below(a, name), below(b, name));
    }
}

/// The trees of a stored tree's leaves are the stored ones.
proof fn tree_storable(git: DirView<Seq<u8>>, s: Store, id: Seq<u8>, depth: nat)
    requires
        is_plain_tree(s, id, depth),
        trees_can_store(git, s, id, depth),
        id.len() == 20,
    ensures
        leaves_can_store(git, tree_leaves(s, id, depth)),
    decreases depth,
{
    let es = s.object(id)->Ok_0->Tree_0;
    assert(s.object(id) == Ok::<_, OdbErrorView>(ObjectView::Tree(es)));
    let d = (depth - 1) as nat;
    let ls = tree_leaves(s, id, depth);
    assert(ls == entries_leaves(s, es, es.len(), d));
    read_entries_ok(s, id, es);
    law_canonical_names(es);
    tree_made(s, id, depth);
    assert(canonical_object(tree_of(ls)) == ObjectView::Tree(es));
    same_framed(plain_dir(ls), es);
    assert forall|name: Seq<u8>| #[trigger] dir_names(ls).contains(name) implies total_len(
        below(ls, name),
    ) < total_len(ls) && leaves_can_store(git, below(ls, name)) by {
        let i = dirs_are_subtrees(s, es, d, name);
        assert(entry_ok(es[i]));
        below_shrinks(ls, name);
        tree_storable(git, s, es[i].id, d);
        tree_made(s, es[i].id, d);
        below_subtree(s, es, d, i);
        storable_same(git, tree_leaves(s, es[i].id, d), below(ls, name));
    }
}

/// Law: after a checkout of a stored tree without submodules or empty
/// subtrees, the tree that the index makes is that tree. Building it succeeds
/// wherever the tree and those below it can be stored, whether they have loose
/// files or are in a pack alone, and stores nothing new where all have loose
/// files that can be read.
pub proof fn law_checkout_then_build(
    repo: RepoView,
    tree: Seq<u8>,
    depth: nat,
    now: Time,
    git: DirView<Seq<u8>>,
)
    requires
        is_plain_tree(repo.store(), tree, depth),
        checkout_outcome(repo, tree, now).1 is None,
    ensures
        ({
            let leaves = index_leaves(checkout_outcome(repo, tree, now).0.entries);
            &&& tree_of(leaves).id() == tree
            &&& tree.len() == 20 && trees_can_store(git, repo.store(), tree, depth)
                ==> store_tree(git, leaves).1 is None
            &&& trees_loose(git, repo.store(), tree, depth) ==> store_tree(git, leaves) == (
                git,
                None::<OdbErrorView>,
            )
        }),
{
    let s = repo.store();
    let ls = tree_leaves(s, tree, depth);
    tree_made(s, tree, depth);
    leaves_checked_out(repo, ls, now);
    let found = index_leaves(checkout_outcome(repo, tree, now).0.entries);
    let n = subdirs(found).len();
    if tree.len() == 20 && trees_can_store(git, s, tree, depth) {
        tree_storable(git, s, tree, depth);
        storable_same(git, ls, found);
        subdirs_store(git, found, n);
        let g = store_subdirs(git, found, n).0;
        assert(can_store(git, tree_of(found)));
        assert(can_store(g, tree_of(found)));
        store_lets_store(g, tree_of(found));
    }
    if trees_loose(git, s, tree, depth) {
        tree_loose(git, s, tree, depth);
        loose_same(git, ls, found);
        store_leaves_again(git, found, n);
        store_again(git, tree_of(found));
    }
}

} // verus!
