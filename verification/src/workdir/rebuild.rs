//! Checking out a tree and building it again gives the same tree.

use vstd::prelude::*;

use super::checkout::{
    checked_entry, checkout_data, checkout_dir, checkout_entries, checkout_leaf, checkout_outcome,
    checkout_tree, file_mode, Checkout,
};
use super::listing::{
    below_contains, below_ok, canonical_contains, child_path_same, deep_path, dir_names_contains,
    file_is_no_dir, holds_trees, leaves_ok, own_contains, owns, picked, plain_dir,
    plain_dir_contains, shortened,
};
use super::plain_path;
use super::staging::{
    below, below_shrinks, dir_names, first_part, index_leaves, is_deep, own_files, total_len,
    tree_mode, tree_of, LeafView,
};
use crate::bytes::{lex_lt, lex_lt_irreflexive, lex_lt_total, lex_lt_transitive, upto_spec, SLASH};
use crate::index::laws::{law_upsert_entries, upserted};
use crate::index::{IndexEntryView, Time};
use crate::object::tree::{
    canonical, keys_sorted, law_canonical_names, law_canonical_sorted, names_unique, sort_key,
    tree_payload,
};
use crate::object::{EntryMode, ObjectView, TreeEntryView};
use crate::odb::{OdbErrorView, RepoView, Store};
use crate::treewalk::{child_path, object_bound};

verus! {

// ---------------------------------------------------------------------
// A tree depends on the set of its leaves only
// ---------------------------------------------------------------------

/// Entries in the order of a tree: the key of each comes before that of the
/// next.
pub open spec fn strictly_sorted(es: Seq<TreeEntryView>) -> bool {
    forall|i: int, j: int|
        0 <= i < j < es.len() ==> lex_lt(sort_key(#[trigger] es[i]), sort_key(#[trigger] es[j]))
}

/// Entries with distinct names without slashes have distinct keys.
pub proof fn sorted_strictly(es: Seq<TreeEntryView>)
    requires
        keys_sorted(es),
        names_unique(es),
        forall|i: int| 0 <= i < es.len() ==> !(#[trigger] es[i]).name.contains(SLASH),
    ensures
        strictly_sorted(es),
{
    assert forall|i: int, j: int| 0 <= i < j < es.len() implies lex_lt(
        sort_key(#[trigger] es[i]),
        sort_key(#[trigger] es[j]),
    ) by {
        let a = sort_key(es[i]);
        let b = sort_key(es[j]);
        lex_lt_total(a, b);
        if a == b {
            let (x, y) = (es[i].name, es[j].name);
            assert(x.push(SLASH).last() == SLASH);
            assert(y.push(SLASH).last() == SLASH);
            if es[i].mode == EntryMode::Tree && es[j].mode == EntryMode::Tree {
                assert(x.push(SLASH).drop_last() =~= x);
                assert(y.push(SLASH).drop_last() =~= y);
            } else if es[i].mode == EntryMode::Tree {
                assert(y.contains(y[y.len() - 1]));
            } else if es[j].mode == EntryMode::Tree {
                assert(x.contains(x[x.len() - 1]));
            }
        }
    }
}

/// Two sorted lists of the same entries are equal.
pub proof fn same_sorted(a: Seq<TreeEntryView>, b: Seq<TreeEntryView>)
    requires
        strictly_sorted(a),
        strictly_sorted(b),
        forall|e: TreeEntryView| #[trigger] a.contains(e) <==> b.contains(e),
    ensures
        a == b,
    decreases a.len(),
{
    if a.len() == 0 {
        if b.len() > 0 {
            assert(b.contains(b[0]));
            assert(a.contains(b[0]));
        }
        assert(a =~= b);
    } else {
        let x = a.last();
        assert(a.contains(a[a.len() - 1]));
        assert(b.contains(x));
        let y = b.last();
        assert(b.contains(b[b.len() - 1]));
        assert(a.contains(y));
        if x != y {
            let i = choose|i: int| 0 <= i < a.len() && a[i] == y;
            let j = choose|j: int| 0 <= j < b.len() && b[j] == x;
            assert(lex_lt(sort_key(a[i]), sort_key(a[a.len() - 1])));
            assert(lex_lt(sort_key(b[j]), sort_key(b[b.len() - 1])));
            lex_lt_transitive(sort_key(x), sort_key(y), sort_key(x));
            lex_lt_irreflexive(sort_key(x));
        }
        let s = a.drop_last();
        let t = b.drop_last();
        assert forall|e: TreeEntryView| #[trigger] s.contains(e) <==> t.contains(e) by {
            if s.contains(e) {
                let i = choose|i: int| 0 <= i < s.len() && s[i] == e;
                assert(a[i] == e);
                assert(a.contains(e));
                let j = choose|j: int| 0 <= j < b.len() && b[j] == e;
                if j == b.len() - 1 {
                    assert(lex_lt(sort_key(a[i]), sort_key(a[a.len() - 1])));
                    lex_lt_irreflexive(sort_key(e));
                }
                assert(t[j] == e);
            }
            if t.contains(e) {
                let j = choose|j: int| 0 <= j < t.len() && t[j] == e;
                assert(b[j] == e);
                assert(b.contains(e));
                assert(a.contains(e));
                let i = choose|i: int| 0 <= i < a.len() && a[i] == e;
                if i == a.len() - 1 {
                    assert(lex_lt(sort_key(b[j]), sort_key(b[b.len() - 1])));
                    lex_lt_irreflexive(sort_key(e));
                }
                assert(s[i] == e);
            }
        }
        same_sorted(s, t);
        assert(a =~= s.push(x));
        assert(b =~= t.push(y));
    }
}

/// The names of a directory's entries have no slashes.
proof fn dir_names_plain(ls: Seq<LeafView>, e: TreeEntryView)
    requires
        plain_dir(ls).contains(e),
    ensures
        !e.name.contains(SLASH),
{
    plain_dir_contains(ls, e);
    if own_files(ls).contains(e) {
        own_contains(ls, e);
        let l = choose|l: LeafView| #[trigger]
            ls.contains(l) && !is_deep(l.path) && e == (TreeEntryView {
                mode: l.mode,
                name: l.path,
                id: l.id,
            });
        upto_spec(l.path, SLASH);
    } else {
        dir_names_contains(ls, e.name);
        let l = choose|l: LeafView| #[trigger]
            ls.contains(l) && is_deep(l.path) && first_part(l.path) == e.name;
        upto_spec(l.path, SLASH);
        if e.name.contains(SLASH) {
            let i = choose|i: int| 0 <= i < e.name.len() && e.name[i] == SLASH;
            assert(l.path[i] == SLASH);
        }
    }
}

/// Sorting a directory's entries orders them strictly.
pub proof fn dir_sorted(ls: Seq<LeafView>)
    requires
        leaves_ok(ls),
    ensures
        strictly_sorted(canonical(plain_dir(ls))),
{
    let es = canonical(plain_dir(ls));
    law_canonical_sorted(plain_dir(ls));
    law_canonical_names(plain_dir(ls));
    assert forall|i: int| 0 <= i < es.len() implies !(#[trigger] es[i]).name.contains(SLASH) by {
        assert(es.contains(es[i]));
        canonical_contains(ls, es[i]);
        dir_names_plain(ls, es[i]);
    }
    sorted_strictly(es);
}

/// Whether two lists have the same leaves.
pub open spec fn same_leaves(a: Seq<LeafView>, b: Seq<LeafView>) -> bool {
    forall|l: LeafView| #[trigger] a.contains(l) <==> b.contains(l)
}

/// The leaves below a directory are the same, then.
pub proof fn same_below(a: Seq<LeafView>, b: Seq<LeafView>, name: Seq<u8>)
    requires
        same_leaves(a, b),
    ensures
        same_leaves(below(a, name), below(b, name)),
        dir_names(a).contains(name) <==> dir_names(b).contains(name),
{
    assert forall|x: LeafView| #[trigger] below(a, name).contains(x) <==> below(
        b,
        name,
    ).contains(x) by {
        below_contains(a, name, x);
        below_contains(b, name, x);
        if below(a, name).contains(x) {
            let l = choose|l: LeafView| #[trigger]
                a.contains(l) && is_deep(l.path) && first_part(l.path) == name && shortened(l) == x;
            assert(b.contains(l));
        }
        if below(b, name).contains(x) {
            let l = choose|l: LeafView| #[trigger]
                b.contains(l) && is_deep(l.path) && first_part(l.path) == name && shortened(l) == x;
            assert(a.contains(l));
        }
    }
    dir_names_contains(a, name);
    dir_names_contains(b, name);
    if dir_names(a).contains(name) {
        let l = choose|l: LeafView| #[trigger]
            a.contains(l) && is_deep(l.path) && first_part(l.path) == name;
        assert(b.contains(l));
    }
    if dir_names(b).contains(name) {
        let l = choose|l: LeafView| #[trigger]
            b.contains(l) && is_deep(l.path) && first_part(l.path) == name;
        assert(a.contains(l));
    }
}

/// The same leaves are fit for a tree in any order.
pub proof fn same_ok(a: Seq<LeafView>, b: Seq<LeafView>)
    requires
        same_leaves(a, b),
        leaves_ok(a),
    ensures
        leaves_ok(b),
{
    assert forall|l: LeafView| #[trigger] b.contains(l) implies super::listing::path_ok(l.path)
        && l.mode != EntryMode::Tree by {
        assert(a.contains(l));
    }
    assert forall|x: LeafView, y: LeafView|
        #![trigger b.contains(x), b.contains(y)]
        b.contains(x) && b.contains(y) implies (x.path == y.path ==> x == y)
        && !crate::dir::is_above(x.path, y.path) by {
        assert(a.contains(x) && a.contains(y));
    }
}

/// Law: the tree of some leaves does not depend on their order.
pub proof fn law_leaf_order(a: Seq<LeafView>, b: Seq<LeafView>)
    requires
        leaves_ok(a),
        same_leaves(a, b),
    ensures
        tree_of(a).id() == tree_of(b).id(),
        canonical(plain_dir(a)) == canonical(plain_dir(b)),
    decreases total_len(a),
{
    same_ok(a, b);
    let x = canonical(plain_dir(a));
    let y = canonical(plain_dir(b));
    dir_sorted(a);
    dir_sorted(b);
    assert forall|e: TreeEntryView| #[trigger] x.contains(e) <==> y.contains(e) by {
        canonical_contains(a, e);
        canonical_contains(b, e);
        plain_dir_contains(a, e);
        plain_dir_contains(b, e);
        own_contains(a, e);
        own_contains(b, e);
        same_below(a, b, e.name);
        if dir_names(a).contains(e.name) {
            below_shrinks(a, e.name);
            below_ok(a, e.name);
            law_leaf_order(below(a, e.name), below(b, e.name));
        }
        if own_files(a).contains(e) {
            let l = choose|l: LeafView| #[trigger]
                a.contains(l) && !is_deep(l.path) && e == (TreeEntryView {
                    mode: l.mode,
                    name: l.path,
                    id: l.id,
                });
            assert(b.contains(l));
        }
        if own_files(b).contains(e) {
            let l = choose|l: LeafView| #[trigger]
                b.contains(l) && !is_deep(l.path) && e == (TreeEntryView {
                    mode: l.mode,
                    name: l.path,
                    id: l.id,
                });
            assert(a.contains(l));
        }
    }
    same_sorted(x, y);
    assert(tree_payload(plain_dir(a)) == tree_payload(plain_dir(b)));
}

// ---------------------------------------------------------------------
// What a checkout stages
// ---------------------------------------------------------------------

/// Whether an index entry is that of a leaf below `prefix`.
spec fn stands_for(e: IndexEntryView, prefix: Seq<u8>, l: LeafView) -> bool {
    &&& e.path == child_path(prefix, l.path)
    &&& e.id == l.id
    &&& e.mode == file_mode(l.mode).1
    &&& e.stage == 0
}

/// Whether some of the leaves have an entry's path.
spec fn takes_place(leaves: Set<LeafView>, prefix: Seq<u8>, path: Seq<u8>) -> bool {
    exists|l: LeafView| #[trigger] leaves.contains(l) && child_path(prefix, l.path) == path
}

/// Whether one of the leaves is what an entry stands for.
spec fn is_staged(leaves: Set<LeafView>, prefix: Seq<u8>, e: IndexEntryView) -> bool {
    exists|l: LeafView| #[trigger] leaves.contains(l) && stands_for(e, prefix, l)
}

/// Whether one of the entries stands for a leaf.
spec fn has_entry(es: Seq<IndexEntryView>, prefix: Seq<u8>, l: LeafView) -> bool {
    exists|e: IndexEntryView| #[trigger] es.contains(e) && stands_for(e, prefix, l)
}

/// Whether `after` is `before` with the entries of some leaves staged.
spec fn stages(
    before: Seq<IndexEntryView>,
    after: Seq<IndexEntryView>,
    prefix: Seq<u8>,
    leaves: Set<LeafView>,
) -> bool {
    &&& forall|e: IndexEntryView| #[trigger]
        after.contains(e) ==> before.contains(e) || is_staged(leaves, prefix, e)
    &&& forall|l: LeafView| #[trigger] leaves.contains(l) ==> has_entry(after, prefix, l)
    &&& forall|e: IndexEntryView| #[trigger]
        before.contains(e) ==> after.contains(e) || takes_place(leaves, prefix, e.path)
}

/// Leaves of one list that were staged one after the other were staged.
proof fn stages_more(
    ls: Seq<LeafView>,
    a: Seq<IndexEntryView>,
    b: Seq<IndexEntryView>,
    c: Seq<IndexEntryView>,
    prefix: Seq<u8>,
    first: Set<LeafView>,
    second: Set<LeafView>,
)
    requires
        leaves_ok(ls),
        stages(a, b, prefix, first),
        stages(b, c, prefix, second),
        forall|l: LeafView| #[trigger] first.contains(l) ==> ls.contains(l),
        forall|l: LeafView| #[trigger] second.contains(l) ==> ls.contains(l),
    ensures
        stages(a, c, prefix, first.union(second)),
{
    let both = first.union(second);
    assert forall|e: IndexEntryView| #[trigger] c.contains(e) implies a.contains(e) || is_staged(
        both,
        prefix,
        e,
    ) by {
        if b.contains(e) {
            if is_staged(first, prefix, e) {
                let l = choose|l: LeafView| #[trigger]
                    first.contains(l) && stands_for(e, prefix, l);
                assert(both.contains(l));
            }
        } else {
            let l = choose|l: LeafView| #[trigger] second.contains(l) && stands_for(e, prefix, l);
            assert(both.contains(l));
        }
    }
    assert forall|l: LeafView| #[trigger] both.contains(l) implies has_entry(c, prefix, l) by {
        if !second.contains(l) {
            assert(first.contains(l));
            let e = choose|e: IndexEntryView| #[trigger]
                b.contains(e) && stands_for(e, prefix, l);
            if !c.contains(e) {
                let x = choose|x: LeafView| #[trigger]
                    second.contains(x) && child_path(prefix, x.path) == e.path;
                child_path_same(prefix, x.path, l.path);
                assert(ls.contains(x) && ls.contains(l));
                assert(x == l);
            }
        }
    }
    assert forall|e: IndexEntryView| #[trigger] a.contains(e) implies c.contains(e) || takes_place(
        both,
        prefix,
        e.path,
    ) by {
        if b.contains(e) {
            if !c.contains(e) {
                let x = choose|x: LeafView| #[trigger]
                    second.contains(x) && child_path(prefix, x.path) == e.path;
                assert(both.contains(x));
            }
        } else {
            let x = choose|x: LeafView| #[trigger]
                first.contains(x) && child_path(prefix, x.path) == e.path;
            assert(both.contains(x));
        }
    }
}

/// Leaves staged below a subdirectory were staged.
proof fn stages_below(
    ls: Seq<LeafView>,
    a: Seq<IndexEntryView>,
    b: Seq<IndexEntryView>,
    prefix: Seq<u8>,
    e: TreeEntryView,
)
    requires
        leaves_ok(ls),
        e.mode == EntryMode::Tree,
        e.name.len() > 0,
        stages(a, b, child_path(prefix, e.name), below(ls, e.name).to_set()),
    ensures
        stages(a, b, prefix, Set::new(|l: LeafView| ls.contains(l) && owns(e, l))),
{
    let sub = below(ls, e.name).to_set();
    let inner = child_path(prefix, e.name);
    let leaves = Set::new(|l: LeafView| ls.contains(l) && owns(e, l));
    assert forall|l: LeafView| #[trigger] leaves.contains(l) implies sub.contains(shortened(l))
        && child_path(inner, shortened(l).path) == child_path(prefix, l.path) by {
        below_contains(ls, e.name, shortened(l));
        deep_path(l.path);
        assert(child_path(inner, shortened(l).path) =~= child_path(prefix, l.path));
    }
    assert forall|x: LeafView| #[trigger] sub.contains(x) implies exists|l: LeafView| #[trigger]
        leaves.contains(l) && shortened(l) == x by {
        below_contains(ls, e.name, x);
        let l = choose|l: LeafView| #[trigger]
            ls.contains(l) && is_deep(l.path) && first_part(l.path) == e.name && shortened(l) == x;
        assert(leaves.contains(l));
    }
    assert forall|i: IndexEntryView| #[trigger] b.contains(i) implies a.contains(i) || is_staged(
        leaves,
        prefix,
        i,
    ) by {
        if !a.contains(i) {
            let x = choose|x: LeafView| #[trigger] sub.contains(x) && stands_for(i, inner, x);
            let l = choose|l: LeafView| #[trigger] leaves.contains(l) && shortened(l) == x;
            assert(stands_for(i, prefix, l));
        }
    }
    assert forall|l: LeafView| #[trigger] leaves.contains(l) implies has_entry(b, prefix, l) by {
        assert(sub.contains(shortened(l)));
        let i = choose|i: IndexEntryView| #[trigger]
            b.contains(i) && stands_for(i, inner, shortened(l));
        assert(stands_for(i, prefix, l));
    }
    assert forall|i: IndexEntryView| #[trigger] a.contains(i) implies b.contains(i) || takes_place(
        leaves,
        prefix,
        i.path,
    ) by {
        if !b.contains(i) {
            let x = choose|x: LeafView| #[trigger]
                sub.contains(x) && child_path(inner, x.path) == i.path;
            let l = choose|l: LeafView| #[trigger] leaves.contains(l) && shortened(l) == x;
            assert(leaves.contains(l));
        }
    }
}

/// A file that is checked out is staged.
proof fn file_staged(
    s: Store,
    ls: Seq<LeafView>,
    e: TreeEntryView,
    prefix: Seq<u8>,
    now: Time,
    st: Checkout,
)
    requires
        leaves_ok(ls),
        own_files(ls).contains(e),
        e.mode != EntryMode::Gitlink,
        checkout_leaf(s, e, prefix, now, st).1 is None,
    ensures
        stages(
            st.entries,
            checkout_leaf(s, e, prefix, now, st).0.entries,
            prefix,
            Set::new(|l: LeafView| ls.contains(l) && owns(e, l)),
        ),
{
    file_is_no_dir(ls, e);
    own_contains(ls, e);
    let a = choose|l: LeafView| #[trigger]
        ls.contains(l) && !is_deep(l.path) && e == (TreeEntryView {
            mode: l.mode,
            name: l.path,
            id: l.id,
        });
    let leaves = Set::new(|l: LeafView| ls.contains(l) && owns(e, l));
    assert(leaves.contains(a));
    assert forall|l: LeafView| #[trigger] leaves.contains(l) implies l == a by {
        assert(ls.contains(l) && ls.contains(a));
    }
    match s.object(e.id) {
        Ok(ObjectView::Blob(data)) => {
            let path = child_path(prefix, e.name);
            let entry = checked_entry(file_mode(e.mode).1, data, e.id, path, now);
            let after = checkout_data(e, data, prefix, now, st).0.entries;
            assert(after == upserted(st.entries, entry));
            law_upsert_entries(st.entries, entry);
            assert(stands_for(entry, prefix, a));
            assert(after.contains(entry));
            assert forall|i: IndexEntryView| #[trigger] st.entries.contains(i) implies
                after.contains(i) || takes_place(leaves, prefix, i.path) by {}
        },
        _ => {},
    }
}

/// Whether none of the leaves is a submodule.
pub open spec fn no_submodules(ls: Seq<LeafView>) -> bool {
    forall|l: LeafView| #[trigger] ls.contains(l) ==> l.mode != EntryMode::Gitlink
}

/// Nor are those below a directory.
proof fn below_no_submodules(ls: Seq<LeafView>, name: Seq<u8>)
    requires
        no_submodules(ls),
    ensures
        no_submodules(below(ls, name)),
{
    assert forall|x: LeafView| #[trigger] below(ls, name).contains(x) implies x.mode
        != EntryMode::Gitlink by {
        below_contains(ls, name, x);
        let l = choose|l: LeafView| #[trigger]
            ls.contains(l) && is_deep(l.path) && first_part(l.path) == name && shortened(l) == x;
        assert(l.mode == x.mode);
    }
}

/// Checking out the tree of the leaves stages just them.
proof fn tree_stages(
    s: Store,
    ls: Seq<LeafView>,
    prefix: Seq<u8>,
    now: Time,
    fuel: nat,
    st: Checkout,
)
    requires
        leaves_ok(ls),
        no_submodules(ls),
        holds_trees(s, ls),
        checkout_tree(s, tree_of(ls).id(), prefix, now, fuel, st).1 is None,
    ensures
        stages(
            st.entries,
            checkout_tree(s, tree_of(ls).id(), prefix, now, fuel, st).0.entries,
            prefix,
            ls.to_set(),
        ),
    decreases total_len(ls), 1nat, 0nat,
{
    let es = canonical(plain_dir(ls));
    assert(s.object(tree_of(ls).id()) == Ok::<_, OdbErrorView>(ObjectView::Tree(es)));
    let inside = checkout_dir(plain_path(prefix), st).0;
    entries_stage(s, ls, es.len(), prefix, now, (fuel - 1) as nat, inside);
    super::listing::all_picked(ls);
}

/// Checking out the first entries stages just the leaves they stand for.
proof fn entries_stage(
    s: Store,
    ls: Seq<LeafView>,
    n: nat,
    prefix: Seq<u8>,
    now: Time,
    fuel: nat,
    st: Checkout,
)
    requires
        leaves_ok(ls),
        no_submodules(ls),
        holds_trees(s, ls),
        n <= canonical(plain_dir(ls)).len(),
        checkout_entries(s, canonical(plain_dir(ls)), n, prefix, now, fuel, st).1 is None,
    ensures
        stages(
            st.entries,
            checkout_entries(s, canonical(plain_dir(ls)), n, prefix, now, fuel, st).0.entries,
            prefix,
            picked(ls, canonical(plain_dir(ls)), n),
        ),
    decreases total_len(ls), 0nat, n,
{
    let es = canonical(plain_dir(ls));
    if n == 0 {
        assert(picked(ls, es, 0) =~= Set::<LeafView>::empty());
    } else {
        entries_stage(s, ls, (n - 1) as nat, prefix, now, fuel, st);
        let done = checkout_entries(s, es, (n - 1) as nat, prefix, now, fuel, st).0;
        let after = checkout_entries(s, es, n, prefix, now, fuel, st).0;
        let e = es[n - 1];
        let own = Set::new(|l: LeafView| ls.contains(l) && owns(e, l));
        assert(es.contains(e));
        canonical_contains(ls, e);
        plain_dir_contains(ls, e);
        if e.mode == EntryMode::Tree {
            if own_files(ls).contains(e) {
                file_is_no_dir(ls, e);
            }
            dir_names_contains(ls, e.name);
            let b = choose|b: LeafView| #[trigger]
                ls.contains(b) && is_deep(b.path) && first_part(b.path) == e.name;
            deep_path(b.path);
            below_ok(ls, e.name);
            below_no_submodules(ls, e.name);
            below_shrinks(ls, e.name);
            tree_stages(s, below(ls, e.name), child_path(prefix, e.name), now, fuel, done);
            stages_below(ls, done.entries, after.entries, prefix, e);
        } else {
            own_contains(ls, e);
            let l = choose|l: LeafView| #[trigger]
                ls.contains(l) && !is_deep(l.path) && e == (TreeEntryView {
                    mode: l.mode,
                    name: l.path,
                    id: l.id,
                });
            assert(l.mode != EntryMode::Gitlink);
            file_staged(s, ls, e, prefix, now, done);
        }
        stages_more(
            ls,
            st.entries,
            done.entries,
            after.entries,
            prefix,
            picked(ls, es, (n - 1) as nat),
            own,
        );
        super::listing::picked_next(ls, es, n);
    }
}

/// The leaves of index entries.
proof fn index_leaves_contains(es: Seq<IndexEntryView>, x: LeafView)
    ensures
        index_leaves(es).contains(x) <==> exists|e: IndexEntryView| #[trigger]
            es.contains(e) && e.stage == 0 && x == (LeafView {
                path: e.path,
                mode: tree_mode(e.mode),
                id: e.id,
            }),
    decreases es.len(),
{
    if es.len() > 0 {
        let t = es.drop_last();
        let last = es.last();
        index_leaves_contains(t, x);
        let b = index_leaves(t);
        let all = index_leaves(es);
        assert(es[es.len() - 1] == last);
        assert(es.contains(last));
        if last.stage == 0 {
            assert(all[b.len() as int] == (LeafView {
                path: last.path,
                mode: tree_mode(last.mode),
                id: last.id,
            }));
        }
        if all.contains(x) {
            let i = choose|i: int| 0 <= i < all.len() && all[i] == x;
            if i < b.len() {
                assert(b[i] == x);
                assert(b.contains(x));
                let e = choose|e: IndexEntryView| #[trigger]
                    t.contains(e) && e.stage == 0 && x == (LeafView {
                        path: e.path,
                        mode: tree_mode(e.mode),
                        id: e.id,
                    });
                let j = choose|j: int| 0 <= j < t.len() && t[j] == e;
                assert(es[j] == e);
                assert(es.contains(e));
            }
        }
        if exists|e: IndexEntryView| #[trigger]
            es.contains(e) && e.stage == 0 && x == (LeafView {
                path: e.path,
                mode: tree_mode(e.mode),
                id: e.id,
            }) {
            let e = choose|e: IndexEntryView| #[trigger]
                es.contains(e) && e.stage == 0 && x == (LeafView {
                    path: e.path,
                    mode: tree_mode(e.mode),
                    id: e.id,
                });
            let j = choose|j: int| 0 <= j < es.len() && es[j] == e;
            if j < t.len() {
                assert(t[j] == e);
                assert(t.contains(e));
                assert(b.contains(x));
                let i = choose|i: int| 0 <= i < b.len() && b[i] == x;
                assert(all[i] == x);
            }
        }
    }
}

/// An index in which just the leaves were staged has just these leaves.
proof fn staged_leaves(ls: Seq<LeafView>, entries: Seq<IndexEntryView>)
    requires
        leaves_ok(ls),
        no_submodules(ls),
        stages(Seq::empty(), entries, Seq::empty(), ls.to_set()),
    ensures
        same_leaves(ls, index_leaves(entries)),
{
    let found = index_leaves(entries);
    let leaves = ls.to_set();
    assert forall|l: LeafView| #[trigger] ls.contains(l) <==> found.contains(l) by {
        index_leaves_contains(entries, l);
        if ls.contains(l) {
            assert(leaves.contains(l));
            assert(has_entry(entries, Seq::empty(), l));
            let e = choose|e: IndexEntryView| #[trigger]
                entries.contains(e) && stands_for(e, Seq::empty(), l);
            assert(tree_mode(e.mode) == l.mode);
        }
        if found.contains(l) {
            let e = choose|e: IndexEntryView| #[trigger]
                entries.contains(e) && e.stage == 0 && l == (LeafView {
                    path: e.path,
                    mode: tree_mode(e.mode),
                    id: e.id,
                });
            assert(is_staged(leaves, Seq::empty(), e));
            let x = choose|x: LeafView| #[trigger]
                leaves.contains(x) && stands_for(e, Seq::empty(), x);
            assert(ls.contains(x));
            assert(tree_mode(e.mode) == x.mode);
            assert(x == l);
        }
    }
}

/// After a checkout of the tree of some leaves without submodules, the index
/// has just these leaves, and their tree is that tree again.
pub proof fn leaves_checked_out(repo: RepoView, ls: Seq<LeafView>, now: Time)
    requires
        leaves_ok(ls),
        no_submodules(ls),
        holds_trees(repo.store(), ls),
        checkout_outcome(repo, tree_of(ls).id(), now).1 is None,
    ensures
        ({
            let entries = checkout_outcome(repo, tree_of(ls).id(), now).0.entries;
            &&& same_leaves(ls, index_leaves(entries))
            &&& tree_of(index_leaves(entries)).id() == tree_of(ls).id()
        }),
{
    let s = repo.store();
    let start = Checkout { work: repo.work, entries: Seq::empty() };
    tree_stages(s, ls, Seq::empty(), now, object_bound(s), start);
    let entries = checkout_outcome(repo, tree_of(ls).id(), now).0.entries;
    staged_leaves(ls, entries);
    law_leaf_order(ls, index_leaves(entries));
}

} // verus!
