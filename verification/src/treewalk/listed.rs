//! Which files a tree lists.

use vstd::prelude::*;

use super::{child_path, entries_files, files_of_tree, object_bound, parts, tree_files};
use crate::object::{EntryMode, ObjectView, TreeEntryView};
use crate::odb::Store;

verus! {

/// Whether one of the first `n` entries of a tree that stands at `prefix` is
/// the file at a path, or a subtree that lists it, at most `depth` levels down.
pub open spec fn entry_lists(
    s: Store,
    es: Seq<TreeEntryView>,
    n: int,
    prefix: Seq<u8>,
    path: Seq<u8>,
    file: Seq<u8>,
    depth: nat,
) -> bool
    decreases depth, 0nat,
{
    exists|i: int|
        {
            &&& 0 <= i < n
            &&& one_lists(s, #[trigger] es[i], prefix, path, file, depth)
        }
}

/// Whether an entry is the file at a path, or a subtree that lists it.
pub open spec fn one_lists(
    s: Store,
    e: TreeEntryView,
    prefix: Seq<u8>,
    path: Seq<u8>,
    file: Seq<u8>,
    depth: nat,
) -> bool
    decreases depth, 0nat,
{
    let p = if prefix.len() == 0 {
        e.name
    } else {
        prefix + seq![47u8] + e.name
    };
    if e.mode == EntryMode::Tree {
        depth > 0 && (s.object(e.id) matches Ok(ObjectView::Tree(es)) && exists|i: int|
            0 <= i < es.len() && one_lists(
                s,
                #[trigger] es[i],
                p,
                path,
                file,
                (depth - 1) as nat,
            ))
    } else {
        p == path && e.id == file
    }
}

/// What is listed among the first entries.
proof fn entries_listed(
    s: Store,
    es: Seq<TreeEntryView>,
    n: nat,
    prefix: Seq<u8>,
    strict: bool,
    fuel: nat,
    found: Map<Seq<u8>, Seq<u8>>,
    path: Seq<u8>,
)
    requires
        n <= es.len(),
        entries_files(s, es, n, prefix, strict, fuel, found) is Ok,
    ensures
        ({
            let m = entries_files(s, es, n, prefix, strict, fuel, found)->Ok_0;
            &&& m.contains_key(path) ==> (found.contains_key(path) && m[path] == found[path])
                || entry_lists(s, es, n as int, prefix, path, m[path], fuel)
            &&& found.contains_key(path) ==> m.contains_key(path)
            &&& forall|file: Seq<u8>| #[trigger]
                entry_lists(s, es, n as int, prefix, path, file, fuel) ==> m.contains_key(path)
        }),
    decreases fuel, n + 1,
{
    if n > 0 {
        let k = (n - 1) as nat;
        entries_listed(s, es, k, prefix, strict, fuel, found, path);
        let before = entries_files(s, es, k, prefix, strict, fuel, found)->Ok_0;
        let m = entries_files(s, es, n, prefix, strict, fuel, found)->Ok_0;
        let e = es[n - 1];
        let p = child_path(prefix, e.name);
        if e.mode == EntryMode::Tree {
            tree_listed(s, e.id, p, strict, fuel, before, path);
        }
        if m.contains_key(path) && !(found.contains_key(path) && m[path] == found[path]) {
            if before.contains_key(path) && m[path] == before[path] {
                let i = choose|i: int|
                    0 <= i < k && one_lists(s, #[trigger] es[i], prefix, path, m[path], fuel);
                assert(one_lists(s, es[i], prefix, path, m[path], fuel));
            } else {
                assert(one_lists(s, es[n - 1], prefix, path, m[path], fuel));
            }
        }
        assert forall|file: Seq<u8>| #[trigger]
            entry_lists(s, es, n as int, prefix, path, file, fuel) implies m.contains_key(path) by {
            let i = choose|i: int|
                0 <= i < n && one_lists(s, #[trigger] es[i], prefix, path, file, fuel);
            if i < k {
                assert(entry_lists(s, es, k as int, prefix, path, file, fuel));
            } else if e.mode == EntryMode::Tree {
                let sub = s.object(e.id)->Ok_0->Tree_0;
                assert(entry_lists(
                    s,
                    sub,
                    sub.len() as int,
                    p,
                    path,
                    file,
                    (fuel - 1) as nat,
                ));
            }
        }
    }
}

/// What is listed in a tree.
proof fn tree_listed(
    s: Store,
    id: Seq<u8>,
    prefix: Seq<u8>,
    strict: bool,
    fuel: nat,
    found: Map<Seq<u8>, Seq<u8>>,
    path: Seq<u8>,
)
    requires
        tree_files(s, id, prefix, strict, fuel, found) is Ok,
    ensures
        fuel > 0,
        ({
            let m = tree_files(s, id, prefix, strict, fuel, found)->Ok_0;
            &&& found.contains_key(path) ==> m.contains_key(path)
            &&& s.object(id) matches Ok(ObjectView::Tree(es)) ==> {
                &&& m.contains_key(path) ==> (found.contains_key(path) && m[path] == found[path])
                    || entry_lists(
                    s,
                    es,
                    es.len() as int,
                    prefix,
                    path,
                    m[path],
                    (fuel - 1) as nat,
                )
                &&& forall|file: Seq<u8>| #[trigger]
                    entry_lists(s, es, es.len() as int, prefix, path, file, (fuel - 1) as nat)
                        ==> m.contains_key(path)
            }
            &&& !(s.object(id) matches Ok(ObjectView::Tree(_))) ==> m == found
        }),
    decreases fuel, 0nat,
{
    if let Ok(ObjectView::Tree(es)) = s.object(id) {
        entries_listed(s, es, es.len(), prefix, strict, (fuel - 1) as nat, found, path);
    }
}

/// Law: the files of a tree are just those that its entries and those of its
/// subtrees are, each under its names joined with slashes and with the id of
/// such an entry.
pub proof fn law_files_listed(s: Store, id: Seq<u8>, strict: bool, path: Seq<u8>)
    requires
        files_of_tree(s, id, strict) is Ok,
    ensures
        s.object(id) matches Ok(ObjectView::Tree(es)) ==> {
            let m = files_of_tree(s, id, strict)->Ok_0;
            let depth = (object_bound(s) - 1) as nat;
            &&& m.contains_key(path) ==> entry_lists(
                s,
                es,
                es.len() as int,
                Seq::empty(),
                path,
                m[path],
                depth,
            )
            &&& forall|file: Seq<u8>| #[trigger]
                entry_lists(s, es, es.len() as int, Seq::empty(), path, file, depth)
                    ==> m.contains_key(path)
        },
        strict ==> s.object(id) matches Ok(ObjectView::Tree(_)),
{
    tree_listed(s, id, Seq::empty(), strict, object_bound(s), Map::empty(), path);
}

/// Law: a path's parts are what stands between its slashes: a path without a
/// slash is its only part, and those of two paths with a slash between them
/// are the parts of both.
pub proof fn law_parts(a: Seq<u8>, b: Seq<u8>)
    ensures
        !a.contains(47u8) ==> parts(a) == seq![a],
        parts(a + seq![47u8] + b) == parts(a) + parts(b),
    decreases a.len(),
{
    let k = crate::bytes::upto(a, 47);
    crate::bytes::upto_spec(a, 47);
    let w = a + seq![47u8] + b;
    if k == a.len() {
        assert(!a.contains(47u8)) by {
            if a.contains(47u8) {
                let i = choose|i: int| 0 <= i < a.len() && a[i] == 47;
                assert(a[i] != 47);
            }
        }
        assert forall|j: int| 0 <= j < k implies w[j] != 47 by {
            assert(w[j] == a[j]);
        }
        assert(w[k] == 47);
        crate::bytes::upto_is(w, 47, k);
        assert(w.take(k) =~= a);
        assert(w.skip(k + 1) =~= b);
    } else {
        assert(a.contains(a[k]));
        let t = a.skip(k + 1);
        law_parts(t, b);
        assert forall|j: int| 0 <= j < k implies w[j] != 47 by {
            assert(w[j] == a[j]);
        }
        assert(w[k] == a[k]);
        crate::bytes::upto_is(w, 47, k);
        assert(w.take(k) =~= a.take(k));
        assert(w.skip(k + 1) =~= t + seq![47u8] + b);
        assert(seq![a.take(k)] + (parts(t) + parts(b)) =~= parts(a) + parts(b));
    }
}

} // verus!
