//! What checking out promises.

use vstd::prelude::*;
use vstd::utf8::valid_utf8;

use super::checkout::{
    checked_entry, checked_file, checked_out, checkout_data, checkout_dir, checkout_entries,
    checkout_leaf, checkout_outcome, checkout_tree, file_mode, file_path, Checkout,
};
use super::stored::read_entries_ok;
use super::switching::{switched, without_stale};
use super::{
    entry_changes, entry_paths, head_files, head_tree, plain_path, removed_changes, status_of,
    stored_bytes, tracked_changes, tracked_paths, untracked_changes, ChangeView, WorkdirErrorView,
};
use crate::bytemap::{sorted_keys, sorted_keys_lists};
use crate::bytes::{ascii, SLASH};
use crate::dir::{is_above, DirView};
use crate::files::IoError;
use crate::index::format::{index_body, index_bytes, index_ok, law_index_round_trip};
use crate::index::laws::{law_upsert_entries, upserted};
use crate::index::store::index_of;
use crate::index::{IndexEntryView, IndexErrorView, IndexView, Time};
use crate::object::{
    object_id, payload_object, EntryMode, ObjectKind, ObjectView, ParseErrorView, TreeEntryView,
};
use crate::odb::laws::law_read_has_id;
use crate::odb::{OdbErrorView, RepoView, Store};
use crate::codec::sha1_digest;
use crate::object::laws::refers;
use crate::treewalk::laws::{
    countable, law_stored_ids, readable, readable_bound, reading_finds_no_cycle, tree_files_finite,
    trees_ranked,
};
use crate::treewalk::{child_path, entries_files, files_of_tree, object_bound, tree_files};
use crate::object::tree::{entries_ok, entry_ok, names_unique};
use crate::worktree::places::{behind_link, dir_made, is_folder, seen, MAX_LINKS};
use crate::worktree::ways::{
    grows, is_link, neat, open_child, open_place, open_seen, open_stays, open_to, opened,
    opened_stays, own_way, own_way_stays, own_way_walks, proper, siblings_apart, within, within_dir,
};
use crate::worktree::{FileKind, WorkFileView};

verus! {

/// Whether the file of an entry is what the entry says.
pub open spec fn file_matches(work: DirView<WorkFileView>, e: IndexEntryView) -> bool {
    seen(work, plain_path(e.path)) matches Ok(f) && object_id(ObjectKind::Blob, stored_bytes(f))
        == e.id
}

/// Whether a tree can be checked out below `prefix` with nothing in its way,
/// down through `depth` levels: the names in each tree are distinct, valid
/// UTF-8 and stand for themselves, and no link stands where a file or a
/// directory is to come.
pub open spec fn unhindered(
    s: Store,
    work: DirView<WorkFileView>,
    id: Seq<u8>,
    prefix: Seq<u8>,
    depth: nat,
) -> bool
    decreases depth,
{
    s.object(id) matches Ok(ObjectView::Tree(es)) ==> names_unique(es) && forall|i: int|
        #![trigger es[i]]
        0 <= i < es.len() ==> {
            let p = child_path(prefix, es[i].name);
            &&& valid_utf8(es[i].name)
            &&& proper(es[i].name)
            &&& es[i].mode != EntryMode::Symlink && es[i].mode != EntryMode::Gitlink ==> !is_link(
                work,
                p,
            )
            &&& es[i].mode == EntryMode::Tree && depth > 0 ==> unhindered(
                s,
                work,
                es[i].id,
                p,
                (depth - 1) as nat,
            )
        }
}

/// That depends only on the links within the directory.
proof fn unhindered_there(
    s: Store,
    a: DirView<WorkFileView>,
    b: DirView<WorkFileView>,
    id: Seq<u8>,
    prefix: Seq<u8>,
    depth: nat,
)
    requires
        unhindered(s, a, id, prefix, depth),
        forall|q: Seq<u8>| within(prefix, q) && #[trigger] is_link(b, q) ==> is_link(a, q),
    ensures
        unhindered(s, b, id, prefix, depth),
    decreases depth,
{
    if let Ok(ObjectView::Tree(es)) = s.object(id) {
        assert forall|i: int| #![trigger es[i]] 0 <= i < es.len() implies {
            let p = child_path(prefix, es[i].name);
            &&& valid_utf8(es[i].name)
            &&& proper(es[i].name)
            &&& es[i].mode != EntryMode::Symlink && es[i].mode != EntryMode::Gitlink ==> !is_link(
                b,
                p,
            )
            &&& es[i].mode == EntryMode::Tree && depth > 0 ==> unhindered(
                s,
                b,
                es[i].id,
                p,
                (depth - 1) as nat,
            )
        } by {
            let p = child_path(prefix, es[i].name);
            assert(proper(es[i].name));
            within_dir(prefix, es[i].name, p);
            assert forall|q: Seq<u8>| within(p, q) && #[trigger] is_link(b, q) implies is_link(
                a,
                q,
            ) by {
                within_dir(prefix, es[i].name, q);
            }
            if es[i].mode == EntryMode::Tree && depth > 0 {
                unhindered_there(s, a, b, es[i].id, p, (depth - 1) as nat);
            }
        }
    }
}

/// What holds of an entry during a checkout: it is resolved, its file is
/// what it says and the way to it open, and `found` has it.
spec fn entry_holds(
    work: DirView<WorkFileView>,
    found: Map<Seq<u8>, Seq<u8>>,
    e: IndexEntryView,
) -> bool {
    &&& valid_utf8(e.path)
    &&& e.path.len() > 0
    &&& e.stage == 0
    &&& open_to(work, Seq::empty(), e.path)
    &&& !is_folder(work, e.path)
    &&& work.files.contains_key(e.path)
    &&& object_id(ObjectKind::Blob, stored_bytes(work.files[e.path])) == e.id
    &&& found.contains_key(e.path)
    &&& found[e.path] == e.id
}

/// The file of such an entry is what the entry says.
proof fn held_matches(
    work: DirView<WorkFileView>,
    found: Map<Seq<u8>, Seq<u8>>,
    e: IndexEntryView,
)
    requires
        entry_holds(work, found, e),
    ensures
        file_matches(work, e),
{
    open_seen(work, e.path);
}

/// It holds of all entries.
spec fn holds(st: Checkout, found: Map<Seq<u8>, Seq<u8>>) -> bool {
    &&& neat(st.work)
    &&& forall|e: IndexEntryView| #[trigger]
        st.entries.contains(e) ==> entry_holds(st.work, found, e)
}

/// Whether a part of a checkout left alone what lies outside the paths.
spec fn stays_inside(a: Checkout, b: Checkout, paths: spec_fn(Seq<u8>) -> bool) -> bool {
    &&& grows(a.work, b.work)
    &&& forall|q: Seq<u8>| #[trigger] is_link(b.work, q) ==> is_link(a.work, q) || paths(q)
    &&& forall|e: IndexEntryView| #[trigger]
        b.entries.contains(e) ==> a.entries.contains(e) || paths(e.path)
}

/// The paths within one.
spec fn paths_in(top: Seq<u8>) -> spec_fn(Seq<u8>) -> bool {
    |q: Seq<u8>| within(top, q)
}

/// The paths within the first `n` entries of a directory.
spec fn paths_among(dir: Seq<u8>, es: Seq<TreeEntryView>, n: nat) -> spec_fn(Seq<u8>) -> bool {
    |q: Seq<u8>| among(dir, es, n, q)
}

/// Whether a path lies within one of the first `n` entries of a directory.
spec fn among(dir: Seq<u8>, es: Seq<TreeEntryView>, n: nat, q: Seq<u8>) -> bool {
    exists|j: int| 0 <= j < n && within(child_path(dir, (#[trigger] es[j]).name), q)
}

/// Whether there is an entry with the path.
pub open spec fn has_path(es: Seq<IndexEntryView>, path: Seq<u8>) -> bool {
    exists|e: IndexEntryView| #[trigger] es.contains(e) && e.path == path
}

/// Whether the paths of `a` are paths of `b`.
spec fn paths_kept(a: Seq<IndexEntryView>, b: Seq<IndexEntryView>) -> bool {
    forall|path: Seq<u8>| #[trigger] has_path(a, path) ==> has_path(b, path)
}

/// Staging keeps paths.
proof fn upserted_keeps(es: Seq<IndexEntryView>, e: IndexEntryView)
    ensures
        paths_kept(es, upserted(es, e)),
{
    law_upsert_entries(es, e);
    let after = upserted(es, e);
    assert forall|path: Seq<u8>| #[trigger] has_path(es, path) implies has_path(after, path) by {
        let x = choose|x: IndexEntryView| #[trigger] es.contains(x) && x.path == path;
        if path == e.path {
            assert(after.contains(e));
        } else {
            assert(after.contains(x));
        }
    }
}

/// The path of an entry with a valid name in a directory with a valid path is
/// valid.
proof fn valid_child(prefix: Seq<u8>, name: Seq<u8>)
    requires
        valid_utf8(prefix),
        valid_utf8(name),
    ensures
        valid_utf8(child_path(prefix, name)),
{
    if prefix.len() > 0 {
        let slash = seq![SLASH];
        crate::notation::ascii_bytes_encode(slash);
        vstd::utf8::valid_utf8_concat(prefix, slash);
        vstd::utf8::valid_utf8_concat(prefix + slash, name);
    }
}

/// A blob that was read under an id has that id.
proof fn blob_has_id(s: Store, id: Seq<u8>, data: Seq<u8>)
    requires
        s.object(id) == Ok::<_, OdbErrorView>(ObjectView::Blob(data)),
    ensures
        object_id(ObjectKind::Blob, data) == id,
{
    law_read_has_id(s, id);
    let (kind, payload) = choose|kind: ObjectKind, payload: Seq<u8>| #[trigger]
        object_id(kind, payload) == id && payload_object(kind, payload) == Ok::<
            _,
            ParseErrorView,
        >(s.object(id)->Ok_0);
    match kind {
        ObjectKind::Blob => {},
        _ => {},
    }
}

/// A file that is checked out on an open way, with no link at its end, stands
/// there; a link replaces what is there.
pub proof fn checked_out_there(
    work: DirView<WorkFileView>,
    path: Seq<u8>,
    kind: FileKind,
    data: Seq<u8>,
    now: Time,
)
    requires
        neat(work),
        open_to(work, Seq::empty(), path),
        kind != FileKind::Symlink ==> !is_link(work, path),
        checked_out(work, path, kind, data, now).1 is None,
    ensures
        ({
            let after = checked_out(work, path, kind, data, now).0;
            &&& after.dirs == work.dirs
            &&& after.files.contains_key(path)
            &&& after.files == work.files.insert(path, after.files[path])
            &&& after.files[path].kind == kind
            &&& after.files[path].data == data
            &&& !is_folder(work, path)
            &&& kind == FileKind::Symlink ==> valid_utf8(data)
        }),
{
    if kind == FileKind::Symlink {
        open_place(work, path, false);
        let gone = work.without(path);
        assert(grows(work, gone));
        open_stays(work, gone, Seq::empty(), path);
        open_place(gone, path, false);
        let f = checked_file(kind, data, behind_link(work, path, data), now);
        assert(gone.files.insert(path, f) =~= work.files.insert(path, f));
    } else {
        open_place(work, path, true);
    }
}

/// A file that is checked out keeps what holds.
proof fn data_holds(
    s: Store,
    e: TreeEntryView,
    data: Seq<u8>,
    prefix: Seq<u8>,
    now: Time,
    st: Checkout,
    found: Map<Seq<u8>, Seq<u8>>,
)
    requires
        s.object(e.id) == Ok::<_, OdbErrorView>(ObjectView::Blob(data)),
        e.mode != EntryMode::Tree,
        e.mode != EntryMode::Gitlink,
        entry_ok(e),
        valid_utf8(e.name),
        proper(e.name),
        valid_utf8(prefix),
        opened(st.work, prefix),
        e.mode != EntryMode::Symlink ==> !is_link(st.work, child_path(prefix, e.name)),
        holds(st, found),
        checkout_data(e, data, prefix, now, st).1 is None,
    ensures
        holds(
            checkout_data(e, data, prefix, now, st).0,
            found.insert(child_path(prefix, e.name), e.id),
        ),
        stays_inside(
            st,
            checkout_data(e, data, prefix, now, st).0,
            paths_in(child_path(prefix, e.name)),
        ),
{
    let after = checkout_data(e, data, prefix, now, st).0;
    let path = child_path(prefix, e.name);
    let (kind, mode) = file_mode(e.mode);
    let entry = checked_entry(mode, data, e.id, path, now);
    let m = found.insert(path, e.id);
    assert(file_path(prefix, e.name) == path);
    valid_child(prefix, e.name);
    open_child(st.work, prefix, e.name);
    checked_out_there(st.work, path, kind, data, now);
    assert(after.entries == upserted(st.entries, entry));
    law_upsert_entries(st.entries, entry);
    blob_has_id(s, e.id, data);
    let f = after.work.files[path];
    assert(stored_bytes(f) == data) by {
        if kind == FileKind::Symlink {
            vstd::utf8::decode_utf8_encode_utf8(data);
        }
    }
    assert(grows(st.work, after.work));
    assert forall|x: IndexEntryView| #[trigger] after.entries.contains(x) implies entry_holds(
        after.work,
        m,
        x,
    ) by {
        if x != entry {
            assert(st.entries.contains(x));
            assert(entry_holds(st.work, found, x));
            assert(x.path != path);
            open_stays(st.work, after.work, Seq::empty(), x.path);
        } else {
            open_stays(st.work, after.work, Seq::empty(), path);
        }
    }
}

/// A submodule's directory keeps what holds.
proof fn submodule_holds(
    e: TreeEntryView,
    prefix: Seq<u8>,
    st: Checkout,
    found: Map<Seq<u8>, Seq<u8>>,
)
    requires
        entry_ok(e),
        valid_utf8(e.name),
        proper(e.name),
        valid_utf8(prefix),
        opened(st.work, prefix),
        holds(st, found),
        forall|x: IndexEntryView| #[trigger]
            st.entries.contains(x) ==> x.path != child_path(prefix, e.name),
        checkout_dir(file_path(prefix, e.name), st).1 is None,
    ensures
        holds(
            checkout_dir(file_path(prefix, e.name), st).0,
            found.insert(child_path(prefix, e.name), e.id),
        ),
        stays_inside(
            st,
            checkout_dir(file_path(prefix, e.name), st).0,
            paths_in(child_path(prefix, e.name)),
        ),
{
    let after = checkout_dir(file_path(prefix, e.name), st).0;
    let path = child_path(prefix, e.name);
    open_child(st.work, prefix, e.name);
    open_place(st.work, path, false);
    let m = found.insert(path, e.id);
    assert(after.work.files == st.work.files);
    assert(grows(st.work, after.work));
    assert forall|x: IndexEntryView| #[trigger] after.entries.contains(x) implies entry_holds(
        after.work,
        m,
        x,
    ) by {
        assert(entry_holds(st.work, found, x));
        open_stays(st.work, after.work, Seq::empty(), x.path);
    }
}

/// A directory with no link in its place is there once it was made.
proof fn dir_opened(work: DirView<WorkFileView>, dir: Seq<u8>)
    requires
        neat(work),
        dir.len() > 0 ==> open_to(work, Seq::empty(), dir) && !is_link(work, dir),
        dir_made(work, dir).1 is None,
    ensures
        opened(dir_made(work, dir).0, dir),
        neat(dir_made(work, dir).0),
        grows(work, dir_made(work, dir).0),
        dir_made(work, dir).0.files == work.files,
{
    let after = dir_made(work, dir).0;
    if dir.len() > 0 {
        open_place(work, dir, true);
        open_place(work, dir, false);
        assert(grows(work, after));
        open_stays(work, after, Seq::empty(), dir);
    }
}

/// A tree that is checked out can be walked, and keeps what holds.
proof fn tree_holds(
    s: Store,
    id: Seq<u8>,
    prefix: Seq<u8>,
    now: Time,
    fuel: nat,
    st: Checkout,
    found: Map<Seq<u8>, Seq<u8>>,
)
    requires
        unhindered(s, st.work, id, prefix, fuel),
        valid_utf8(prefix),
        prefix.len() > 0 ==> open_to(st.work, Seq::empty(), prefix) && !is_link(st.work, prefix),
        holds(st, found),
        forall|e: IndexEntryView| #[trigger] st.entries.contains(e) ==> !within(prefix, e.path),
        checkout_tree(s, id, prefix, now, fuel, st).1 is None,
    ensures
        tree_files(s, id, prefix, true, fuel, found) is Ok,
        holds(
            checkout_tree(s, id, prefix, now, fuel, st).0,
            tree_files(s, id, prefix, true, fuel, found)->Ok_0,
        ),
        stays_inside(
            st,
            checkout_tree(s, id, prefix, now, fuel, st).0,
            paths_in(prefix),
        ),
    decreases fuel, 0nat,
{
    match s.object(id) {
        Ok(ObjectView::Tree(es)) => {
            let inside = checkout_dir(prefix, st).0;
            dir_opened(st.work, prefix);
            read_entries_ok(s, id, es);
            assert(holds(inside, found)) by {
                assert forall|x: IndexEntryView| #[trigger]
                    inside.entries.contains(x) implies entry_holds(inside.work, found, x) by {
                    assert(entry_holds(st.work, found, x));
                    open_stays(st.work, inside.work, Seq::empty(), x.path);
                }
            }
            unhindered_there(s, st.work, inside.work, id, prefix, fuel);
            let n = es.len();
            entries_hold(s, id, es, n, prefix, now, (fuel - 1) as nat, inside, found);
            let after = checkout_entries(s, es, n, prefix, now, (fuel - 1) as nat, inside).0;
            assert forall|q: Seq<u8>| among(prefix, es, n, q) implies #[trigger] within(
                prefix,
                q,
            ) by {
                let j = choose|j: int|
                    0 <= j < n && within(child_path(prefix, (#[trigger] es[j]).name), q);
                assert(entry_ok(es[j]));
                within_dir(prefix, es[j].name, q);
            }
            assert forall|q: Seq<u8>| #[trigger] is_link(after.work, q) implies is_link(
                st.work,
                q,
            ) || paths_in(prefix)(q) by {
                if !is_link(inside.work, q) {
                    assert(paths_among(prefix, es, n)(q));
                    assert(within(prefix, q));
                }
            }
            assert forall|e: IndexEntryView| #[trigger] after.entries.contains(e) implies
                st.entries.contains(e) || paths_in(prefix)(e.path) by {
                if !inside.entries.contains(e) {
                    assert(paths_among(prefix, es, n)(e.path));
                    assert(within(prefix, e.path));
                }
            }
        },
        _ => {},
    }
}

/// So do the entries of a tree.
proof fn entries_hold(
    s: Store,
    id: Seq<u8>,
    es: Seq<TreeEntryView>,
    n: nat,
    prefix: Seq<u8>,
    now: Time,
    fuel: nat,
    st: Checkout,
    found: Map<Seq<u8>, Seq<u8>>,
)
    requires
        s.object(id) == Ok::<_, OdbErrorView>(ObjectView::Tree(es)),
        entries_ok(es),
        n <= es.len(),
        unhindered(s, st.work, id, prefix, fuel + 1),
        valid_utf8(prefix),
        opened(st.work, prefix),
        holds(st, found),
        forall|e: IndexEntryView| #[trigger] st.entries.contains(e) ==> !within(prefix, e.path),
        checkout_entries(s, es, n, prefix, now, fuel, st).1 is None,
    ensures
        entries_files(s, es, n, prefix, true, fuel, found) is Ok,
        holds(
            checkout_entries(s, es, n, prefix, now, fuel, st).0,
            entries_files(s, es, n, prefix, true, fuel, found)->Ok_0,
        ),
        stays_inside(
            st,
            checkout_entries(s, es, n, prefix, now, fuel, st).0,
            paths_among(prefix, es, n),
        ),
    decreases fuel, n + 1,
{
    if n > 0 {
        let k = (n - 1) as nat;
        entries_hold(s, id, es, k, prefix, now, fuel, st, found);
        let done = checkout_entries(s, es, k, prefix, now, fuel, st).0;
        let m = entries_files(s, es, k, prefix, true, fuel, found)->Ok_0;
        let e = es[n - 1];
        let p = child_path(prefix, e.name);
        assert(entry_ok(e));
        opened_stays(st.work, done.work, prefix);
        assert forall|q: Seq<u8>| within(p, q) implies !#[trigger] among(prefix, es, k, q) by {
            others_apart(prefix, es, n - 1, q);
        }
        assert forall|q: Seq<u8>| within(p, q) && #[trigger] is_link(done.work, q) implies is_link(
            st.work,
            q,
        ) by {
            if !is_link(st.work, q) {
                assert(paths_among(prefix, es, k)(q));
            }
        }
        assert forall|x: IndexEntryView| #[trigger] done.entries.contains(x) implies !within(
            p,
            x.path,
        ) by {
            if within(p, x.path) {
                within_dir(prefix, e.name, x.path);
                if !st.entries.contains(x) {
                    assert(paths_among(prefix, es, k)(x.path));
                }
            }
        }
        let after = checkout_entries(s, es, n, prefix, now, fuel, st).0;
        if e.mode == EntryMode::Tree {
            unhindered_there(s, st.work, done.work, e.id, p, fuel);
            open_child(done.work, prefix, e.name);
            valid_child(prefix, e.name);
            tree_holds(s, e.id, p, now, fuel, done, m);
        } else if e.mode == EntryMode::Gitlink {
            submodule_holds(e, prefix, done, m);
        } else {
            match s.object(e.id) {
                Ok(ObjectView::Blob(data)) => {
                    data_holds(s, e, data, prefix, now, done, m);
                },
                _ => {},
            }
        }
        inside_more(prefix, es, n, st, done, after);
    }
}

/// A path within an entry lies within none before it.
proof fn others_apart(prefix: Seq<u8>, es: Seq<TreeEntryView>, k: int, q: Seq<u8>)
    requires
        entries_ok(es),
        names_unique(es),
        0 <= k < es.len(),
        within(child_path(prefix, es[k].name), q),
    ensures
        !among(prefix, es, k as nat, q),
{
    if among(prefix, es, k as nat, q) {
        let j = choose|j: int|
            0 <= j < k && within(child_path(prefix, (#[trigger] es[j]).name), q);
        assert(entry_ok(es[j]) && entry_ok(es[k]));
        siblings_apart(prefix, es[j].name, es[k].name, q);
        assert(es[j].name != es[k].name);
    }
}

/// One more entry of a directory.
proof fn inside_more(
    prefix: Seq<u8>,
    es: Seq<TreeEntryView>,
    n: nat,
    a: Checkout,
    b: Checkout,
    c: Checkout,
)
    requires
        0 < n <= es.len(),
        stays_inside(a, b, paths_among(prefix, es, (n - 1) as nat)),
        stays_inside(b, c, paths_in(child_path(prefix, es[n - 1].name))),
    ensures
        stays_inside(a, c, paths_among(prefix, es, n)),
{
    assert forall|q: Seq<u8>| among(prefix, es, (n - 1) as nat, q) || within(
        child_path(prefix, es[n - 1].name),
        q,
    ) implies #[trigger] among(prefix, es, n, q) by {
        if among(prefix, es, (n - 1) as nat, q) {
            let j = choose|j: int|
                0 <= j < n - 1 && within(child_path(prefix, (#[trigger] es[j]).name), q);
            assert(within(child_path(prefix, es[j].name), q));
        }
    }
    assert forall|q: Seq<u8>| #[trigger] is_link(c.work, q) implies is_link(a.work, q)
        || paths_among(prefix, es, n)(q) by {
        if !is_link(a.work, q) {
            assert(is_link(b.work, q) || paths_in(child_path(prefix, es[n - 1].name))(q));
            assert(among(prefix, es, n, q));
        }
    }
    assert forall|e: IndexEntryView| #[trigger] c.entries.contains(e) implies a.entries.contains(e)
        || paths_among(prefix, es, n)(e.path) by {
        if !a.entries.contains(e) {
            assert(b.entries.contains(e) || paths_in(child_path(prefix, es[n - 1].name))(e.path));
            assert(among(prefix, es, n, e.path));
        }
    }
    assert(grows(a.work, c.work)) by {
        assert forall|d: Seq<u8>| #[trigger] is_folder(a.work, d) implies is_folder(c.work, d) && (
        !a.work.files.contains_key(d) ==> !c.work.files.contains_key(d)) by {
            assert(is_folder(b.work, d));
        }
    }
}

/// What holds of the entries of a whole checkout.
proof fn checkout_holds(repo: RepoView, tree: Seq<u8>, now: Time)
    requires
        checkout_outcome(repo, tree, now).1 is None,
        neat(repo.work),
        unhindered(repo.store(), repo.work, tree, Seq::empty(), object_bound(repo.store())),
    ensures
        files_of_tree(repo.store(), tree, true) is Ok,
        holds(
            checkout_outcome(repo, tree, now).0,
            files_of_tree(repo.store(), tree, true)->Ok_0,
        ),
{
    let start = Checkout { work: repo.work, entries: Seq::empty() };
    let none = Map::<Seq<u8>, Seq<u8>>::empty();
    assert(holds(start, none));
    assert(valid_utf8(Seq::<u8>::empty()));
    tree_holds(
        repo.store(),
        tree,
        Seq::empty(),
        now,
        object_bound(repo.store()),
        start,
        none,
    );
}

/// Law: after a checkout with nothing in its way, the file of every index
/// entry is what the entry says, and the tree lists the entry's id under its
/// path.
pub proof fn law_checkout_matches(repo: RepoView, tree: Seq<u8>, now: Time)
    requires
        checkout_outcome(repo, tree, now).1 is None,
        neat(repo.work),
        unhindered(repo.store(), repo.work, tree, Seq::empty(), object_bound(repo.store())),
    ensures
        files_of_tree(repo.store(), tree, true) is Ok,
        forall|e: IndexEntryView| #[trigger]
            checkout_outcome(repo, tree, now).0.entries.contains(e) ==> {
                &&& file_matches(checkout_outcome(repo, tree, now).0.work, e)
                &&& e.stage == 0
                &&& e.path.len() > 0
                &&& files_of_tree(repo.store(), tree, true)->Ok_0.contains_key(e.path)
                &&& files_of_tree(repo.store(), tree, true)->Ok_0[e.path] == e.id
            },
{
    checkout_holds(repo, tree, now);
    let st = checkout_outcome(repo, tree, now).0;
    let found = files_of_tree(repo.store(), tree, true)->Ok_0;
    assert forall|e: IndexEntryView| #[trigger] st.entries.contains(e) implies file_matches(
        st.work,
        e,
    ) && entry_holds(st.work, found, e) by {
        held_matches(st.work, found, e);
    }
}

/// Whether the same can be read from two stores.
pub open spec fn same_objects(a: Store, b: Store) -> bool {
    forall|id: Seq<u8>| #[trigger] a.object(id) == b.object(id)
}

/// Writing the index does not change any object.
proof fn index_write_keeps_objects(repo: RepoView, bytes: Seq<u8>)
    ensures
        same_objects(
            repo.store(),
            (RepoView { git: repo.git.written(ascii("index"@), bytes), ..repo }).store(),
        ),
{
    reveal_strlit("index");
    reveal_strlit("objects/");
    let p = ascii("index"@);
    let git = repo.git;
    let after = git.written(p, bytes);
    assert forall|id: Seq<u8>| #[trigger] repo.store().object(id) == (RepoView {
        git: after,
        ..repo
    }).store().object(id) by {
        let q = crate::odb::loose_path(id);
        assert(q[0] == ascii("objects/"@)[0]);
        assert(p[0] == 105u8);
        assert(q[0] == 111u8);
        assert(q != p);
        assert forall|d: Seq<u8>| !is_above(d, p) by {
            if is_above(d, p) {
                let k = d.len() as int;
                assert(p[k] == SLASH);
            }
        }
        assert(!is_above(p, q)) by {
            if is_above(p, q) {
                assert(q.take(5)[0] == q[0]);
            }
        }
        assert(after.is_dir(q) == git.is_dir(q));
        assert(after.blocked(q) == git.blocked(q)) by {
            if git.blocked(q) {
                let d = choose|d: Seq<u8>|
                    is_above(d, q) && #[trigger] git.files.contains_key(d);
                assert(after.files.contains_key(d));
            }
            if after.blocked(q) {
                let d = choose|d: Seq<u8>|
                    is_above(d, q) && #[trigger] after.files.contains_key(d);
                assert(git.files.contains_key(d));
            }
        }
        assert(after.read(q) == git.read(q));
    }
}

/// A walk that succeeds also does with the same objects elsewhere and with
/// more fuel.
proof fn walk_again(
    a: Store,
    b: Store,
    id: Seq<u8>,
    prefix: Seq<u8>,
    fuel: nat,
    more: nat,
    found: Map<Seq<u8>, Seq<u8>>,
)
    requires
        same_objects(a, b),
        fuel <= more,
        tree_files(a, id, prefix, true, fuel, found) is Ok,
    ensures
        tree_files(b, id, prefix, true, more, found) == tree_files(
            a,
            id,
            prefix,
            true,
            fuel,
            found,
        ),
    decreases fuel, 0nat,
{
    assert(a.object(id) == b.object(id));
    match a.object(id) {
        Ok(ObjectView::Tree(es)) => {
            walk_entries_again(
                a,
                b,
                es,
                es.len(),
                prefix,
                (fuel - 1) as nat,
                (more - 1) as nat,
                found,
            );
        },
        _ => {},
    }
}

/// So does one over the entries of a tree.
proof fn walk_entries_again(
    a: Store,
    b: Store,
    es: Seq<TreeEntryView>,
    n: nat,
    prefix: Seq<u8>,
    fuel: nat,
    more: nat,
    found: Map<Seq<u8>, Seq<u8>>,
)
    requires
        same_objects(a, b),
        fuel <= more,
        entries_files(a, es, n, prefix, true, fuel, found) is Ok,
    ensures
        entries_files(b, es, n, prefix, true, more, found) == entries_files(
            a,
            es,
            n,
            prefix,
            true,
            fuel,
            found,
        ),
    decreases fuel, n + 1,
{
    if n > 0 {
        walk_entries_again(a, b, es, (n - 1) as nat, prefix, fuel, more, found);
        let m = entries_files(a, es, (n - 1) as nat, prefix, true, fuel, found)->Ok_0;
        let e = es[n - 1];
        if e.mode == EntryMode::Tree {
            walk_again(a, b, e.id, child_path(prefix, e.name), fuel, more, m);
        }
    }
}

/// The resolved paths are those of the resolved entries.
proof fn tracked_has(es: Seq<IndexEntryView>, e: IndexEntryView)
    requires
        es.contains(e),
        e.stage == 0,
    ensures
        tracked_paths(es).contains(e.path),
    decreases es.len(),
{
    let i = choose|i: int| 0 <= i < es.len() && es[i] == e;
    if i < es.len() - 1 {
        assert(es.drop_last()[i] == e);
        tracked_has(es.drop_last(), e);
    }
}

/// Whether the ways to the files of old entries lead nowhere else.
pub open spec fn own_ways(work: DirView<WorkFileView>, old_entries: Seq<IndexEntryView>) -> bool {
    forall|i: int|
        0 <= i < old_entries.len() && (#[trigger] old_entries[i]).stage == 0 && valid_utf8(
            old_entries[i].path,
        ) ==> own_way(work, Seq::empty(), old_entries[i].path)
}

/// Files of entries that are kept stay as they are, where the others lead
/// nowhere else.
proof fn stale_keeps(
    work: DirView<WorkFileView>,
    old_entries: Seq<IndexEntryView>,
    n: nat,
    kept: Set<Seq<u8>>,
)
    requires
        n <= old_entries.len(),
        own_ways(work, old_entries),
    ensures
        ({
            let after = without_stale(work, old_entries, n, kept);
            &&& after.dirs == work.dirs
            &&& forall|p: Seq<u8>| #[trigger]
                after.files.contains_key(p) ==> work.files.contains_key(p) && after.files[p]
                    == work.files[p]
            &&& forall|p: Seq<u8>| #[trigger]
                work.files.contains_key(p) && kept.contains(p) && p.len() > 0
                    ==> after.files.contains_key(p)
        }),
    decreases n,
{
    if n > 0 {
        stale_keeps(work, old_entries, (n - 1) as nat, kept);
        let done = without_stale(work, old_entries, (n - 1) as nat, kept);
        let e = old_entries[n - 1];
        if e.stage == 0 && !kept.contains(e.path) {
            if valid_utf8(e.path) {
                assert forall|p: Seq<u8>| #[trigger] is_link(done, p) implies is_link(
                    work,
                    p,
                ) by {}
                own_way_stays(work, done, Seq::empty(), e.path);
                own_way_walks(done, Seq::empty(), e.path, MAX_LINKS as nat);
            }
        }
    }
}

/// Entries that match both sides make no changes.
proof fn no_changes(
    work: DirView<WorkFileView>,
    head: Map<Seq<u8>, Seq<u8>>,
    es: Seq<IndexEntryView>,
    n: nat,
)
    requires
        n <= es.len(),
        forall|e: IndexEntryView| #[trigger]
            es.contains(e) ==> file_matches(work, e) && head.contains_key(e.path) && head[e.path]
                == e.id,
    ensures
        tracked_changes(work, head, es, n) == Ok::<_, IoError>(Seq::<ChangeView>::empty()),
    decreases n,
{
    if n > 0 {
        no_changes(work, head, es, (n - 1) as nat);
        let e = es[n - 1];
        assert(es.contains(e));
        assert(entry_changes(work, head, e) == Ok::<_, IoError>(Seq::<ChangeView>::empty()));
        assert(Seq::<ChangeView>::empty() + Seq::<ChangeView>::empty() =~= Seq::<
            ChangeView,
        >::empty());
    }
}

/// Whether no submodule lies in a tree or below it, down to `depth` trees.
pub open spec fn no_links(s: Store, id: Seq<u8>, depth: nat) -> bool
    decreases depth,
{
    s.object(id) matches Ok(ObjectView::Tree(es)) ==> forall|i: int| #![trigger es[i]]
        0 <= i < es.len() ==> es[i].mode != EntryMode::Gitlink && (es[i].mode == EntryMode::Tree
            && depth > 0 ==> no_links(s, es[i].id, (depth - 1) as nat))
}

/// Whether there is an entry for each of the files.
pub open spec fn all_staged(found: Map<Seq<u8>, Seq<u8>>, es: Seq<IndexEntryView>) -> bool {
    forall|path: Seq<u8>| #[trigger] found.contains_key(path) ==> has_path(es, path)
}

/// A tree without submodules that is checked out has all its files staged.
pub proof fn tree_staged(
    s: Store,
    id: Seq<u8>,
    prefix: Seq<u8>,
    now: Time,
    fuel: nat,
    st: Checkout,
    found: Map<Seq<u8>, Seq<u8>>,
)
    requires
        no_links(s, id, fuel),
        all_staged(found, st.entries),
        checkout_tree(s, id, prefix, now, fuel, st).1 is None,
        tree_files(s, id, prefix, true, fuel, found) is Ok,
    ensures
        all_staged(
            tree_files(s, id, prefix, true, fuel, found)->Ok_0,
            checkout_tree(s, id, prefix, now, fuel, st).0.entries,
        ),
    decreases fuel, 0nat,
{
    match s.object(id) {
        Ok(ObjectView::Tree(es)) => {
            let inside = checkout_dir(plain_path(prefix), st).0;
            entries_staged(s, id, es, es.len(), prefix, now, (fuel - 1) as nat, inside, found);
        },
        _ => {},
    }
}

/// So have the entries of a tree.
proof fn entries_staged(
    s: Store,
    id: Seq<u8>,
    es: Seq<TreeEntryView>,
    n: nat,
    prefix: Seq<u8>,
    now: Time,
    fuel: nat,
    st: Checkout,
    found: Map<Seq<u8>, Seq<u8>>,
)
    requires
        s.object(id) == Ok::<_, OdbErrorView>(ObjectView::Tree(es)),
        no_links(s, id, fuel + 1),
        n <= es.len(),
        all_staged(found, st.entries),
        checkout_entries(s, es, n, prefix, now, fuel, st).1 is None,
        entries_files(s, es, n, prefix, true, fuel, found) is Ok,
    ensures
        all_staged(
            entries_files(s, es, n, prefix, true, fuel, found)->Ok_0,
            checkout_entries(s, es, n, prefix, now, fuel, st).0.entries,
        ),
    decreases fuel, n + 1,
{
    if n > 0 {
        entries_staged(s, id, es, (n - 1) as nat, prefix, now, fuel, st, found);
        let done = checkout_entries(s, es, (n - 1) as nat, prefix, now, fuel, st).0;
        let m = entries_files(s, es, (n - 1) as nat, prefix, true, fuel, found)->Ok_0;
        let e = es[n - 1];
        let path = child_path(prefix, e.name);
        if e.mode == EntryMode::Tree {
            tree_staged(s, e.id, path, now, fuel, done, m);
        } else {
            let data = s.object(e.id)->Ok_0->Blob_0;
            let (kind, mode) = super::checkout::file_mode(e.mode);
            let entry = super::checkout::checked_entry(mode, data, e.id, path, now);
            let after = checkout_leaf(s, e, prefix, now, done).0.entries;
            assert(after == upserted(done.entries, entry));
            law_upsert_entries(done.entries, entry);
            upserted_keeps(done.entries, entry);
            assert(has_path(after, path));
        }
    }
}

/// The paths of a list are those of its entries.
proof fn entry_paths_has(es: Seq<IndexEntryView>, path: Seq<u8>)
    ensures
        entry_paths(es).contains(path) <==> has_path(es, path),
    decreases es.len(),
{
    if es.len() > 0 {
        let t = es.drop_last();
        entry_paths_has(t, path);
        assert(es.contains(es[es.len() - 1]));
        if has_path(t, path) {
            let e = choose|e: IndexEntryView| #[trigger] t.contains(e) && e.path == path;
            let i = choose|i: int| 0 <= i < t.len() && t[i] == e;
            assert(es[i] == e);
            assert(es.contains(e));
        }
        if has_path(es, path) {
            let e = choose|e: IndexEntryView| #[trigger] es.contains(e) && e.path == path;
            let i = choose|i: int| 0 <= i < es.len() && es[i] == e;
            if i < t.len() {
                assert(t[i] == e);
                assert(t.contains(e));
            }
        }
    }
}

/// Where all paths are known, none is removed.
proof fn nothing_removed(paths: Seq<Seq<u8>>, n: nat, known: Set<Seq<u8>>)
    requires
        n <= paths.len(),
        forall|i: int| 0 <= i < paths.len() ==> known.contains(#[trigger] paths[i]),
    ensures
        removed_changes(paths, n, known) == Seq::<ChangeView>::empty(),
    decreases n,
{
    if n > 0 {
        nothing_removed(paths, (n - 1) as nat, known);
    }
}

/// Law: after a switch to the tree of the commit at HEAD, with nothing in its
/// way, no submodule and an index that its format can carry, the status shows
/// no tracked file as changed.
pub proof fn law_switch_then_status(repo: RepoView, tree: Seq<u8>, now: Time)
    requires
        switched(repo, tree, now).1 is None,
        neat(repo.work),
        unhindered(repo.store(), repo.work, tree, Seq::empty(), object_bound(repo.store())),
        own_ways(checkout_outcome(repo, tree, now).0.work, index_of(repo.git)->Ok_0.entries),
        index_ok(staged_index(repo, tree, now)),
        sha1_digest(index_body(staged_index(repo, tree, now))).len() == 20,
        countable(repo.store()),
        no_links(repo.store(), tree, object_bound(repo.store())),
        head_tree(switched(repo, tree, now).0) == Ok::<_, WorkdirErrorView>(Some(tree)),
    ensures
        ({
            let after = switched(repo, tree, now).0;
            let paths = sorted_keys(after.work.files.dom());
            status_of(after) == Ok::<_, WorkdirErrorView>(
                untracked_changes(
                    paths,
                    paths.len(),
                    tracked_paths(staged_index(repo, tree, now).entries),
                ),
            )
        }),
{
    let st = checkout_outcome(repo, tree, now).0;
    let index = staged_index(repo, tree, now);
    let after = switched(repo, tree, now).0;
    let before = index_of(repo.git)->Ok_0;
    let es = st.entries;
    checkout_holds(repo, tree, now);
    stale_keeps(st.work, before.entries, before.entries.len(), tracked_paths(es));
    law_index_round_trip(index);
    assert(after.git == repo.git.written(ascii("index"@), index_bytes(index)));
    assert(after.git.read(ascii("index"@)) == Ok::<_, IoError>(index_bytes(index)));
    assert(index_of(after.git) == Ok::<_, IndexErrorView>(index));
    let m = files_of_tree(repo.store(), tree, true)->Ok_0;
    index_write_keeps_objects(repo, index_bytes(index));
    assert(same_objects(repo.store(), after.store())) by {
        assert forall|id: Seq<u8>| #[trigger] repo.store().object(id) == after.store().object(
            id,
        ) by {
            assert(repo.store().object(id) == (RepoView {
                git: repo.git.written(ascii("index"@), index_bytes(index)),
                ..repo
            }).store().object(id));
        }
    }
    assert(object_bound(repo.store()) <= object_bound(
        after.store(),
    )) by {
        let files = repo.git.files;
        assert(after.git.files.dom() =~= files.dom().insert(ascii("index"@)));
        assert(files.len() <= after.git.files.len());
    }
    walk_again(
        repo.store(),
        after.store(),
        tree,
        Seq::empty(),
        object_bound(repo.store()),
        object_bound(after.store()),
        Map::empty(),
    );
    assert(head_files(after) == Ok::<_, WorkdirErrorView>(m));
    assert forall|e: IndexEntryView| #[trigger] es.contains(e) implies file_matches(after.work, e)
        && m.contains_key(e.path) && m[e.path] == e.id by {
        assert(entry_holds(st.work, m, e));
        tracked_has(es, e);
        assert(after.work.files.contains_key(e.path));
        assert(grows(st.work, after.work));
        open_stays(st.work, after.work, Seq::empty(), e.path);
        held_matches(after.work, m, e);
    }
    no_changes(after.work, m, es, es.len());
    let paths = sorted_keys(after.work.files.dom());
    let others = untracked_changes(paths, paths.len(), tracked_paths(es));
    let gone = sorted_keys(m.dom());
    assert(removed_changes(gone, gone.len(), entry_paths(es)) == Seq::<ChangeView>::empty()) by {
        let start = Checkout { work: repo.work, entries: Seq::empty() };
        tree_staged(
            repo.store(),
            tree,
            Seq::empty(),
            now,
            object_bound(repo.store()),
            start,
            Map::empty(),
        );
        tree_files_finite(
            repo.store(),
            tree,
            Seq::empty(),
            true,
            object_bound(repo.store()),
            Map::empty(),
        );
        sorted_keys_lists(m.dom());
        assert forall|i: int| 0 <= i < gone.len() implies entry_paths(es).contains(
            #[trigger] gone[i],
        ) by {
            assert(m.contains_key(gone[i]));
            entry_paths_has(es, gone[i]);
        }
        nothing_removed(gone, gone.len(), entry_paths(es));
    }
    assert(Seq::<ChangeView>::empty() + Seq::<ChangeView>::empty() + others =~= others);
}

/// The index that a switch writes.
pub open spec fn staged_index(repo: RepoView, tree: Seq<u8>, now: Time) -> IndexView {
    IndexView {
        entries: checkout_outcome(repo, tree, now).0.entries,
        extensions: Seq::empty(),
    }
}

/// Whether a checkout says that a tree lies below itself.
pub open spec fn checkout_says_cyclic(fault: Option<WorkdirErrorView>) -> bool {
    fault matches Some(WorkdirErrorView::Odb(e)) && e is CyclicObjects
}

/// With all trees above of greater rank, there is fuel enough.
proof fn checkout_tree_ends(
    s: Store,
    id: Seq<u8>,
    prefix: Seq<u8>,
    now: Time,
    fuel: nat,
    st: Checkout,
    rank: spec_fn(Seq<u8>) -> nat,
    above: Set<Seq<u8>>,
)
    requires
        trees_ranked(s, rank),
        readable(s).finite(),
        id.len() == 20,
        readable(s).difference(above).len() < fuel,
        forall|a: Seq<u8>| #[trigger] above.contains(a) ==> rank(id) < rank(a),
    ensures
        !checkout_says_cyclic(checkout_tree(s, id, prefix, now, fuel, st).1),
    decreases fuel, 0nat,
{
    reading_finds_no_cycle(s, id);
    match s.object(id) {
        Ok(ObjectView::Tree(es)) => {
            assert(!above.contains(id));
            readable(s).lemma_set_insert_diff_decreases(above, id);
            checkout_entries_end(
                s,
                id,
                es,
                es.len(),
                prefix,
                now,
                (fuel - 1) as nat,
                checkout_dir(plain_path(prefix), st).0,
                rank,
                above.insert(id),
            );
        },
        _ => {},
    }
}

/// So there is for the entries of a tree.
proof fn checkout_entries_end(
    s: Store,
    id: Seq<u8>,
    es: Seq<TreeEntryView>,
    n: nat,
    prefix: Seq<u8>,
    now: Time,
    fuel: nat,
    st: Checkout,
    rank: spec_fn(Seq<u8>) -> nat,
    above: Set<Seq<u8>>,
)
    requires
        trees_ranked(s, rank),
        readable(s).finite(),
        s.object(id) == Ok::<_, OdbErrorView>(ObjectView::Tree(es)),
        n <= es.len(),
        readable(s).difference(above).len() < fuel,
        forall|a: Seq<u8>| #[trigger] above.contains(a) ==> rank(id) <= rank(a),
    ensures
        !checkout_says_cyclic(checkout_entries(s, es, n, prefix, now, fuel, st).1),
    decreases fuel, n + 1,
{
    if n > 0 {
        checkout_entries_end(s, id, es, (n - 1) as nat, prefix, now, fuel, st, rank, above);
        let (done, fault) = checkout_entries(s, es, (n - 1) as nat, prefix, now, fuel, st);
        let e = es[n - 1];
        if fault is None {
            if e.mode == EntryMode::Tree {
                assert(refers(s.object(id)->Ok_0, e.id));
                law_stored_ids(s, id, e.id);
                checkout_tree_ends(
                    s,
                    e.id,
                    child_path(prefix, e.name),
                    now,
                    fuel,
                    done,
                    rank,
                    above,
                );
            } else {
                reading_finds_no_cycle(s, e.id);
            }
        }
    }
}

/// Law: where no tree lies below itself, a checkout never says that one
/// does.
pub proof fn law_checkout_ends(
    repo: RepoView,
    tree: Seq<u8>,
    now: Time,
    rank: spec_fn(Seq<u8>) -> nat,
)
    requires
        countable(repo.store()),
        tree.len() == 20,
        trees_ranked(repo.store(), rank),
    ensures
        !checkout_says_cyclic(checkout_outcome(repo, tree, now).1),
{
    let s = repo.store();
    readable_bound(s);
    assert(readable(s).difference(Set::empty()) =~= readable(s));
    checkout_tree_ends(
        s,
        tree,
        Seq::empty(),
        now,
        object_bound(s),
        Checkout { work: repo.work, entries: Seq::empty() },
        rank,
        Set::empty(),
    );
}

} // verus!
