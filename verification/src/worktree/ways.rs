//! Ways in a working tree that no link turns aside.

use vstd::prelude::*;

use super::places::{is_folder, place, seen, standing, walked, PlaceView, MAX_LINKS};
use super::{FileKind, WorkFileView};
use crate::bytes::{ascii, upto, upto_is, upto_spec, SLASH};
use crate::dir::{is_above, DirView};
use crate::files::IoError;
use crate::treewalk::child_path;

verus! {

/// Whether a link stands at a path.
pub open spec fn is_link(work: DirView<WorkFileView>, path: Seq<u8>) -> bool {
    work.files.contains_key(path) && work.files[path].kind == FileKind::Symlink
}

/// A name that stands for itself.
pub open spec fn proper(name: Seq<u8>) -> bool {
    name.len() > 0 && name != ascii("."@) && name != ascii(".."@)
}

/// Whether no file stands where a directory is.
pub open spec fn neat(work: DirView<WorkFileView>) -> bool {
    forall|p: Seq<u8>| #[trigger] work.files.contains_key(p) ==> !is_folder(work, p)
}

/// Whether the way from the directory `at` along `rest` has proper names, and
/// all its directories are there.
pub open spec fn open_to(work: DirView<WorkFileView>, at: Seq<u8>, rest: Seq<u8>) -> bool
    decreases rest.len(),
{
    let k = upto(rest, SLASH);
    let p = child_path(at, rest.take(k));
    &&& proper(rest.take(k))
    &&& 0 <= k < rest.len() ==> is_folder(work, p) && !work.files.contains_key(p) && open_to(
        work,
        p,
        rest.skip(k + 1),
    )
}

/// Whether a directory and the way to it are there; the top always is.
pub open spec fn opened(work: DirView<WorkFileView>, dir: Seq<u8>) -> bool {
    dir.len() > 0 ==> open_to(work, Seq::empty(), dir) && is_folder(work, dir)
        && !work.files.contains_key(dir)
}

/// Whether what is open in one tree is open in the other.
pub open spec fn grows(a: DirView<WorkFileView>, b: DirView<WorkFileView>) -> bool {
    forall|d: Seq<u8>| #[trigger]
        is_folder(a, d) ==> is_folder(b, d) && (!a.files.contains_key(d)
            ==> !b.files.contains_key(d))
}

/// Two steps down are one.
proof fn child_path_more(at: Seq<u8>, rest: Seq<u8>, k: int)
    requires
        0 < k < rest.len(),
        rest[k] == SLASH,
    ensures
        child_path(child_path(at, rest.take(k)), rest.skip(k + 1)) == child_path(at, rest),
{
    assert(child_path(child_path(at, rest.take(k)), rest.skip(k + 1)) =~= child_path(at, rest));
}

/// An open way leads where it says, unless a link stands at its end.
pub proof fn open_walks(
    work: DirView<WorkFileView>,
    at: Seq<u8>,
    rest: Seq<u8>,
    links: nat,
    follow: bool,
)
    requires
        open_to(work, at, rest),
        follow ==> !is_link(work, child_path(at, rest)),
    ensures
        walked(work, at, rest, None, links, follow) == PlaceView::At(child_path(at, rest)),
    decreases rest.len(),
{
    let k = upto(rest, SLASH);
    upto_spec(rest, SLASH);
    if k < rest.len() {
        child_path_more(at, rest, k);
        open_walks(work, child_path(at, rest.take(k)), rest.skip(k + 1), links, follow);
    } else {
        assert(rest.take(k) =~= rest);
    }
}

/// An open way leads where it says.
pub proof fn open_place(work: DirView<WorkFileView>, path: Seq<u8>, follow: bool)
    requires
        open_to(work, Seq::empty(), path),
        follow ==> !is_link(work, path),
    ensures
        place(work, path, follow) == PlaceView::At(path),
{
    open_walks(work, Seq::empty(), path, MAX_LINKS as nat, follow);
}

/// A file on an open way is seen.
pub proof fn open_seen(work: DirView<WorkFileView>, path: Seq<u8>)
    requires
        open_to(work, Seq::empty(), path),
        work.files.contains_key(path),
        !is_folder(work, path),
    ensures
        seen(work, path) == Ok::<_, IoError>(work.files[path]),
{
    open_place(work, path, false);
    assert(standing(work, path) == Ok::<_, IoError>(work.files[path]));
}

/// A way that is open to a directory is open to what lies in it.
proof fn open_child_from(work: DirView<WorkFileView>, at: Seq<u8>, rest: Seq<u8>, name: Seq<u8>)
    requires
        open_to(work, at, rest),
        is_folder(work, child_path(at, rest)),
        !work.files.contains_key(child_path(at, rest)),
        proper(name),
        !name.contains(SLASH),
    ensures
        open_to(work, at, rest + seq![SLASH] + name),
    decreases rest.len(),
{
    let whole = rest + seq![SLASH] + name;
    let k = upto(rest, SLASH);
    upto_spec(rest, SLASH);
    assert forall|j: int| 0 <= j < k implies whole[j] != SLASH by {
        assert(whole[j] == rest[j]);
    }
    upto_is(whole, SLASH, k);
    assert(whole.take(k) =~= rest.take(k));
    if k < rest.len() {
        let p = child_path(at, rest.take(k));
        child_path_more(at, rest, k);
        open_child_from(work, p, rest.skip(k + 1), name);
        assert(whole.skip(k + 1) =~= rest.skip(k + 1) + seq![SLASH] + name);
    } else {
        assert(rest.take(k) =~= rest);
        assert(whole.skip(k + 1) =~= name);
        open_name(work, rest, name);
        open_name(work, child_path(at, rest), name);
    }
}

/// A proper name alone is an open way.
proof fn open_name(work: DirView<WorkFileView>, at: Seq<u8>, name: Seq<u8>)
    requires
        proper(name),
        !name.contains(SLASH),
    ensures
        open_to(work, at, name),
{
    let n = name.len() as int;
    assert forall|j: int| 0 <= j < n implies name[j] != SLASH by {
        assert(name.contains(name[j]));
    }
    upto_is(name, SLASH, n);
    assert(name.take(n) =~= name);
}

/// What lies in an open directory is open.
pub proof fn open_child(work: DirView<WorkFileView>, dir: Seq<u8>, name: Seq<u8>)
    requires
        opened(work, dir),
        proper(name),
        !name.contains(SLASH),
    ensures
        open_to(work, Seq::empty(), child_path(dir, name)),
{
    if dir.len() == 0 {
        open_name(work, Seq::empty(), name);
    } else {
        open_child_from(work, Seq::empty(), dir, name);
    }
}

/// What is open stays open.
pub proof fn open_stays(
    a: DirView<WorkFileView>,
    b: DirView<WorkFileView>,
    at: Seq<u8>,
    rest: Seq<u8>,
)
    requires
        grows(a, b),
        open_to(a, at, rest),
    ensures
        open_to(b, at, rest),
    decreases rest.len(),
{
    let k = upto(rest, SLASH);
    if 0 <= k < rest.len() {
        assert(is_folder(a, child_path(at, rest.take(k))));
        open_stays(a, b, child_path(at, rest.take(k)), rest.skip(k + 1));
    }
}

/// What is opened stays opened.
pub proof fn opened_stays(a: DirView<WorkFileView>, b: DirView<WorkFileView>, dir: Seq<u8>)
    requires
        grows(a, b),
        opened(a, dir),
    ensures
        opened(b, dir),
{
    if dir.len() > 0 {
        assert(is_folder(a, dir));
        open_stays(a, b, Seq::empty(), dir);
    }
}

// ---------------------------------------------------------------------
// Regions
// ---------------------------------------------------------------------

/// Whether a path is another one or lies below it.
pub open spec fn within(top: Seq<u8>, path: Seq<u8>) -> bool {
    top.len() == 0 || path == top || is_above(top, path)
}

/// What lies within an entry lies within its directory.
pub proof fn within_dir(dir: Seq<u8>, name: Seq<u8>, path: Seq<u8>)
    requires
        within(child_path(dir, name), path),
        name.len() > 0,
    ensures
        within(dir, path),
{
    let p = child_path(dir, name);
    if dir.len() > 0 {
        assert(p.take(dir.len() as int) =~= dir);
        assert(p[dir.len() as int] == SLASH);
        if path != p {
            assert(path.take(p.len() as int) == p);
            assert(path.take(dir.len() as int) =~= p.take(dir.len() as int));
            assert(path[dir.len() as int] == p[dir.len() as int]);
        }
    }
}

/// No path lies within two entries of a directory.
pub proof fn siblings_apart(dir: Seq<u8>, a: Seq<u8>, b: Seq<u8>, path: Seq<u8>)
    requires
        a.len() > 0,
        b.len() > 0,
        !a.contains(SLASH),
        !b.contains(SLASH),
        within(child_path(dir, a), path),
        within(child_path(dir, b), path),
    ensures
        a == b,
{
    let p = child_path(dir, a);
    let q = child_path(dir, b);
    let n = if dir.len() == 0 {
        0
    } else {
        dir.len() as int + 1
    };
    assert(path.take(p.len() as int) =~= p);
    assert(path.take(q.len() as int) =~= q);
    assert(a =~= p.skip(n));
    assert(b =~= q.skip(n));
    if p.len() < q.len() {
        assert(path[p.len() as int] == SLASH);
        assert(q[p.len() as int] == path[p.len() as int]);
        assert(b[p.len() - n] == SLASH);
    } else if q.len() < p.len() {
        assert(path[q.len() as int] == SLASH);
        assert(p[q.len() as int] == path[q.len() as int]);
        assert(a[q.len() - n] == SLASH);
    } else {
        assert(p == q);
    }
}

// ---------------------------------------------------------------------
// Ways that lead nowhere else
// ---------------------------------------------------------------------

/// Whether no link stands on the way from `at` along `rest`, but perhaps at
/// its end, and its names are proper.
pub open spec fn own_way(work: DirView<WorkFileView>, at: Seq<u8>, rest: Seq<u8>) -> bool
    decreases rest.len(),
{
    let k = upto(rest, SLASH);
    let p = child_path(at, rest.take(k));
    proper(rest.take(k)) && (0 <= k < rest.len() ==> !is_link(work, p) && own_way(
        work,
        p,
        rest.skip(k + 1),
    ))
}

/// Such a way leads to its end or nowhere.
pub proof fn own_way_walks(work: DirView<WorkFileView>, at: Seq<u8>, rest: Seq<u8>, links: nat)
    requires
        own_way(work, at, rest),
    ensures
        match walked(work, at, rest, None, links, false) {
            PlaceView::At(p) => p == child_path(at, rest),
            PlaceView::Fault(_) => true,
            _ => false,
        },
    decreases rest.len(),
{
    let k = upto(rest, SLASH);
    upto_spec(rest, SLASH);
    let p = child_path(at, rest.take(k));
    if k < rest.len() {
        child_path_more(at, rest, k);
        own_way_walks(work, p, rest.skip(k + 1), links);
    } else {
        assert(rest.take(k) =~= rest);
    }
}

/// Where there are no more links, such a way stays one.
pub proof fn own_way_stays(
    a: DirView<WorkFileView>,
    b: DirView<WorkFileView>,
    at: Seq<u8>,
    rest: Seq<u8>,
)
    requires
        forall|p: Seq<u8>| #[trigger] is_link(b, p) ==> is_link(a, p),
        own_way(a, at, rest),
    ensures
        own_way(b, at, rest),
    decreases rest.len(),
{
    let k = upto(rest, SLASH);
    if 0 <= k < rest.len() {
        let p = child_path(at, rest.take(k));
        if is_link(b, p) {
            assert(is_link(a, p));
        }
        own_way_stays(a, b, p, rest.skip(k + 1));
    }
}

} // verus!
