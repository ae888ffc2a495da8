//! What reading, writing and removing do on plain ways through the working
//! tree.

use vstd::prelude::*;

use super::places::{
    behind_link, dir_made, is_folder, leads_to_dir, link_made, place, read_through, seen, unlinked,
    walked, written_through, PlaceView, MAX_LINKS,
};
use super::ways::{is_link, open_place, open_to, opened, proper};
use super::{BehindView, FileKind, WorkFileView};
use crate::bytes::{ascii, upto, upto_is, upto_spec};
use crate::dir::{parent, DirView};
use crate::files::IoError;
use crate::treewalk::child_path;

verus! {

/// Law: at the end of a way that leads through directories only, just the file
/// or link that stands there is seen.
pub proof fn law_seen(work: DirView<WorkFileView>, path: Seq<u8>)
    requires
        open_to(work, Seq::empty(), path),
        !is_folder(work, path),
    ensures
        work.files.contains_key(path) ==> seen(work, path) == Ok::<_, IoError>(work.files[path]),
        !work.files.contains_key(path) ==> seen(work, path) == Err::<WorkFileView, _>(
            IoError::NotFound,
        ),
{
    open_place(work, path, false);
}

/// Law: what is read at the end of such a way is the data of the file there,
/// if that is no link.
pub proof fn law_read_plain(work: DirView<WorkFileView>, path: Seq<u8>)
    requires
        open_to(work, Seq::empty(), path),
        !is_folder(work, path),
        !is_link(work, path),
    ensures
        work.files.contains_key(path) ==> read_through(work, path) == Ok::<_, IoError>(
            work.files[path].data,
        ),
        !work.files.contains_key(path) ==> read_through(work, path) == Err::<Seq<u8>, _>(
            IoError::NotFound,
        ),
{
    open_place(work, path, true);
}

/// Law: a file that is written at the end of such a way, where no link and no
/// directory stands, is there; all else is as before.
pub proof fn law_write_plain(
    work: DirView<WorkFileView>,
    path: Seq<u8>,
    file: WorkFileView,
    other: Seq<u8>,
)
    requires
        open_to(work, Seq::empty(), path),
        !is_link(work, path),
    ensures
        is_folder(work, path) ==> written_through(work, path, file) == (
            work,
            Some(IoError::IsADirectory),
        ),
        !is_folder(work, path) ==> {
            let (after, fault) = written_through(work, path, file);
            &&& fault is None
            &&& after.files.contains_key(path) && after.files[path] == file
            &&& after.dirs == work.dirs
            &&& other != path ==> after.files.contains_key(other) == work.files.contains_key(other)
            &&& other != path && work.files.contains_key(other) ==> after.files[other]
                == work.files[other]
        },
{
    open_place(work, path, true);
}

/// Law: writing through a link that leads out of the working tree leaves the
/// link as it is and changes what is behind it.
pub proof fn law_write_behind(
    work: DirView<WorkFileView>,
    path: Seq<u8>,
    link: Seq<u8>,
    file: WorkFileView,
)
    requires
        place(work, path, true) == PlaceView::Behind(link),
        work.files.contains_key(link),
        !(work.files[link].behind is Directory),
    ensures
        ({
            let (after, fault) = written_through(work, path, file);
            &&& fault is None
            &&& after.files[link].behind == BehindView::File(file.data)
            &&& after.files[link].kind == work.files[link].kind
            &&& after.files[link].data == work.files[link].data
            &&& after.files.dom() =~= work.files.dom()
            &&& forall|q: Seq<u8>|
                q != link && work.files.contains_key(q) ==> #[trigger] after.files[q]
                    == work.files[q]
        }),
{
}

/// Law: what is removed at the end of such a way is gone, and nothing else.
pub proof fn law_unlinked(work: DirView<WorkFileView>, path: Seq<u8>, other: Seq<u8>)
    requires
        open_to(work, Seq::empty(), path),
    ensures
        !unlinked(work, path).files.contains_key(path),
        unlinked(work, path).dirs == work.dirs,
        other != path ==> unlinked(work, path).files.contains_key(other)
            == work.files.contains_key(other),
        other != path && work.files.contains_key(other) ==> unlinked(work, path).files[other]
            == work.files[other],
{
    open_place(work, path, false);
}

/// Law: a directory that is made at the end of such a way is there; what was a
/// directory stays as it is, and a file in its place is not touched.
pub proof fn law_dir_made(work: DirView<WorkFileView>, path: Seq<u8>)
    requires
        open_to(work, Seq::empty(), path),
        !is_link(work, path),
    ensures
        dir_made(work, path).0.files == work.files,
        is_folder(work, path) ==> dir_made(work, path) == (work, None::<IoError>),
        !is_folder(work, path) && work.files.contains_key(path) ==> dir_made(work, path) == (
            work,
            Some(IoError::AlreadyExists),
        ),
        !is_folder(work, path) && !work.files.contains_key(path) ==> dir_made(work, path).1 is None
            && dir_made(work, path).0.dirs == work.dirs.insert(path),
{
    open_place(work, path, true);
    open_place(work, path, false);
    assert(leads_to_dir(work, path) <==> is_folder(work, path));
}

/// Law: a link is made at the end of such a way only where nothing stands.
pub proof fn law_link_made(work: DirView<WorkFileView>, path: Seq<u8>, link: WorkFileView)
    requires
        open_to(work, Seq::empty(), path),
    ensures
        is_folder(work, path) || work.files.contains_key(path) ==> link_made(work, path, link) == (
            work,
            Some(IoError::AlreadyExists),
        ),
        !is_folder(work, path) && !work.files.contains_key(path) ==> link_made(work, path, link).1
            is None && link_made(work, path, link).0.dirs == work.dirs && link_made(
            work,
            path,
            link,
        ).0.files == work.files.insert(path, link),
{
    open_place(work, path, false);
}

/// Law: a link that is checked out again with the same target keeps what is
/// behind it; a new or changed one has nothing behind it.
pub proof fn law_behind_link(work: DirView<WorkFileView>, path: Seq<u8>, target: Seq<u8>)
    requires
        open_to(work, Seq::empty(), path),
        !is_folder(work, path),
    ensures
        behind_link(work, path, target) == if work.files.contains_key(path)
            && work.files[path].kind == FileKind::Symlink && work.files[path].data == target {
            work.files[path].behind
        } else {
            BehindView::Nothing
        },
{
    law_seen(work, path);
}

/// A way into a directory goes on from there.
proof fn walks_into(
    work: DirView<WorkFileView>,
    at: Seq<u8>,
    dir: Seq<u8>,
    name: Seq<u8>,
    links: nat,
    follow: bool,
)
    requires
        open_to(work, at, dir),
        is_folder(work, child_path(at, dir)),
        !work.files.contains_key(child_path(at, dir)),
    ensures
        walked(work, at, dir + seq![47u8] + name, None, links, follow) == walked(
            work,
            child_path(at, dir),
            name,
            None,
            links,
            follow,
        ),
    decreases dir.len(),
{
    let k = upto(dir, 47);
    upto_spec(dir, 47);
    let w = dir + seq![47u8] + name;
    assert forall|j: int| 0 <= j < k implies w[j] != 47 by {
        assert(w[j] == dir[j]);
    }
    assert(w[k] == 47) by {
        if k < dir.len() {
            assert(w[k] == dir[k]);
        }
    }
    upto_is(w, 47, k);
    assert(w.take(k) =~= dir.take(k));
    if k < dir.len() {
        let tail = dir.skip(k + 1);
        assert(w.skip(k + 1) =~= tail + seq![47u8] + name);
        let p = child_path(at, dir.take(k));
        assert(child_path(p, tail) =~= child_path(at, dir));
        walks_into(work, p, tail, name, links, follow);
    } else {
        assert(dir.take(k) =~= dir);
        assert(w.skip(k + 1) =~= name);
    }
}

/// Law: a link in a directory leads where its target leads from that directory,
/// and a target that names a file beside the link leads to that file.
pub proof fn law_link_followed(
    work: DirView<WorkFileView>,
    dir: Seq<u8>,
    name: Seq<u8>,
    target: Seq<u8>,
)
    requires
        opened(work, dir),
        proper(name),
        !name.contains(47u8),
        is_link(work, child_path(dir, name)),
        work.files[child_path(dir, name)].data == target,
        proper(target),
        !target.contains(47u8),
        child_path(dir, target) != ascii(".git"@),
        !is_folder(work, child_path(dir, target)),
        work.files.contains_key(child_path(dir, target)),
        !is_link(work, child_path(dir, target)),
    ensures
        place(work, child_path(dir, name), true) == PlaceView::At(child_path(dir, target)),
        place(work, child_path(dir, name), false) == PlaceView::At(child_path(dir, name)),
        read_through(work, child_path(dir, name)) == Ok::<_, IoError>(
            work.files[child_path(dir, target)].data,
        ),
{
    let path = child_path(dir, name);
    let e = Seq::<u8>::empty();
    let most = MAX_LINKS as nat;
    if dir.len() > 0 {
        assert(child_path(e, dir) == dir);
        walks_into(work, e, dir, name, most, true);
        walks_into(work, e, dir, name, most, false);
        assert(path =~= dir + seq![47u8] + name);
    } else {
        assert(dir =~= e);
    }
    whole(name);
    whole(target);
    assert(name.take(name.len() as int) =~= name);
    assert(target.take(target.len() as int) =~= target);
    assert(target.len() > 0 && target[0] != 47) by {
        assert(target.contains(target[0]));
    }
    assert(walked(work, dir, name, None, most, true) == walked(
        work,
        dir,
        target,
        Some(path),
        (most - 1) as nat,
        true,
    ));
}

/// A name without a slash is its only part.
proof fn whole(name: Seq<u8>)
    requires
        !name.contains(47u8),
    ensures
        upto(name, 47) == name.len(),
{
    assert forall|j: int| 0 <= j < name.len() implies name[j] != 47 by {
        assert(name.contains(name[j]));
    }
    upto_is(name, 47, name.len() as int);
}

/// Law: a dot in a path stands for the directory that it is in, as do slashes
/// side by side, and two dots for the one above; from the top they lead out.
pub proof fn law_dots(
    work: DirView<WorkFileView>,
    at: Seq<u8>,
    rest: Seq<u8>,
    links: nat,
    follow: bool,
)
    ensures
        walked(work, at, seq![46u8, 47u8] + rest, None, links, follow) == walked(
            work,
            at,
            rest,
            None,
            links,
            follow,
        ),
        walked(work, at, seq![47u8] + rest, None, links, follow) == walked(
            work,
            at,
            rest,
            None,
            links,
            follow,
        ),
        at.len() > 0 ==> walked(work, at, seq![46u8, 46u8, 47u8] + rest, None, links, follow)
            == walked(work, parent(at), rest, None, links, follow),
        walked(work, Seq::empty(), seq![46u8, 46u8, 47u8] + rest, None, links, follow)
            == PlaceView::Fault(IoError::Outside),
        walked(work, Seq::empty(), seq![46u8, 46u8], None, links, follow) == PlaceView::Above,
{
    reveal_strlit(".");
    reveal_strlit("..");
    let one = seq![46u8];
    let two = seq![46u8, 46u8];
    assert(ascii("."@) =~= one);
    assert(ascii(".."@) =~= two);
    assert(two != one) by {
        assert(two.len() == 2 && one.len() == 1);
    }
    let a = seq![46u8, 47u8] + rest;
    upto_is(a, 47, 1);
    assert(a.take(1) =~= one);
    assert(a.skip(2) =~= rest);
    let b = seq![47u8] + rest;
    upto_is(b, 47, 0);
    assert(b.skip(1) =~= rest);
    let c = seq![46u8, 46u8, 47u8] + rest;
    upto_is(c, 47, 2);
    assert(c.take(2) =~= two);
    assert(c.skip(3) =~= rest);
    upto_is(two, 47, 2);
    assert(two.take(2) =~= two);
}

} // verus!
