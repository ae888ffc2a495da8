//! Where paths lead in a working tree: links are followed, and `.` and `..`
//! mean what they mean on disk.

use vstd::prelude::*;

use super::{Behind, BehindView, FileKind, WorkFile, WorkFileView, WorkTree};
use crate::bytes::{ascii, find, push_all, same_bytes, text, to_vec, upto, SLASH};
use crate::dir::{parent, parent_path, DirView};
use crate::files::IoError;
use crate::treewalk::{child_path, join_child};

verus! {

/// How many links are followed on the way to one file.
pub const MAX_LINKS: usize = 40;

/// Where a path leads.
#[derive(Debug)]
pub enum Place {
    /// To this path, on which no link is left to follow. The directory that
    /// it stands in is there.
    At(Vec<u8>),
    /// Out of the tree, through this link.
    Behind(Vec<u8>),
    /// To the directory above the tree.
    Above,
    /// Nowhere.
    Fault(IoError),
}

/// What a [`Place`] says.
pub enum PlaceView {
    At(Seq<u8>),
    Behind(Seq<u8>),
    Above,
    Fault(IoError),
}

impl View for Place {
    type V = PlaceView;

    open spec fn view(&self) -> PlaceView {
        match self {
            Place::At(p) => PlaceView::At(p@),
            Place::Behind(l) => PlaceView::Behind(l@),
            Place::Above => PlaceView::Above,
            Place::Fault(e) => PlaceView::Fault(*e),
        }
    }
}

/// Where a way goes that leaves the tree: through the link that it goes by,
/// if it does; `last` if nothing more is to follow.
pub open spec fn way_out(through: Option<Seq<u8>>, last: bool) -> PlaceView {
    match through {
        Some(l) => PlaceView::Behind(l),
        None => if last {
            PlaceView::Above
        } else {
            PlaceView::Fault(IoError::Outside)
        },
    }
}

/// Where `rest` leads from the directory `at`. `through` is the link whose target
/// ends the way, if there is one, and `links` how many may still be followed;
/// the last one only if `follow`.
pub open spec fn walked(
    work: DirView<WorkFileView>,
    at: Seq<u8>,
    rest: Seq<u8>,
    through: Option<Seq<u8>>,
    links: nat,
    follow: bool,
) -> PlaceView
    decreases links, rest.len(),
{
    let k = upto(rest, SLASH);
    let name = rest.take(k);
    let more = 0 <= k < rest.len();
    let tail = rest.skip(k + 1);
    let p = child_path(at, name);
    if rest.len() == 0 {
        PlaceView::At(at)
    } else if name.len() == 0 || name == ascii("."@) {
        if more {
            walked(work, at, tail, through, links, follow)
        } else {
            PlaceView::At(at)
        }
    } else if name == ascii(".."@) {
        if at.len() == 0 {
            way_out(through, !more)
        } else if more {
            walked(work, parent(at), tail, through, links, follow)
        } else {
            PlaceView::At(parent(at))
        }
    } else if p == ascii(".git"@) && through is Some {
        PlaceView::Behind(through->0)
    } else if work.files.contains_key(p) {
        let f = work.files[p];
        let by = if more {
            through
        } else {
            Some(p)
        };
        if f.kind == FileKind::Symlink && (more || follow) {
            if links == 0 {
                PlaceView::Fault(IoError::TooManyLinks)
            } else if f.data.len() > 0 && f.data[0] == SLASH {
                way_out(by, false)
            } else {
                walked(
                    work,
                    at,
                    if more {
                        f.data + seq![SLASH] + tail
                    } else {
                        f.data
                    },
                    by,
                    (links - 1) as nat,
                    follow,
                )
            }
        } else if more {
            PlaceView::Fault(IoError::NotADirectory)
        } else {
            PlaceView::At(p)
        }
    } else if !more {
        PlaceView::At(p)
    } else if is_folder(work, p) {
        walked(work, p, tail, through, links, follow)
    } else {
        PlaceView::Fault(IoError::NotFound)
    }
}

/// Whether there is a directory at `path`; at the top, `.git` is one.
pub open spec fn is_folder(work: DirView<WorkFileView>, path: Seq<u8>) -> bool {
    work.is_dir(path) || path == ascii(".git"@)
}

/// Where a path leads; if it is a link itself, then to the link's target if
/// `follow`, and to the link if not.
pub open spec fn place(work: DirView<WorkFileView>, path: Seq<u8>, follow: bool) -> PlaceView {
    walked(work, Seq::empty(), path, None, MAX_LINKS as nat, follow)
}

/// What stands at a path on which no link is left to follow.
pub open spec fn standing(work: DirView<WorkFileView>, path: Seq<u8>) -> Result<
    WorkFileView,
    IoError,
> {
    if is_folder(work, path) {
        Err(IoError::IsADirectory)
    } else if work.files.contains_key(path) {
        Ok(work.files[path])
    } else {
        Err(IoError::NotFound)
    }
}

/// The file or link at a path.
pub open spec fn seen(work: DirView<WorkFileView>, path: Seq<u8>) -> Result<
    WorkFileView,
    IoError,
> {
    match place(work, path, false) {
        PlaceView::At(p) => standing(work, p),
        PlaceView::Fault(e) => Err(e),
        _ => Err(IoError::IsADirectory),
    }
}

/// What is read at a path, links followed.
pub open spec fn read_through(work: DirView<WorkFileView>, path: Seq<u8>) -> Result<
    Seq<u8>,
    IoError,
> {
    match place(work, path, true) {
        PlaceView::At(p) => match standing(work, p) {
            Ok(f) => Ok(f.data),
            Err(e) => Err(e),
        },
        PlaceView::Behind(l) => match work.files[l].behind {
            BehindView::Nothing => Err(IoError::NotFound),
            BehindView::Directory => Err(IoError::IsADirectory),
            BehindView::File(b) => Ok(b),
        },
        PlaceView::Above => Err(IoError::IsADirectory),
        PlaceView::Fault(e) => Err(e),
    }
}

/// The tree with a file written at a path, links followed, and what went
/// wrong, if anything. A link that leads out of the tree stays, and what is
/// behind it is written.
pub open spec fn written_through(
    work: DirView<WorkFileView>,
    path: Seq<u8>,
    file: WorkFileView,
) -> (DirView<WorkFileView>, Option<IoError>) {
    match place(work, path, true) {
        PlaceView::At(p) => if is_folder(work, p) {
            (work, Some(IoError::IsADirectory))
        } else {
            (DirView { files: work.files.insert(p, file), dirs: work.dirs }, None)
        },
        PlaceView::Behind(l) => if work.files[l].behind is Directory {
            (work, Some(IoError::IsADirectory))
        } else {
            (
                DirView {
                    files: work.files.insert(
                        l,
                        WorkFileView { behind: BehindView::File(file.data), ..work.files[l] },
                    ),
                    dirs: work.dirs,
                },
                None,
            )
        },
        PlaceView::Above => (work, Some(IoError::IsADirectory)),
        PlaceView::Fault(e) => (work, Some(e)),
    }
}

/// Whether a path leads to a directory, links followed.
pub open spec fn leads_to_dir(work: DirView<WorkFileView>, path: Seq<u8>) -> bool {
    match place(work, path, true) {
        PlaceView::At(p) => is_folder(work, p),
        PlaceView::Behind(l) => work.files[l].behind is Directory,
        PlaceView::Above => true,
        PlaceView::Fault(_) => false,
    }
}

/// The tree with a directory made at a path, whose own directory is there,
/// and what went wrong, if anything. A link to a directory will do.
pub open spec fn dir_made(work: DirView<WorkFileView>, path: Seq<u8>) -> (
    DirView<WorkFileView>,
    Option<IoError>,
) {
    if leads_to_dir(work, path) {
        (work, None)
    } else {
        match place(work, path, false) {
            PlaceView::At(p) => if work.files.contains_key(p) {
                (work, Some(IoError::AlreadyExists))
            } else {
                (DirView { files: work.files, dirs: work.dirs.insert(p) }, None)
            },
            PlaceView::Fault(e) => (work, Some(e)),
            _ => (work, Some(IoError::AlreadyExists)),
        }
    }
}

/// The tree without the file or link at a path.
pub open spec fn unlinked(work: DirView<WorkFileView>, path: Seq<u8>) -> DirView<WorkFileView> {
    match place(work, path, false) {
        PlaceView::At(p) => work.without(p),
        _ => work,
    }
}

/// The tree with a link made at a path where no link or file stands, and what
/// went wrong, if anything.
pub open spec fn link_made(
    work: DirView<WorkFileView>,
    path: Seq<u8>,
    link: WorkFileView,
) -> (DirView<WorkFileView>, Option<IoError>) {
    match place(work, path, false) {
        PlaceView::At(p) => if is_folder(work, p) || work.files.contains_key(p) {
            (work, Some(IoError::AlreadyExists))
        } else {
            (DirView { files: work.files.insert(p, link), dirs: work.dirs }, None)
        },
        PlaceView::Fault(e) => (work, Some(e)),
        _ => (work, Some(IoError::AlreadyExists)),
    }
}

/// What is behind a link with the given target at a path: what was, if there
/// is such a link already.
pub open spec fn behind_link(
    work: DirView<WorkFileView>,
    path: Seq<u8>,
    target: Seq<u8>,
) -> BehindView {
    match seen(work, path) {
        Ok(f) => if f.kind == FileKind::Symlink && f.data == target {
            f.behind
        } else {
            BehindView::Nothing
        },
        Err(_) => BehindView::Nothing,
    }
}

// ---------------------------------------------------------------------
// Finding places
// ---------------------------------------------------------------------

/// Where a way goes that leaves the tree.
fn find_way_out(through: Option<Vec<u8>>, last: bool) -> (r: Place)
    ensures
        r@ == way_out(
            match through {
                Some(l) => Some(l@),
                None => None,
            },
            last,
        ),
{
    match through {
        Some(l) => Place::Behind(l),
        None => if last {
            Place::Above
        } else {
            Place::Fault(IoError::Outside)
        },
    }
}

/// Whether there is a directory at `path`.
fn has_folder(work: &WorkTree, path: &[u8]) -> (r: bool)
    ensures
        r <==> is_folder(work@, path@),
{
    proof {
        reveal_strlit(".git");
    }
    work.is_dir(path) || same_bytes(path, text(".git"))
}

/// Finds where `rest` leads from the directory `at`.
fn walk(
    work: &WorkTree,
    at: &[u8],
    rest: &[u8],
    through: Option<Vec<u8>>,
    links: usize,
    follow: bool,
) -> (r: Place)
    ensures
        r@ == walked(
            work@,
            at@,
            rest@,
            match through {
                Some(l) => Some(l@),
                None => None,
            },
            links as nat,
            follow,
        ),
    decreases links, rest@.len(),
{
    proof {
        reveal_strlit(".");
        reveal_strlit("..");
        reveal_strlit(".git");
    }
    let n: usize = rest.len();
    if n == 0 {
        return Place::At(to_vec(at));
    }
    let k: usize = find(rest, SLASH);
    let more = k < n;
    let from: usize = if more {
        k + 1
    } else {
        n
    };
    let name = &rest[0..k];
    let tail = &rest[from..n];
    proof {
        assert(name@ =~= rest@.take(k as int));
        assert(more ==> tail@ =~= rest@.skip(k + 1));
    }
    if name.len() == 0 || same_bytes(name, text(".")) {
        assert(name@ == ascii("."@) || name@.len() == 0);
        return if more {
            walk(work, at, tail, through, links, follow)
        } else {
            Place::At(to_vec(at))
        };
    }
    if same_bytes(name, text("..")) {
        if at.len() == 0 {
            return find_way_out(through, !more);
        }
        let above = parent_path(at);
        return if more {
            walk(work, above, tail, through, links, follow)
        } else {
            Place::At(to_vec(above))
        };
    }
    let p = join_child(at, name);
    if same_bytes(&p, text(".git")) {
        if let Some(l) = through {
            return Place::Behind(l);
        }
    }
    match work.files().get(&p) {
        Some(f) => {
            if f.kind == FileKind::Symlink && (more || follow) {
                let by: Option<Vec<u8>> = if more {
                    through
                } else {
                    Some(p)
                };
                if links == 0 {
                    return Place::Fault(IoError::TooManyLinks);
                }
                if f.data.len() > 0 && f.data[0] == SLASH {
                    return find_way_out(by, false);
                }
                let mut next = to_vec(&f.data);
                if more {
                    next.push(SLASH);
                    push_all(&mut next, tail);
                    assert(next@ =~= f.data@ + seq![SLASH] + tail@);
                }
                walk(work, at, &next, by, links - 1, follow)
            } else if more {
                Place::Fault(IoError::NotADirectory)
            } else {
                Place::At(p)
            }
        },
        None => if !more {
            Place::At(p)
        } else if has_folder(work, &p) {
            walk(work, &p, tail, through, links, follow)
        } else {
            Place::Fault(IoError::NotFound)
        },
    }
}

/// Finds where a path leads.
pub fn find_place(work: &WorkTree, path: &[u8], follow: bool) -> (r: Place)
    ensures
        r@ == place(work@, path@, follow),
{
    let top: Vec<u8> = Vec::new();
    assert(top@ =~= Seq::<u8>::empty());
    walk(work, &top, path, None, MAX_LINKS, follow)
}

/// A link that leads out of the tree stands in it.
proof fn behind_is_file(
    work: DirView<WorkFileView>,
    at: Seq<u8>,
    rest: Seq<u8>,
    through: Option<Seq<u8>>,
    links: nat,
    follow: bool,
)
    requires
        through matches Some(l) ==> work.files.contains_key(l),
    ensures
        walked(work, at, rest, through, links, follow) matches PlaceView::Behind(l)
            ==> work.files.contains_key(l),
    decreases links, rest.len(),
{
    let k = upto(rest, SLASH);
    let name = rest.take(k);
    let more = 0 <= k < rest.len();
    let tail = rest.skip(k + 1);
    let p = child_path(at, name);
    if rest.len() > 0 && more {
        behind_is_file(work, at, tail, through, links, follow);
        behind_is_file(work, parent(at), tail, through, links, follow);
        behind_is_file(work, p, tail, through, links, follow);
    }
    if work.files.contains_key(p) && links > 0 {
        let f = work.files[p];
        behind_is_file(work, at, f.data + seq![SLASH] + tail, through, (links - 1) as nat, follow);
        behind_is_file(work, at, f.data, Some(p), (links - 1) as nat, follow);
    }
}

/// Reads what stands at a path on which no link is left to follow.
fn read_standing<'a>(work: &'a WorkTree, path: &[u8]) -> (r: Result<&'a WorkFile, IoError>)
    ensures
        match r {
            Ok(f) => standing(work@, path@) == Ok::<_, IoError>(f@),
            Err(e) => standing(work@, path@) == Err::<WorkFileView, _>(e),
        },
{
    if has_folder(work, path) {
        return Err(IoError::IsADirectory);
    }
    match work.files().get(path) {
        Some(f) => Ok(f),
        None => Err(IoError::NotFound),
    }
}

/// Reads the file or link at a path.
pub fn look<'a>(work: &'a WorkTree, path: &[u8]) -> (r: Result<&'a WorkFile, IoError>)
    ensures
        match r {
            Ok(f) => seen(work@, path@) == Ok::<_, IoError>(f@),
            Err(e) => seen(work@, path@) == Err::<WorkFileView, _>(e),
        },
{
    match find_place(work, path, false) {
        Place::At(p) => read_standing(work, &p),
        Place::Fault(e) => Err(e),
        _ => Err(IoError::IsADirectory),
    }
}

/// Reads a file, links followed.
pub fn read_work_file<'a>(work: &'a WorkTree, path: &[u8]) -> (r: Result<&'a Vec<u8>, IoError>)
    ensures
        match r {
            Ok(b) => read_through(work@, path@) == Ok::<_, IoError>(b@),
            Err(e) => read_through(work@, path@) == Err::<Seq<u8>, _>(e),
        },
{
    match find_place(work, path, true) {
        Place::At(p) => match read_standing(work, &p) {
            Ok(f) => Ok(&f.data),
            Err(e) => Err(e),
        },
        Place::Behind(l) => {
            proof {
                behind_is_file(work@, Seq::empty(), path@, None, MAX_LINKS as nat, true);
            }
            match work.files().get(&l) {
                Some(f) => match &f.behind {
                    Behind::Nothing => Err(IoError::NotFound),
                    Behind::Directory => Err(IoError::IsADirectory),
                    Behind::File(b) => Ok(b),
                },
                None => Err(IoError::NotFound),
            }
        },
        Place::Above => Err(IoError::IsADirectory),
        Place::Fault(e) => Err(e),
    }
}

/// Whether a directory is behind a link of the tree.
fn is_dir_behind(work: &WorkTree, link: &[u8]) -> (r: bool)
    requires
        work@.files.contains_key(link@),
    ensures
        r <==> work@.files[link@].behind is Directory,
{
    match work.files().get(link) {
        Some(f) => match &f.behind {
            Behind::Directory => true,
            _ => false,
        },
        None => false,
    }
}

/// Whether nothing is behind the link by which a path leads out of the tree.
pub fn is_nothing_behind(work: &WorkTree, path: &[u8], link: &[u8]) -> (r: bool)
    requires
        place(work@, path@, true) == PlaceView::Behind(link@),
    ensures
        r <==> work@.files[link@].behind is Nothing,
{
    proof {
        behind_is_file(work@, Seq::empty(), path@, None, MAX_LINKS as nat, true);
    }
    match work.files().get(link) {
        Some(f) => match &f.behind {
            Behind::Nothing => true,
            _ => false,
        },
        None => true,
    }
}

/// What a result says went wrong.
pub open spec fn io_fault(r: Result<(), IoError>) -> Option<IoError> {
    match r {
        Ok(_) => None,
        Err(e) => Some(e),
    }
}

/// Writes a file at a path, links followed.
pub fn write_through(work: &mut WorkTree, path: &[u8], file: WorkFile) -> (r: Result<(), IoError>)
    ensures
        written_through(old(work)@, path@, file@) == (final(work)@, io_fault(r)),
{
    proof {
        behind_is_file(work@, Seq::empty(), path@, None, MAX_LINKS as nat, true);
    }
    match find_place(work, path, true) {
        Place::At(p) => {
            if has_folder(work, &p) {
                return Err(IoError::IsADirectory);
            }
            work.put_file(&p, file);
            Ok(())
        },
        Place::Behind(l) => {
            if is_dir_behind(work, &l) {
                return Err(IoError::IsADirectory);
            }
            match work.files().get(&l) {
                Some(f) => {
                    let link = WorkFile {
                        kind: f.kind,
                        data: to_vec(&f.data),
                        behind: Behind::File(file.data),
                        ctime: f.ctime,
                        mtime: f.mtime,
                    };
                    work.put_file(&l, link);
                    Ok(())
                },
                None => Ok(()),
            }
        },
        Place::Above => Err(IoError::IsADirectory),
        Place::Fault(e) => Err(e),
    }
}

/// Whether a path leads to a directory, links followed.
fn reaches_dir(work: &WorkTree, path: &[u8]) -> (r: bool)
    ensures
        r <==> leads_to_dir(work@, path@),
{
    proof {
        behind_is_file(work@, Seq::empty(), path@, None, MAX_LINKS as nat, true);
    }
    match find_place(work, path, true) {
        Place::At(p) => has_folder(work, &p),
        Place::Behind(l) => is_dir_behind(work, &l),
        Place::Above => true,
        Place::Fault(_) => false,
    }
}

/// Makes a directory at a path whose own directory is there.
pub fn make_dir(work: &mut WorkTree, path: &[u8]) -> (r: Result<(), IoError>)
    ensures
        dir_made(old(work)@, path@) == (final(work)@, io_fault(r)),
{
    if reaches_dir(work, path) {
        return Ok(());
    }
    match find_place(work, path, false) {
        Place::At(p) => {
            if work.files().has(&p) {
                return Err(IoError::AlreadyExists);
            }
            work.put_dir(&p);
            Ok(())
        },
        Place::Fault(e) => Err(e),
        _ => Err(IoError::AlreadyExists),
    }
}

/// Deletes the file or link at a path, if there is one.
pub fn unlink(work: &mut WorkTree, path: &[u8])
    ensures
        final(work)@ == unlinked(old(work)@, path@),
{
    if let Place::At(p) = find_place(work, path, false) {
        match work.remove_file(&p) {
            Ok(_) => {},
            Err(_) => {
                assert(work@.without(p@).files =~= work@.files);
            },
        }
    }
}

/// Makes a link at a path where no link or file stands.
pub fn make_link(work: &mut WorkTree, path: &[u8], link: WorkFile) -> (r: Result<(), IoError>)
    ensures
        link_made(old(work)@, path@, link@) == (final(work)@, io_fault(r)),
{
    match find_place(work, path, false) {
        Place::At(p) => {
            if has_folder(work, &p) || work.files().has(&p) {
                return Err(IoError::AlreadyExists);
            }
            work.put_file(&p, link);
            Ok(())
        },
        Place::Fault(e) => Err(e),
        _ => Err(IoError::AlreadyExists),
    }
}

/// What is behind a link with the given target at a path.
pub fn find_behind(work: &WorkTree, path: &[u8], target: &[u8]) -> (r: Behind)
    ensures
        r@ == behind_link(work@, path@, target@),
{
    match look(work, path) {
        Ok(f) => if f.kind == FileKind::Symlink && same_bytes(&f.data, target) {
            match &f.behind {
                Behind::Nothing => Behind::Nothing,
                Behind::Directory => Behind::Directory,
                Behind::File(b) => Behind::File(to_vec(b)),
            }
        } else {
            Behind::Nothing
        },
        Err(_) => Behind::Nothing,
    }
}

} // verus!
