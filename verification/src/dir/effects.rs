//! What writing and removing files and directories changes.

use vstd::prelude::*;

use super::{is_above, parent, DirView};
use crate::files::IoError;

verus! {

/// Law: a file that is written is there with its contents, and so are the
/// directories on the way; every other file and directory is as before.
pub proof fn law_written<T>(d: DirView<T>, path: Seq<u8>, contents: T, other: Seq<u8>)
    ensures
        d.written(path, contents).read(path) == Ok::<_, IoError>(contents),
        other != path ==> d.written(path, contents).files.contains_key(other)
            == d.files.contains_key(other),
        other != path && d.files.contains_key(other) ==> d.written(path, contents).read(other)
            == d.read(other),
        d.written(path, contents).dirs.contains(other) <==> d.dirs.contains(other) || (0
            < other.len() < path.len() && other + seq![47u8] == path.take(other.len() as int + 1)),
{
    if is_above(other, path) {
        assert(other + seq![47u8] =~= path.take(other.len() as int + 1));
    }
    if 0 < other.len() < path.len() && other + seq![47u8] == path.take(other.len() as int + 1) {
        let w = path.take(other.len() as int + 1);
        assert(w[other.len() as int] == path[other.len() as int]);
        assert((other + seq![47u8])[other.len() as int] == 47);
        assert(other =~= path.take(other.len() as int)) by {
            assert forall|i: int| 0 <= i < other.len() implies other[i] == path[i] by {
                assert((other + seq![47u8])[i] == w[i]);
            }
        }
        assert(is_above(other, path));
    }
}

/// Law: a file that is removed is not there; every other file and all
/// directories are as before.
pub proof fn law_without<T>(d: DirView<T>, path: Seq<u8>, other: Seq<u8>)
    ensures
        !d.without(path).files.contains_key(path),
        d.without(path).dirs == d.dirs,
        other != path ==> d.without(path).files.contains_key(other) == d.files.contains_key(other),
        other != path && d.files.contains_key(other) ==> d.without(path).read(other) == d.read(
            other,
        ),
{
}

/// Law: a directory that is made is there, and so are those on the way; no
/// other one comes, and all files are as before.
pub proof fn law_with_dir<T>(d: DirView<T>, path: Seq<u8>, other: Seq<u8>)
    ensures
        d.with_dir(path).files == d.files,
        d.with_dir(path).is_dir(path),
        d.dirs.contains(other) ==> d.with_dir(path).dirs.contains(other),
        is_above(other, path) ==> d.with_dir(path).dirs.contains(other),
        d.with_dir(path).dirs.contains(other) ==> d.dirs.contains(other) || other == path
            || is_above(other, path),
{
}

/// Law: a file is read where there is one. Elsewhere there is a directory, or
/// a file stands where a directory should, or nothing is found.
pub proof fn law_read<T>(d: DirView<T>, path: Seq<u8>)
    ensures
        d.read(path) is Ok <==> d.files.contains_key(path),
        d.read(path) matches Ok(c) ==> c == d.files[path],
        !d.files.contains_key(path) && d.is_dir(path) ==> d.read(path) == Err::<T, _>(
            IoError::IsADirectory,
        ),
        !d.files.contains_key(path) && !d.is_dir(path) ==> (d.read(path) == Err::<T, _>(
            IoError::NotFound,
        ) <==> forall|f: Seq<u8>| #[trigger] d.files.contains_key(f) ==> !is_above(f, path)),
{
}

/// Law: a file can be written if and only if there is no directory in its place
/// and no file in the place of one of its directories.
pub proof fn law_write_fault<T>(d: DirView<T>, path: Seq<u8>)
    ensures
        d.write_fault(path) is None <==> !d.is_dir(path) && forall|f: Seq<u8>| #[trigger]
            d.files.contains_key(f) ==> !is_above(f, path),
{
}

/// Law: a path stands in the directory before its last slash, and at the top if
/// it has none.
pub proof fn law_parent(dir: Seq<u8>, name: Seq<u8>)
    requires
        !name.contains(47u8),
    ensures
        parent(dir + seq![47u8] + name) == dir,
        parent(name).len() == 0,
    decreases name.len(),
{
    let p = dir + seq![47u8] + name;
    if name.len() == 0 {
        assert(p.last() == 47);
        assert(p.drop_last() =~= dir);
    } else {
        let t = name.drop_last();
        assert(name.contains(name.last()));
        assert(!t.contains(47u8)) by {
            if t.contains(47u8) {
                let i = choose|i: int| 0 <= i < t.len() && t[i] == 47;
                assert(name[i] == 47);
            }
        }
        law_parent(dir, t);
        assert(p.last() == name.last());
        assert(p.drop_last() =~= dir + seq![47u8] + t);
    }
}

} // verus!
