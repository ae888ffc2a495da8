//! A directory tree in memory: files by path, and the directories they
//! stand in.
//!
//! The library works on such trees; whoever owns a disk loads them and
//! writes them back. Paths are relative, with `/` between their parts; the
//! empty path is the tree itself.

use vstd::prelude::*;

use crate::bytemap::ByteMap;
use crate::bytes::SLASH;
use crate::files::IoError;

pub mod effects;

verus! {

/// A directory tree.
#[derive(Debug)]
#[verifier::reject_recursive_types(V)]
pub struct Dir<V: View> {
    files: ByteMap<V>,
    dirs: ByteMap<()>,
}

/// What a directory tree holds.
pub struct DirView<T> {
    pub files: Map<Seq<u8>, T>,
    pub dirs: Set<Seq<u8>>,
}

/// Whether `d` is a directory on the way to `path`.
pub open spec fn is_above(d: Seq<u8>, path: Seq<u8>) -> bool {
    &&& 0 < d.len() < path.len()
    &&& path[d.len() as int] == SLASH
    &&& d == path.take(d.len() as int)
}

/// The directories on the way to `path`.
pub open spec fn dirs_above(path: Seq<u8>) -> Set<Seq<u8>> {
    Set::new(|d: Seq<u8>| is_above(d, path))
}

/// The directory that a path stands in.
pub open spec fn parent(path: Seq<u8>) -> Seq<u8>
    decreases path.len(),
{
    if path.len() == 0 {
        path
    } else if path.last() == SLASH {
        path.drop_last()
    } else {
        parent(path.drop_last())
    }
}

/// The directory that a path stands in.
pub fn parent_path(path: &[u8]) -> (r: &[u8])
    ensures
        r@ == parent(path@),
        r@.len() <= path@.len(),
        path@.len() > 0 ==> r@.len() < path@.len(),
{
    let mut n: usize = path.len();
    assert(path@.take(n as int) =~= path@);
    while n > 0 && path[n - 1] != SLASH
        invariant
            n <= path@.len(),
            parent(path@.take(n as int)) == parent(path@),
        decreases n,
    {
        assert(path@.take(n as int).drop_last() =~= path@.take(n - 1));
        n -= 1;
    }
    assert(path@.take(n as int).len() == n);
    if n == 0 {
        return &path[0..0];
    }
    assert(path@.take(n as int).drop_last() =~= path@.subrange(0, n - 1));
    &path[0..n - 1]
}

impl<T> DirView<T> {
    /// Whether a file stands where a directory on the way to `path` would.
    pub open spec fn blocked(self, path: Seq<u8>) -> bool {
        exists|d: Seq<u8>| is_above(d, path) && #[trigger] self.files.contains_key(d)
    }

    /// Whether there is a directory at `path`.
    pub open spec fn is_dir(self, path: Seq<u8>) -> bool {
        path.len() == 0 || self.dirs.contains(path)
    }

    /// Whether there is anything at `path`.
    pub open spec fn exists_at(self, path: Seq<u8>) -> bool {
        self.files.contains_key(path) || self.is_dir(path)
    }

    /// The file at `path`, or why it cannot be read.
    pub open spec fn read(self, path: Seq<u8>) -> Result<T, IoError> {
        if self.files.contains_key(path) {
            Ok(self.files[path])
        } else {
            Err(self.why_not(path))
        }
    }

    /// Why there is no file at `path`.
    pub open spec fn why_not(self, path: Seq<u8>) -> IoError {
        if self.is_dir(path) {
            IoError::IsADirectory
        } else if self.blocked(path) {
            IoError::NotADirectory
        } else {
            IoError::NotFound
        }
    }

    /// What keeps a file from being written at `path`, if anything.
    pub open spec fn write_fault(self, path: Seq<u8>) -> Option<IoError> {
        if self.blocked(path) {
            Some(self.mkdir_error(parent(path)))
        } else if self.is_dir(path) {
            Some(IoError::IsADirectory)
        } else {
            None
        }
    }

    /// The tree with a file written at `path` and the directories on the
    /// way made.
    pub open spec fn written(self, path: Seq<u8>, contents: T) -> DirView<T> {
        DirView {
            files: self.files.insert(path, contents),
            dirs: self.dirs.union(dirs_above(path)),
        }
    }

    /// Whether a file keeps the directory `path` from being made.
    pub open spec fn mkdir_fault(self, path: Seq<u8>) -> bool {
        self.blocked(path) || self.files.contains_key(path)
    }

    /// How a file keeps the directory `path` from being made.
    pub open spec fn mkdir_error(self, path: Seq<u8>) -> IoError {
        if self.files.contains_key(path) {
            IoError::AlreadyExists
        } else {
            IoError::NotADirectory
        }
    }

    /// The tree with the directory `path` and those on the way made.
    pub open spec fn with_dir(self, path: Seq<u8>) -> DirView<T> {
        if path.len() == 0 {
            self
        } else {
            DirView { files: self.files, dirs: self.dirs.union(dirs_above(path)).insert(path) }
        }
    }

    /// The tree without the file at `path`.
    pub open spec fn without(self, path: Seq<u8>) -> DirView<T> {
        DirView { files: self.files.remove(path), dirs: self.dirs }
    }
}

impl<V: View> View for Dir<V> {
    type V = DirView<V::V>;

    closed spec fn view(&self) -> DirView<V::V> {
        DirView { files: self.files@, dirs: self.dirs@.dom() }
    }
}

impl<V: View> Dir<V> {
    /// An empty tree.
    pub fn new() -> (r: Dir<V>)
        ensures
            r@.files == Map::<Seq<u8>, V::V>::empty(),
            r@.dirs == Set::<Seq<u8>>::empty(),
    {
        let r: Dir<V> = Dir { files: ByteMap::new(), dirs: ByteMap::new() };
        assert(r@.dirs =~= Set::<Seq<u8>>::empty());
        r
    }

    /// The files by path.
    pub fn files(&self) -> (r: &ByteMap<V>)
        ensures
            r@ == self@.files,
    {
        &self.files
    }

    /// The directories, as the keys of a map.
    pub fn dirs(&self) -> (r: &ByteMap<()>)
        ensures
            r@.dom() == self@.dirs,
    {
        &self.dirs
    }

    /// Whether a file stands where a directory on the way to `path` would.
    fn blocked(&self, path: &[u8]) -> (r: bool)
        ensures
            r <==> self@.blocked(path@),
    {
        let mut i: usize = 1;
        while i < path.len()
            invariant
                1 <= i,
                i <= path@.len() || path@.len() == 0,
                forall|k: int|
                    1 <= k < i && k < path@.len() && path@[k] == SLASH
                        ==> !#[trigger] self@.files.contains_key(path@.take(k)),
            decreases path.len() - i,
        {
            if path[i] == SLASH {
                assert(path@.subrange(0, i as int) =~= path@.take(i as int));
                if self.files.has(&path[0..i]) {
                    assert(is_above(path@.take(i as int), path@));
                    assert(self@.files.contains_key(path@.take(i as int)));
                    return true;
                }
            }
            i += 1;
        }
        proof {
            if self@.blocked(path@) {
                let d = choose|d: Seq<u8>|
                    is_above(d, path@) && #[trigger] self@.files.contains_key(d);
                assert(self@.files.contains_key(path@.take(d.len() as int)));
            }
        }
        false
    }

    /// Whether there is a directory at `path`.
    pub fn is_dir(&self, path: &[u8]) -> (r: bool)
        ensures
            r <==> self@.is_dir(path@),
    {
        path.len() == 0 || self.dirs.has(path)
    }

    /// Whether there is anything at `path`.
    pub fn exists_at(&self, path: &[u8]) -> (r: bool)
        ensures
            r <==> self@.exists_at(path@),
    {
        self.files.has(path) || self.is_dir(path)
    }

    /// Why there is no file at `path`.
    fn why_not(&self, path: &[u8]) -> (r: IoError)
        ensures
            r == self@.why_not(path@),
    {
        if self.is_dir(path) {
            IoError::IsADirectory
        } else if self.blocked(path) {
            IoError::NotADirectory
        } else {
            IoError::NotFound
        }
    }

    /// Reads the file at `path`.
    pub fn read(&self, path: &[u8]) -> (r: Result<&V, IoError>)
        ensures
            match r {
                Ok(v) => self@.read(path@) == Ok::<_, IoError>(v@),
                Err(e) => self@.read(path@) == Err::<V::V, _>(e),
            },
    {
        match self.files.get(path) {
            Some(v) => Ok(v),
            None => Err(self.why_not(path)),
        }
    }

    /// Makes the directories on the way to `path`.
    fn make_above(&mut self, path: &[u8])
        ensures
            final(self)@.files == old(self)@.files,
            final(self)@.dirs == old(self)@.dirs.union(dirs_above(path@)),
    {
        let ghost start = self@;
        let mut i: usize = 1;
        assert(start.dirs.union(Set::new(|d: Seq<u8>| is_above(d, path@) && d.len() < 1))
            =~= start.dirs);
        while i < path.len()
            invariant
                1 <= i,
                i <= path@.len() || path@.len() == 0,
                self@.files == start.files,
                self@.dirs == start.dirs.union(
                    Set::new(|d: Seq<u8>| is_above(d, path@) && d.len() < i),
                ),
            decreases path.len() - i,
        {
            let ghost before = self@.dirs;
            if path[i] == SLASH {
                assert(path@.subrange(0, i as int) =~= path@.take(i as int));
                self.dirs.put(&path[0..i], ());
            }
            proof {
                let goal = start.dirs.union(
                    Set::new(|d: Seq<u8>| is_above(d, path@) && d.len() < i + 1),
                );
                assert forall|d: Seq<u8>| #[trigger] self@.dirs.contains(d) <==> goal.contains(d) by {
                    if is_above(d, path@) && d.len() == i {
                        assert(d == path@.take(i as int));
                    }
                    if path@[i as int] == SLASH && d == path@.take(i as int) {
                        assert(is_above(d, path@));
                    }
                }
                assert(self@.dirs =~= goal);
            }
            i += 1;
        }
        assert(self@.dirs =~= start.dirs.union(dirs_above(path@)));
    }

    /// How a file keeps the directory `path` from being made.
    fn mkdir_problem(&self, path: &[u8]) -> (r: IoError)
        ensures
            r == self@.mkdir_error(path@),
    {
        if self.files.has(path) {
            IoError::AlreadyExists
        } else {
            IoError::NotADirectory
        }
    }

    /// What keeps a file from being written at `path`, if anything.
    pub fn write_problem(&self, path: &[u8]) -> (r: Option<IoError>)
        ensures
            r == self@.write_fault(path@),
    {
        if self.blocked(path) {
            Some(self.mkdir_problem(parent_path(path)))
        } else if self.is_dir(path) {
            Some(IoError::IsADirectory)
        } else {
            None
        }
    }

    /// Writes a file, and makes the directories on the way to it.
    pub fn write(&mut self, path: &[u8], contents: V) -> (r: Result<(), IoError>)
        ensures
            match r {
                Ok(_) => old(self)@.write_fault(path@) is None && final(self)@ == old(
                    self)@.written(path@, contents@),
                Err(e) => old(self)@.write_fault(path@) == Some(e) && final(self)@ == old(self)@,
            },
    {
        if self.blocked(path) {
            return Err(self.mkdir_problem(parent_path(path)));
        }
        if self.is_dir(path) {
            return Err(IoError::IsADirectory);
        }
        self.make_above(path);
        self.files.put(path, contents);
        Ok(())
    }

    /// Puts a file where a path is known to lead to no directory.
    pub fn put_file(&mut self, path: &[u8], contents: V)
        ensures
            final(self)@ == (DirView {
                files: old(self)@.files.insert(path@, contents@),
                dirs: old(self)@.dirs,
            }),
    {
        self.files.put(path, contents);
    }

    /// Puts a directory where a path is known to lead to no file.
    pub fn put_dir(&mut self, path: &[u8])
        ensures
            final(self)@ == (DirView {
                files: old(self)@.files,
                dirs: old(self)@.dirs.insert(path@),
            }),
    {
        self.dirs.put(path, ());
        assert(self@.dirs =~= old(self)@.dirs.insert(path@));
    }

    /// Makes a directory and those on the way to it.
    pub fn make_dirs(&mut self, path: &[u8]) -> (r: Result<(), IoError>)
        ensures
            match r {
                Ok(_) => !old(self)@.mkdir_fault(path@) && final(self)@ == old(self)@.with_dir(
                    path@,
                ),
                Err(e) => old(self)@.mkdir_fault(path@) && e == old(self)@.mkdir_error(path@)
                    && final(self)@ == old(self)@,
            },
    {
        if self.blocked(path) || self.files.has(path) {
            return Err(self.mkdir_problem(path));
        }
        if path.len() == 0 {
            return Ok(());
        }
        self.make_above(path);
        self.dirs.put(path, ());
        assert(self@.dirs =~= old(self)@.with_dir(path@).dirs);
        Ok(())
    }

    /// Deletes the file at `path`.
    pub fn remove_file(&mut self, path: &[u8]) -> (r: Result<(), IoError>)
        ensures
            match r {
                Ok(_) => old(self)@.files.contains_key(path@) && final(self)@ == old(
                    self)@.without(path@),
                Err(e) => !old(self)@.files.contains_key(path@) && e == old(self)@.why_not(path@)
                    && final(self)@ == old(self)@,
            },
    {
        if self.files.has(path) {
            self.files.delete(path);
            Ok(())
        } else {
            Err(self.why_not(path))
        }
    }
}

impl<V: View> Default for Dir<V> {
    fn default() -> (r: Dir<V>)
        ensures
            r@.files == Map::<Seq<u8>, V::V>::empty(),
            r@.dirs == Set::<Seq<u8>>::empty(),
    {
        Dir::new()
    }
}

} // verus!
