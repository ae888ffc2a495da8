//! The files of a working tree.

use vstd::prelude::*;

use crate::dir::Dir;
use crate::index::Time;

pub mod acts;
pub mod places;
pub mod ways;

verus! {

/// What kind of file stands in the working tree.
#[derive(Clone, Copy, Debug, PartialEq, Eq, Structural)]
pub enum FileKind {
    Regular,
    Executable,
    Symlink,
}

/// What a symbolic link leads to that leads out of the working tree.
#[derive(Debug)]
pub enum Behind {
    /// Nothing that is there or known.
    Nothing,
    Directory,
    /// A file with these contents.
    File(Vec<u8>),
}

/// What a [`Behind`] says.
pub enum BehindView {
    Nothing,
    Directory,
    File(Seq<u8>),
}

impl View for Behind {
    type V = BehindView;

    open spec fn view(&self) -> BehindView {
        match self {
            Behind::Nothing => BehindView::Nothing,
            Behind::Directory => BehindView::Directory,
            Behind::File(b) => BehindView::File(b@),
        }
    }
}

/// A file of the working tree.
#[derive(Debug)]
pub struct WorkFile {
    pub kind: FileKind,
    /// The contents; of a symbolic link, where it points.
    pub data: Vec<u8>,
    /// What a symbolic link leads to, if it leads out of the working tree or
    /// into the git directory. What others lead to stands in the tree.
    pub behind: Behind,
    pub ctime: Time,
    pub mtime: Time,
}

/// What a file of the working tree holds.
pub struct WorkFileView {
    pub kind: FileKind,
    pub data: Seq<u8>,
    pub behind: BehindView,
    pub ctime: Time,
    pub mtime: Time,
}

impl View for WorkFile {
    type V = WorkFileView;

    open spec fn view(&self) -> WorkFileView {
        WorkFileView {
            kind: self.kind,
            data: self.data@,
            behind: self.behind@,
            ctime: self.ctime,
            mtime: self.mtime,
        }
    }
}

/// A working tree.
pub type WorkTree = Dir<WorkFile>;

} // verus!
