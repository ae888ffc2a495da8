//! The index file of a repository.

use vstd::prelude::*;

use super::format::{index_bytes, index_contents, index_ok, parse_index, serialize_index};
use super::{Index, IndexError, IndexErrorView, IndexView};
use crate::bytes::{ascii, text};
use crate::dir::DirView;
use crate::files::IoError;
use crate::odb::{RepoView, Repository};

verus! {

/// An index without entries and extensions.
pub open spec fn empty_index() -> IndexView {
    IndexView { entries: Seq::empty(), extensions: Seq::empty() }
}

/// The index of a git directory, which is empty where there is no file, or
/// why it cannot be read.
pub open spec fn index_of(git: DirView<Seq<u8>>) -> Result<IndexView, IndexErrorView> {
    match git.read(ascii("index"@)) {
        Ok(b) => index_contents(b),
        Err(IoError::NotFound) => Ok(empty_index()),
        Err(e) => Err(IndexErrorView::Io(e)),
    }
}

impl Repository {
    /// Reads the index; it is empty where there is no file.
    pub fn read_index(&self) -> (r: Result<Index, IndexError>)
        ensures
            match r {
                Ok(index) => index_of(self@.git) == Ok::<_, IndexErrorView>(index@),
                Err(e) => index_of(self@.git) == Err::<IndexView, _>(e@),
            },
    {
        proof {
            reveal_strlit("index");
        }
        match self.git().read(text("index")) {
            Ok(b) => parse_index(b),
            Err(IoError::NotFound) => Ok(Index::new()),
            Err(e) => Err(IndexError::Io(e)),
        }
    }

    /// Writes the index. Where its contents fit the format, reading gives
    /// them back.
    pub fn write_index(&mut self, index: &Index) -> (r: Result<(), IndexError>)
        ensures
            match r {
                Ok(_) => {
                    &&& old(self)@.git.write_fault(ascii("index"@)) is None
                    &&& final(self)@ == (RepoView {
                        git: old(self)@.git.written(ascii("index"@), index_bytes(index@)),
                        ..old(self)@
                    })
                    &&& index_ok(index@) ==> index_of(final(self)@.git) == Ok::<_, IndexErrorView>(
                        index@,
                    )
                },
                Err(e) => {
                    &&& old(self)@.git.write_fault(ascii("index"@)) matches Some(x) && e@
                        == IndexErrorView::Io(x)
                    &&& final(self)@ == old(self)@
                },
            },
    {
        proof {
            reveal_strlit("index");
        }
        let bytes = serialize_index(index);
        match self.git_mut().write(text("index"), bytes) {
            Ok(_) => Ok(()),
            Err(e) => Err(IndexError::Io(e)),
        }
    }
}

} // verus!
