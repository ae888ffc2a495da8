//! The names by which commands are given objects.

use vstd::prelude::*;
use vstd::utf8::encode_utf8;

use crate::bytes::{ascii, has_prefix, push_all, push_text, same_bytes, text};
use crate::object::{Object, ObjectId, ObjectView, Tree, TreeEntryView};
use crate::odb::resolve::is_resolution;
use crate::odb::{OdbError, OdbErrorView, RepoView, Repository};
use crate::refs::{ref_value, RefError, RefErrorView};

verus! {

/// Why a name leads nowhere.
#[derive(Debug, Clone, PartialEq, Eq)]
pub enum NameError {
    /// The ref cannot be read.
    Ref(RefError),
    /// There is neither a ref nor an object with the name.
    Id(OdbError),
    /// The object cannot be read.
    Odb(OdbError),
    /// The object is neither a commit nor a tree.
    NotATree,
    /// The commit's tree is no tree.
    BadCommitTree,
}

/// What a [`NameError`] says.
pub enum NameErrorView {
    Ref(RefErrorView),
    Id(OdbErrorView),
    Odb(OdbErrorView),
    NotATree,
    BadCommitTree,
}

impl View for NameError {
    type V = NameErrorView;

    open spec fn view(&self) -> NameErrorView {
        match self {
            NameError::Ref(e) => NameErrorView::Ref(e@),
            NameError::Id(e) => NameErrorView::Id(e@),
            NameError::Odb(e) => NameErrorView::Odb(e@),
            NameError::NotATree => NameErrorView::NotATree,
            NameError::BadCommitTree => NameErrorView::BadCommitTree,
        }
    }
}

/// What refs say of a name: `HEAD` and full names are read as they are;
/// another name may be that of a branch, of a tag or of a remote's branch.
/// `None` if no ref has the name.
pub open spec fn named_ref(repo: RepoView, name: Seq<u8>) -> Option<Result<Seq<u8>, RefErrorView>> {
    if name == ascii("HEAD"@) || ascii("refs/"@).is_prefix_of(name) {
        Some(ref_value(repo, name))
    } else if ref_value(repo, ascii("refs/heads/"@) + name) is Ok {
        Some(ref_value(repo, ascii("refs/heads/"@) + name))
    } else if ref_value(repo, ascii("refs/tags/"@) + name) is Ok {
        Some(ref_value(repo, ascii("refs/tags/"@) + name))
    } else if ref_value(repo, ascii("refs/remotes/"@) + name) is Ok {
        Some(ref_value(repo, ascii("refs/remotes/"@) + name))
    } else {
        None
    }
}

/// Whether `r` is what a name leads to: what a ref with the name leads to,
/// or else the object whose id begins with the name.
pub open spec fn is_named(
    repo: RepoView,
    name: Seq<char>,
    r: Result<Seq<u8>, NameErrorView>,
) -> bool {
    match named_ref(repo, encode_utf8(name)) {
        Some(Ok(id)) => r == Ok::<_, NameErrorView>(id),
        Some(Err(e)) => r == Err::<Seq<u8>, _>(NameErrorView::Ref(e)),
        None => match r {
            Ok(id) => is_resolution(repo.store(), name, Ok(id)),
            Err(NameErrorView::Id(e)) => is_resolution(repo.store(), name, Err(e)),
            Err(_) => false,
        },
    }
}

/// The id of an optional result.
pub open spec fn id_result(r: Result<ObjectId, NameError>) -> Result<Seq<u8>, NameErrorView> {
    match r {
        Ok(id) => Ok(id@),
        Err(e) => Err(e@),
    }
}

/// What an object is as a tree: a commit stands for its tree.
pub open spec fn as_tree(o: ObjectView, id: Seq<u8>) -> Option<Seq<u8>> {
    match o {
        ObjectView::Commit(c) => Some(c.tree),
        ObjectView::Tree(_) => Some(id),
        _ => None,
    }
}

/// The id of the tree that an object is or has.
pub open spec fn tree_id_at(repo: RepoView, id: Seq<u8>) -> Result<Seq<u8>, NameErrorView> {
    match repo.store().object(id) {
        Err(e) => Err(NameErrorView::Odb(e)),
        Ok(o) => match as_tree(o, id) {
            Some(t) => Ok(t),
            None => Err(NameErrorView::NotATree),
        },
    }
}

/// The entries of the tree that an object is or has.
pub open spec fn entries_at(repo: RepoView, id: Seq<u8>) -> Result<
    Seq<TreeEntryView>,
    NameErrorView,
> {
    match repo.store().object(id) {
        Err(e) => Err(NameErrorView::Odb(e)),
        Ok(ObjectView::Tree(es)) => Ok(es),
        Ok(ObjectView::Commit(c)) => match repo.store().object(c.tree) {
            Err(e) => Err(NameErrorView::Odb(e)),
            Ok(ObjectView::Tree(es)) => Ok(es),
            Ok(_) => Err(NameErrorView::BadCommitTree),
        },
        Ok(_) => Err(NameErrorView::NotATree),
    }
}

/// A ref's full name.
pub(crate) fn full_name(prefix: &str, name: &[u8]) -> (r: Vec<u8>)
    requires
        vstd::utf8::is_ascii_chars(prefix@),
    ensures
        r@ == ascii(prefix@) + name@,
{
    let mut out: Vec<u8> = Vec::new();
    push_text(&mut out, prefix);
    push_all(&mut out, name);
    assert(out@ =~= ascii(prefix@) + name@);
    out
}

impl Repository {
    /// Looks a name up among the refs.
    fn find_named_ref(&self, name: &[u8]) -> (r: Option<Result<ObjectId, RefError>>)
        ensures
            match r {
                Some(Ok(id)) => named_ref(self@, name@) == Some(
                    Ok::<Seq<u8>, RefErrorView>(id@),
                ),
                Some(Err(e)) => named_ref(self@, name@) == Some(
                    Err::<Seq<u8>, RefErrorView>(e@),
                ),
                None => named_ref(self@, name@) is None,
            },
    {
        proof {
            reveal_strlit("HEAD");
            reveal_strlit("refs/");
            reveal_strlit("refs/heads/");
            reveal_strlit("refs/tags/");
            reveal_strlit("refs/remotes/");
        }
        if same_bytes(name, text("HEAD")) || has_prefix(name, text("refs/")) {
            return Some(self.read_ref_bytes(name));
        }
        if let Ok(id) = self.read_ref_bytes(&full_name("refs/heads/", name)) {
            return Some(Ok(id));
        }
        if let Ok(id) = self.read_ref_bytes(&full_name("refs/tags/", name)) {
            return Some(Ok(id));
        }
        if let Ok(id) = self.read_ref_bytes(&full_name("refs/remotes/", name)) {
            return Some(Ok(id));
        }
        None
    }

    /// Finds the object that a ref's name, or the beginning of an id, leads
    /// to.
    pub fn resolve_ref_or_id(&self, name: &str) -> (r: Result<ObjectId, NameError>)
        ensures
            is_named(self@, name@, id_result(r)),
    {
        match self.find_named_ref(name.as_bytes()) {
            Some(Ok(id)) => Ok(id),
            Some(Err(e)) => Err(NameError::Ref(e)),
            None => match self.resolve_id(name) {
                Ok(id) => Ok(id),
                Err(e) => Err(NameError::Id(e)),
            },
        }
    }

    /// The id of the tree that an object is or has.
    pub fn tree_of_object(&self, id: &ObjectId) -> (r: Result<ObjectId, NameError>)
        ensures
            id_result(r) == tree_id_at(self@, id@),
    {
        match self.read_object(id) {
            Err(e) => Err(NameError::Odb(e)),
            Ok(Object::Commit(c)) => Ok(c.tree),
            Ok(Object::Tree(_)) => Ok(*id),
            Ok(_) => Err(NameError::NotATree),
        }
    }

    /// Finds the tree that a name leads to.
    pub fn resolve_to_tree(&self, name: &str) -> (r: Result<ObjectId, NameError>)
        ensures
            exists|x: Result<Seq<u8>, NameErrorView>| #[trigger]
                is_named(self@, name@, x) && match x {
                    Err(e) => id_result(r) == Err::<Seq<u8>, _>(e),
                    Ok(id) => id_result(r) == tree_id_at(self@, id),
                },
    {
        match self.resolve_ref_or_id(name) {
            Err(e) => {
                assert(is_named(self@, name@, Err(e@)));
                Err(e)
            },
            Ok(id) => {
                assert(is_named(self@, name@, Ok(id@)));
                self.tree_of_object(&id)
            },
        }
    }

    /// Reads the tree that an object is or has.
    pub fn tree_at(&self, id: &ObjectId) -> (r: Result<Tree, NameError>)
        ensures
            match r {
                Ok(t) => entries_at(self@, id@) == Ok::<_, NameErrorView>(t@),
                Err(e) => entries_at(self@, id@) == Err::<Seq<TreeEntryView>, _>(e@),
            },
    {
        match self.read_object(id) {
            Err(e) => Err(NameError::Odb(e)),
            Ok(Object::Tree(t)) => Ok(t),
            Ok(Object::Commit(c)) => match self.read_object(&c.tree) {
                Err(e) => Err(NameError::Odb(e)),
                Ok(Object::Tree(t)) => Ok(t),
                Ok(_) => Err(NameError::BadCommitTree),
            },
            Ok(_) => Err(NameError::NotATree),
        }
    }
}

} // verus!
