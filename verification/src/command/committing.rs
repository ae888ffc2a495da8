//! Recording the index as a commit.

use vstd::prelude::*;
use vstd::utf8::encode_utf8;

use crate::bytes::{ascii, push_all, push_text, to_vec, LF, MINUS};
use crate::index::store::index_of;
use crate::index::{IndexError, IndexErrorView};
use crate::merge::head_moved;
use crate::notation::{decimal, push_decimal_u64};
use crate::object::{Commit, CommitView, Object, ObjectId, ObjectView, Signature, SignatureView};
use crate::odb::{after_store, OdbError, OdbErrorView, RepoView, Repository};
use crate::refs::laws::law_move_head_then_read;
use crate::refs::{ref_value, RefError, RefErrorView};
use crate::workdir::staging::{index_leaves, store_tree, tree_of};
use crate::workdir::{WorkdirError, WorkdirErrorView};

verus! {

/// Why nothing was committed.
#[derive(Debug, Clone, PartialEq, Eq)]
pub enum CommitError {
    /// The index is empty.
    NothingToCommit,
    /// The index failed.
    Index(IndexError),
    /// The trees could not be stored.
    Workdir(WorkdirError),
    /// The commit could not be stored.
    Odb(OdbError),
    /// HEAD could not be moved.
    Refs(RefError),
}

/// What a [`CommitError`] says.
pub enum CommitErrorView {
    NothingToCommit,
    Index(IndexErrorView),
    Workdir(WorkdirErrorView),
    Odb(OdbErrorView),
    Refs(RefErrorView),
}

impl View for CommitError {
    type V = CommitErrorView;

    open spec fn view(&self) -> CommitErrorView {
        match self {
            CommitError::NothingToCommit => CommitErrorView::NothingToCommit,
            CommitError::Index(e) => CommitErrorView::Index(e@),
            CommitError::Workdir(e) => CommitErrorView::Workdir(e@),
            CommitError::Odb(e) => CommitErrorView::Odb(e@),
            CommitError::Refs(e) => CommitErrorView::Refs(e@),
        }
    }
}

/// A number in decimal notation, with a minus sign where it is negative.
pub open spec fn signed_decimal(n: int) -> Seq<u8> {
    if n < 0 {
        seq![MINUS] + decimal((-n) as nat)
    } else {
        decimal(n as nat)
    }
}

/// The signature of a commit made at a time, in seconds since 1970, UTC.
pub open spec fn signature_at(name: Seq<u8>, email: Seq<u8>, now: int) -> SignatureView {
    SignatureView {
        raw: name + ascii(" <"@) + email + ascii("> "@) + signed_decimal(now) + ascii(" +0000"@),
        name: Some(name),
        email: Some(email),
        timestamp: Some(now),
        timezone: Some(ascii("+0000"@)),
    }
}

/// A message that ends with a line feed.
pub open spec fn ended(message: Seq<u8>) -> Seq<u8> {
    if message.len() > 0 && message.last() == LF {
        message
    } else {
        message.push(LF)
    }
}

/// The commit of a tree on top of where HEAD is.
pub open spec fn next_commit(
    repo: RepoView,
    tree: Seq<u8>,
    message: Seq<u8>,
    author: SignatureView,
) -> CommitView {
    CommitView {
        tree,
        parents: match ref_value(repo, ascii("HEAD"@)) {
            Ok(id) => seq![id],
            Err(_) => Seq::empty(),
        },
        author,
        committer: author,
        extra_headers: Seq::empty(),
        message: ended(message),
    }
}

/// The repository after the index was committed, and the new commit's id or
/// what went wrong.
pub open spec fn committed(repo: RepoView, message: Seq<u8>, author: SignatureView) -> (
    RepoView,
    Result<Seq<u8>, CommitErrorView>,
) {
    match index_of(repo.git) {
        Err(e) => (repo, Err(CommitErrorView::Index(e))),
        Ok(index) => if index.entries.len() == 0 {
            (repo, Err(CommitErrorView::NothingToCommit))
        } else {
            let leaves = index_leaves(index.entries);
            let (git1, fault1) = store_tree(repo.git, leaves);
            let r1 = RepoView { git: git1, ..repo };
            match fault1 {
                Some(e) => (r1, Err(CommitErrorView::Workdir(WorkdirErrorView::Odb(e)))),
                None => {
                    let o = ObjectView::Commit(
                        next_commit(r1, tree_of(leaves).id(), message, author),
                    );
                    let (git2, fault2) = after_store(git1, o);
                    let r2 = RepoView { git: git2, ..repo };
                    match fault2 {
                        Some(e) => (r2, Err(CommitErrorView::Odb(e))),
                        None => {
                            let (r3, fault3) = head_moved(r2, o.id());
                            match fault3 {
                                Some(e) => (r3, Err(CommitErrorView::Refs(e))),
                                None => (r3, Ok(o.id())),
                            }
                        },
                    }
                },
            }
        },
    }
}

/// The signature of a commit made now.
pub fn make_signature(name: &str, email: &str, now: i64) -> (r: Signature)
    ensures
        r@ == signature_at(encode_utf8(name@), encode_utf8(email@), now as int),
{
    proof {
        reveal_strlit(" <");
        reveal_strlit("> ");
        reveal_strlit(" +0000");
        reveal_strlit("+0000");
    }
    let mut raw = to_vec(name.as_bytes());
    push_text(&mut raw, " <");
    push_all(&mut raw, email.as_bytes());
    push_text(&mut raw, "> ");
    if now < 0 {
        raw.push(MINUS);
        push_decimal_u64(&mut raw, (-(now as i128)) as u64);
    } else {
        push_decimal_u64(&mut raw, now as u64);
    }
    push_text(&mut raw, " +0000");
    let mut timezone: Vec<u8> = Vec::new();
    push_text(&mut timezone, "+0000");
    let r = Signature {
        raw,
        name: Some(to_vec(name.as_bytes())),
        email: Some(to_vec(email.as_bytes())),
        timestamp: Some(now),
        timezone: Some(timezone),
    };
    let ghost want = signature_at(encode_utf8(name@), encode_utf8(email@), now as int);
    assert(r@.raw =~= want.raw);
    assert(timezone@ =~= ascii("+0000"@));
    r
}

impl Repository {
    /// Records the index as a commit on top of where HEAD is, moves HEAD's
    /// branch, or HEAD itself if it is detached, to it, and gives its id.
    /// `now` is in seconds since 1970.
    pub fn commit_index(&mut self, message: &str, name: &str, email: &str, now: i64) -> (r: Result<
        ObjectId,
        CommitError,
    >)
        ensures
            committed(
                old(self)@,
                encode_utf8(message@),
                signature_at(encode_utf8(name@), encode_utf8(email@), now as int),
            ) == (final(self)@, match r {
                Ok(id) => Ok(id@),
                Err(e) => Err(e@),
            }),
    {
        proof {
            reveal_strlit("HEAD");
        }
        let index = match self.read_index() {
            Ok(i) => i,
            Err(e) => return Err(CommitError::Index(e)),
        };
        if index.entries().len() == 0 {
            return Err(CommitError::NothingToCommit);
        }
        let tree: ObjectId = match self.build_tree_from_index(&index) {
            Ok(id) => id,
            Err(e) => return Err(CommitError::Workdir(e)),
        };
        let mut parents: Vec<ObjectId> = Vec::new();
        match self.read_ref("HEAD") {
            Ok(id) => parents.push(id),
            Err(_) => {},
        }
        let mut text = to_vec(message.as_bytes());
        if text.len() == 0 || text[text.len() - 1] != LF {
            text.push(LF);
        }
        let commit = Commit {
            tree,
            parents,
            author: make_signature(name, email, now),
            committer: make_signature(name, email, now),
            extra_headers: Vec::new(),
            message: text,
        };
        proof {
            vstd::utf8::is_ascii_chars_encode_utf8("HEAD"@);
            let author = signature_at(encode_utf8(name@), encode_utf8(email@), now as int);
            let want = next_commit(self@, tree@, encode_utf8(message@), author);
            assert(encode_utf8("HEAD"@) =~= ascii("HEAD"@));
            assert(commit@.parents =~= want.parents);
            assert(commit@.extra_headers =~= want.extra_headers);
            assert(commit@ == want);
        }
        let id: ObjectId = match self.write_object(&Object::Commit(commit)) {
            Ok(id) => id,
            Err(e) => return Err(CommitError::Odb(e)),
        };
        match self.move_head(&id) {
            Ok(_) => Ok(id),
            Err(e) => Err(CommitError::Refs(e)),
        }
    }
}

/// Law: after a commit HEAD leads to the new commit, which is the one of
/// the index's tree on top of where HEAD led once the trees were stored.
pub proof fn law_commit_then_read_head(repo: RepoView, message: Seq<u8>, author: SignatureView)
    ensures
        committed(repo, message, author).1 matches Ok(id) ==> id.len() == 20 ==> {
            let leaves = index_leaves(index_of(repo.git)->Ok_0.entries);
            let stored = RepoView { git: store_tree(repo.git, leaves).0, ..repo };
            let c = next_commit(stored, tree_of(leaves).id(), message, author);
            &&& id == ObjectView::Commit(c).id()
            &&& ref_value(committed(repo, message, author).0, ascii("HEAD"@)) == Ok::<
                _,
                RefErrorView,
            >(id)
        },
{
    if let Ok(id) = committed(repo, message, author).1 {
        if id.len() == 20 {
            let leaves = index_leaves(index_of(repo.git)->Ok_0.entries);
            let git1 = store_tree(repo.git, leaves).0;
            let stored = RepoView { git: git1, ..repo };
            let o = ObjectView::Commit(
                next_commit(stored, tree_of(leaves).id(), message, author),
            );
            let r2 = RepoView { git: after_store(git1, o).0, ..repo };
            law_move_head_then_read(r2, id);
        }
    }
}

} // verus!
