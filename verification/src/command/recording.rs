//! What the commit of the index says.

use vstd::prelude::*;

use super::committing::{committed, signature_at, CommitErrorView};
use crate::bytes::ascii;
use crate::index::store::index_of;
use crate::merge::head_moved;
use crate::object::signature::signature_of;
use crate::object::signing::{fits, law_signature_round_trip, written_signature, written_time};
use crate::object::{CommitView, ObjectView, SignatureView};
use crate::odb::{after_store, RepoView};
use crate::refs::ref_value;
use crate::workdir::staging::{index_leaves, store_tree, tree_of};

verus! {

/// Whether a commit's message is the given one, with one line feed behind it
/// where it does not end with one.
pub open spec fn says(c: CommitView, message: Seq<u8>) -> bool {
    &&& message.is_prefix_of(c.message)
    &&& c.message.len() > 0 && c.message.last() == 10
    &&& c.message.len() <= message.len() + 1
    &&& message.len() > 0 && message.last() == 10 ==> c.message.len() == message.len()
}

/// Whether a commit holds the index's tree on top of where HEAD leads once the
/// trees are stored.
pub open spec fn continues(repo: RepoView, c: CommitView) -> bool {
    index_of(repo.git) matches Ok(index) && {
        let leaves = index_leaves(index.entries);
        let stored = RepoView { git: store_tree(repo.git, leaves).0, ..repo };
        &&& index.entries.len() > 0
        &&& store_tree(repo.git, leaves).1 is None
        &&& c.tree == tree_of(leaves).id()
        &&& after_store(stored.git, ObjectView::Commit(c)).1 is None
        &&& match ref_value(stored, ascii("HEAD"@)) {
            Ok(id) => c.parents.len() == 1 && c.parents[0] == id,
            Err(_) => c.parents.len() == 0,
        }
    }
}

/// Law: the commit that is stored and named holds the index's tree on top of
/// where HEAD was, the given author as author and committer, and a message
/// that begins with the given one and has nothing behind it but one line feed
/// where the given one does not end with one.
pub proof fn law_commit_says(repo: RepoView, message: Seq<u8>, author: SignatureView)
    ensures
        committed(repo, message, author).1 matches Ok(id) ==> exists|c: CommitView|
            id == ObjectView::Commit(c).id() && #[trigger] says(c, message) && continues(repo, c)
                && c.author == author && c.committer == author && c.extra_headers.len() == 0,
{
    if let Ok(id) = committed(repo, message, author).1 {
        let leaves = index_leaves(index_of(repo.git)->Ok_0.entries);
        let stored = RepoView { git: store_tree(repo.git, leaves).0, ..repo };
        let c = super::committing::next_commit(stored, tree_of(leaves).id(), message, author);
        assert(id == ObjectView::Commit(c).id() && says(c, message) && continues(repo, c));
    }
}

/// Law: there is nothing to commit if and only if the index has no entry, and
/// then nothing changes.
pub proof fn law_nothing_to_commit(repo: RepoView, message: Seq<u8>, author: SignatureView)
    ensures
        committed(repo, message, author).1 == Err::<Seq<u8>, _>(CommitErrorView::NothingToCommit)
            <==> (index_of(repo.git) matches Ok(index) && index.entries.len() == 0),
        index_of(repo.git) matches Ok(index) && index.entries.len() == 0 ==> committed(
            repo,
            message,
            author,
        ).0 == repo,
{
}

/// Law: two messages that differ by more than one line feed at the end give
/// commits with different messages.
pub proof fn law_messages_differ(c: CommitView, d: CommitView, a: Seq<u8>, b: Seq<u8>)
    requires
        says(c, a),
        says(d, b),
        c.message == d.message,
    ensures
        a == b || a == b.push(10) || b == a.push(10),
{
    assert(a =~= c.message.take(a.len() as int));
    assert(b =~= c.message.take(b.len() as int));
    if a.len() == b.len() + 1 {
        assert(a.len() == c.message.len());
        assert(a =~= b.push(10));
    } else if b.len() == a.len() + 1 {
        assert(b =~= a.push(10));
    }
}

/// Law: the signature of a commit names its maker and time, in UTC, and its
/// line reads back to just that, provided that the name has no `<` and no
/// space at its end and the email no `>`.
pub proof fn law_signature_at(name: Seq<u8>, email: Seq<u8>, now: int)
    requires
        forall|i: int| 0 <= i < name.len() ==> #[trigger] name[i] != 60,
        name.len() > 0 ==> name.last() != 32,
        forall|i: int| 0 <= i < email.len() ==> #[trigger] email[i] != 62,
        fits(now),
    ensures
        signature_of(signature_at(name, email, now).raw) == Some(signature_at(name, email, now)),
        signature_at(name, email, now) == (SignatureView {
            raw: written_signature(name, email, now, seq![43u8, 48u8, 48u8, 48u8, 48u8]),
            name: Some(name),
            email: Some(email),
            timestamp: Some(now),
            timezone: Some(seq![43u8, 48u8, 48u8, 48u8, 48u8]),
        }),
{
    reveal_strlit(" <");
    reveal_strlit("> ");
    reveal_strlit(" +0000");
    reveal_strlit("+0000");
    let zone = seq![43u8, 48u8, 48u8, 48u8, 48u8];
    assert(ascii("+0000"@) =~= zone);
    let s = signature_at(name, email, now);
    assert(written_time(now) =~= super::committing::signed_decimal(now));
    assert(s.raw =~= written_signature(name, email, now, zone));
    law_signature_round_trip(name, email, now, zone);
}

/// Law: a commit is made wherever there is something to commit and the trees, the
/// commit and HEAD's new place can be stored.
pub proof fn law_commit_succeeds(
    repo: RepoView,
    message: Seq<u8>,
    author: SignatureView,
    c: CommitView,
)
    requires
        says(c, message),
        continues(repo, c),
        c.author == author,
        c.committer == author,
        c.extra_headers.len() == 0,
        ({
            let leaves = index_leaves(index_of(repo.git)->Ok_0.entries);
            let git = after_store(store_tree(repo.git, leaves).0, ObjectView::Commit(c)).0;
            head_moved(RepoView { git, ..repo }, ObjectView::Commit(c).id()).1 is None
        }),
    ensures
        committed(repo, message, author).1 == Ok::<_, CommitErrorView>(ObjectView::Commit(c).id()),
{
    let leaves = index_leaves(index_of(repo.git)->Ok_0.entries);
    let stored = RepoView { git: store_tree(repo.git, leaves).0, ..repo };
    let d = super::committing::next_commit(stored, tree_of(leaves).id(), message, author);
    assert(c.message =~= d.message) by {
        assert(message =~= c.message.take(message.len() as int));
    }
    assert(c.parents =~= d.parents);
    assert(c.extra_headers =~= d.extra_headers);
    assert(c == d);
}

} // verus!
