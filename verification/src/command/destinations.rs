//! Which objects names lead to, and where a switch takes HEAD.

use vstd::prelude::*;
use vstd::utf8::encode_utf8;

use super::naming::{entries_at, is_named, named_ref, tree_id_at, NameErrorView};
use super::switching::{checked_out, DestinationView};
use crate::bytes::ascii;
use crate::index::Time;
use crate::notation::text_of;
use crate::object::{CommitView, ObjectView, TreeEntryView};
use crate::odb::resolve::is_resolution;
use crate::odb::{OdbErrorView, RepoView};
use crate::refs::{ref_value, RefErrorView};
use crate::workdir::switching::switched;

verus! {

/// A full name.
pub open spec fn full(prefix: Seq<char>, name: Seq<u8>) -> Seq<u8> {
    ascii(prefix) + name
}

/// Law: `HEAD` and names that begin with `refs/` are read as they are. Another
/// name is that of a branch if there is one, else of a tag, else of a remote's
/// branch.
pub proof fn law_named_ref(repo: RepoView, name: Seq<u8>)
    ensures
        named_ref(repo, seq![72u8, 69u8, 65u8, 68u8]) == Some(
            ref_value(repo, seq![72u8, 69u8, 65u8, 68u8]),
        ),
        named_ref(repo, full("refs/"@, name)) == Some(ref_value(repo, full("refs/"@, name))),
        name != seq![72u8, 69u8, 65u8, 68u8] && !ascii("refs/"@).is_prefix_of(name) ==> {
            let branch = ref_value(repo, full("refs/heads/"@, name));
            let tag = ref_value(repo, full("refs/tags/"@, name));
            let remote = ref_value(repo, full("refs/remotes/"@, name));
            &&& branch is Ok ==> named_ref(repo, name) == Some(branch)
            &&& branch is Err && tag is Ok ==> named_ref(repo, name) == Some(tag)
            &&& branch is Err && tag is Err && remote is Ok ==> named_ref(repo, name) == Some(
                remote,
            )
            &&& branch is Err && tag is Err && remote is Err ==> named_ref(repo, name) is None
        },
{
    reveal_strlit("HEAD");
    reveal_strlit("refs/");
    assert(ascii("HEAD"@) =~= seq![72u8, 69u8, 65u8, 68u8]);
    let f = full("refs/"@, name);
    assert(ascii("refs/"@) =~= f.take(5));
}

/// Law: a name leads to what a ref with the name leads to, and where there is
/// none to the object whose id begins with the name.
pub proof fn law_named(
    repo: RepoView,
    name: Seq<char>,
    r: Result<Seq<u8>, NameErrorView>,
    id: Seq<u8>,
)
    requires
        is_named(repo, name, r),
    ensures
        named_ref(repo, encode_utf8(name)) == Some(Ok::<_, RefErrorView>(id)) ==> r == Ok::<
            _,
            NameErrorView,
        >(id),
        named_ref(repo, encode_utf8(name)) is None && r == Ok::<_, NameErrorView>(id)
            ==> is_resolution(repo.store(), name, Ok(id)),
{
}

/// Law: a tree stands for itself, and a commit for its tree; what is neither
/// is refused.
pub proof fn law_tree_at(repo: RepoView, id: Seq<u8>, es: Seq<TreeEntryView>, c: CommitView)
    ensures
        repo.store().object(id) == Ok::<_, OdbErrorView>(ObjectView::Tree(es)) ==> tree_id_at(
            repo,
            id,
        ) == Ok::<_, NameErrorView>(id) && entries_at(repo, id) == Ok::<_, NameErrorView>(es),
        repo.store().object(id) == Ok::<_, OdbErrorView>(ObjectView::Commit(c)) ==> tree_id_at(
            repo,
            id,
        ) == Ok::<_, NameErrorView>(c.tree) && (repo.store().object(c.tree) == Ok::<
            _,
            OdbErrorView,
        >(ObjectView::Tree(es)) ==> entries_at(repo, id) == Ok::<_, NameErrorView>(es)),
        repo.store().object(id) matches Ok(o) ==> o is Blob || o is Tag ==> tree_id_at(repo, id)
            == Err::<Seq<u8>, _>(NameErrorView::NotATree) && entries_at(repo, id) == Err::<
            Seq<TreeEntryView>,
            _,
        >(NameErrorView::NotATree),
{
}

/// Law: a switch replaces working tree and index by those of the object's tree.
/// HEAD is pointed at the branch of that name, or at the ref of that full name,
/// and otherwise detached at the object.
pub proof fn law_switch_destination(
    repo: RepoView,
    target: Seq<u8>,
    id: Seq<u8>,
    now: Time,
    tree: Seq<u8>,
)
    requires
        tree_id_at(repo, id) == Ok::<_, NameErrorView>(tree),
        checked_out(repo, target, id, now).1 is Ok,
    ensures
        switched(repo, tree, now).1 is None,
        checked_out(repo, target, id, now).0.work == switched(repo, tree, now).0.work,
        ({
            let between = switched(repo, tree, now).0;
            let full_name = ascii("refs/"@).is_prefix_of(target);
            let branch = ref_value(between, full("refs/heads/"@, target)) is Ok;
            &&& full_name ==> checked_out(repo, target, id, now).1->Ok_0 == DestinationView::Branch(
                text_of(target),
            )
            &&& !full_name && branch ==> checked_out(repo, target, id, now).1->Ok_0
                == DestinationView::Branch(text_of(full("refs/heads/"@, target)))
            &&& !full_name && !branch ==> checked_out(repo, target, id, now).1->Ok_0
                == DestinationView::Commit(id)
        }),
{
}

} // verus!
