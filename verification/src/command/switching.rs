//! Switching to a branch or a commit.

use vstd::prelude::*;
use vstd::utf8::{
    decode_utf8_encode_utf8, encode_utf8, encode_utf8_valid_utf8, valid_utf8, valid_utf8_concat,
};

use super::naming::{full_name, is_named, tree_id_at, NameError, NameErrorView};
use crate::bytes::{ascii, has_prefix, text, LF};
use crate::index::Time;
use crate::notation::{ascii_bytes_encode, hex, is_ascii_bytes, lossy_string, text_of};
use crate::object::ObjectId;
use crate::odb::{RepoView, Repository};
use crate::refs::laws::{law_detach_then_read, law_point_head};
use crate::refs::{
    head_pointed, head_value, ref_value, ref_written, HeadView, RefError, RefErrorView,
};
use crate::workdir::switching::{switched, SwitchError, SwitchErrorView};

verus! {

/// Where HEAD was switched to.
#[derive(Debug, Clone, PartialEq, Eq)]
pub enum Destination {
    /// A branch, by full name.
    Branch(String),
    /// A commit itself.
    Commit(ObjectId),
}

/// What a [`Destination`] says.
pub enum DestinationView {
    Branch(Seq<char>),
    Commit(Seq<u8>),
}

impl View for Destination {
    type V = DestinationView;

    open spec fn view(&self) -> DestinationView {
        match self {
            Destination::Branch(b) => DestinationView::Branch(b@),
            Destination::Commit(id) => DestinationView::Commit(id@),
        }
    }
}

/// Why nothing was switched.
#[derive(Debug, Clone, PartialEq, Eq)]
pub enum CheckoutError {
    /// The name leads nowhere, or not to a tree.
    Name(NameError),
    /// Working tree or index could not be replaced.
    Switch(SwitchError),
    /// HEAD could not be moved.
    Refs(RefError),
}

/// What a [`CheckoutError`] says.
pub enum CheckoutErrorView {
    Name(NameErrorView),
    Switch(SwitchErrorView),
    Refs(RefErrorView),
}

impl View for CheckoutError {
    type V = CheckoutErrorView;

    open spec fn view(&self) -> CheckoutErrorView {
        match self {
            CheckoutError::Name(e) => CheckoutErrorView::Name(e@),
            CheckoutError::Switch(e) => CheckoutErrorView::Switch(e@),
            CheckoutError::Refs(e) => CheckoutErrorView::Refs(e@),
        }
    }
}

/// The ref that HEAD is pointed at for a name, if it is pointed at one.
pub open spec fn branch_for(repo: RepoView, target: Seq<u8>) -> Option<Seq<u8>> {
    if ascii("refs/"@).is_prefix_of(target) {
        Some(target)
    } else if ref_value(repo, ascii("refs/heads/"@) + target) is Ok {
        Some(ascii("refs/heads/"@) + target)
    } else {
        None
    }
}

/// The repository after switching to an object under a name, and where HEAD
/// was switched to or what went wrong.
pub open spec fn checked_out(repo: RepoView, target: Seq<u8>, id: Seq<u8>, now: Time) -> (
    RepoView,
    Result<DestinationView, CheckoutErrorView>,
) {
    match tree_id_at(repo, id) {
        Err(e) => (repo, Err(CheckoutErrorView::Name(e))),
        Ok(tree) => {
            let (r1, fault1) = switched(repo, tree, now);
            match fault1 {
                Some(e) => (r1, Err(CheckoutErrorView::Switch(e))),
                None => match branch_for(r1, target) {
                    Some(branch) => {
                        let (r2, fault2) = head_pointed(r1, branch);
                        match fault2 {
                            Some(e) => (r2, Err(CheckoutErrorView::Refs(e))),
                            None => (r2, Ok(DestinationView::Branch(text_of(branch)))),
                        }
                    },
                    None => {
                        let (r2, fault2) = ref_written(r1, ascii("HEAD"@), hex(id).push(LF));
                        match fault2 {
                            Some(e) => (r2, Err(CheckoutErrorView::Refs(e))),
                            None => (r2, Ok(DestinationView::Commit(id))),
                        }
                    },
                },
            }
        },
    }
}

/// The result of a switch.
pub open spec fn destination(r: Result<Destination, CheckoutError>) -> Result<
    DestinationView,
    CheckoutErrorView,
> {
    match r {
        Ok(d) => Ok(d@),
        Err(e) => Err(e@),
    }
}

impl Repository {
    /// The ref that HEAD is to be pointed at for a name.
    fn find_branch(&self, target: &str) -> (r: Option<String>)
        ensures
            match r {
                Some(b) => branch_for(self@, encode_utf8(target@)) == Some(encode_utf8(b@)) && b@
                    == text_of(encode_utf8(b@)),
                None => branch_for(self@, encode_utf8(target@)) is None,
            },
    {
        proof {
            reveal_strlit("refs/");
            reveal_strlit("refs/heads/");
        }
        let t = target.as_bytes();
        if has_prefix(t, text("refs/")) {
            proof {
                crate::notation::text_of_encoded(target@);
            }
            return Some(target.to_owned());
        }
        let full = full_name("refs/heads/", t);
        match self.read_ref_bytes(&full) {
            Err(_) => None,
            Ok(_) => {
                let name = lossy_string(&full);
                proof {
                    let p = ascii("refs/heads/"@);
                    assert(is_ascii_bytes(p));
                    ascii_bytes_encode(p);
                    encode_utf8_valid_utf8(target@);
                    valid_utf8_concat(p, t@);
                    decode_utf8_encode_utf8(full@);
                }
                Some(name)
            },
        }
    }

    /// Replaces working tree and index by those of a commit or tree, and
    /// points HEAD at the branch that `target` names, or else at the
    /// object.
    pub fn checkout_object(&mut self, target: &str, id: &ObjectId, now: Time) -> (r: Result<
        Destination,
        CheckoutError,
    >)
        ensures
            checked_out(old(self)@, encode_utf8(target@), id@, now) == (
                final(self)@,
                destination(r),
            ),
    {
        let tree: ObjectId = match self.tree_of_object(id) {
            Ok(t) => t,
            Err(e) => return Err(CheckoutError::Name(e)),
        };
        match self.switch_work_tree(&tree, now) {
            Ok(_) => {},
            Err(e) => return Err(CheckoutError::Switch(e)),
        }
        match self.find_branch(target) {
            Some(branch) => match self.set_head_symbolic(branch.as_str()) {
                Ok(_) => Ok(Destination::Branch(branch)),
                Err(e) => Err(CheckoutError::Refs(e)),
            },
            None => match self.set_head_detached(id) {
                Ok(_) => Ok(Destination::Commit(*id)),
                Err(e) => Err(CheckoutError::Refs(e)),
            },
        }
    }

    /// Switches to what a name leads to. Where the name leads nowhere,
    /// nothing changes.
    pub fn checkout_target(&mut self, target: &str, now: Time) -> (r: Result<
        Destination,
        CheckoutError,
    >)
        ensures
            exists|x: Result<Seq<u8>, NameErrorView>| #[trigger]
                is_named(old(self)@, target@, x) && match x {
                    Err(e) => final(self)@ == old(self)@ && destination(r) == Err::<
                        DestinationView,
                        _,
                    >(CheckoutErrorView::Name(e)),
                    Ok(id) => checked_out(old(self)@, encode_utf8(target@), id, now) == (
                        final(self)@,
                        destination(r),
                    ),
                },
    {
        match self.resolve_ref_or_id(target) {
            Err(e) => {
                assert(is_named(self@, target@, Err(e@)));
                Err(CheckoutError::Name(e))
            },
            Ok(id) => {
                assert(is_named(self@, target@, Ok(id@)));
                self.checkout_object(target, &id, now)
            },
        }
    }
}

/// Law: after a switch HEAD is where the switch says: on the branch, or at
/// the object itself.
pub proof fn law_checkout_then_read_head(repo: RepoView, target: Seq<u8>, id: Seq<u8>, now: Time)
    requires
        id.len() == 20,
        valid_utf8(target),
    ensures
        match checked_out(repo, target, id, now) {
            (after, Ok(DestinationView::Branch(b))) => head_value(after.git) == Ok::<
                _,
                RefErrorView,
            >(HeadView::Symbolic(b)),
            (after, Ok(DestinationView::Commit(c))) => c == id && head_value(after.git) == Ok::<
                _,
                RefErrorView,
            >(HeadView::Detached(id)),
            (_, Err(_)) => true,
        },
{
    match checked_out(repo, target, id, now).1 {
        Ok(d) => {
            let r1 = switched(repo, tree_id_at(repo, id)->Ok_0, now).0;
            match branch_for(r1, target) {
                Some(branch) => {
                    reveal_strlit("refs/heads/");
                    let p = ascii("refs/heads/"@);
                    assert(is_ascii_bytes(p));
                    ascii_bytes_encode(p);
                    valid_utf8_concat(p, target);
                    law_point_head(r1, branch);
                },
                None => {
                    law_detach_then_read(r1, id);
                },
            }
        },
        Err(_) => {},
    }
}

} // verus!
