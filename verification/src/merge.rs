//! Merging by fast-forward.

use vstd::prelude::*;
use vstd::utf8::encode_utf8;

use crate::bytes::{ascii, text, LF};
use crate::files::IoError;
use crate::idset::IdSet;
use crate::index::{IndexError, IndexErrorView, Time};
use crate::notation::hex;
use crate::object::commit::ids_view;
use crate::object::{Object, ObjectId, ObjectView, ParseError, ParseErrorView};
use crate::odb::{OdbError, OdbErrorView, RepoView, Repository, Store};
use crate::refs::{head_value, ref_value, ref_written, HeadState, HeadView, RefError, RefErrorView};
use crate::treewalk::object_bound;
use crate::workdir::switching::{switched, SwitchError, SwitchErrorView};
use crate::workdir::{WorkdirError, WorkdirErrorView};

pub mod laws;

verus! {

/// What a merge did.
#[derive(Debug, Clone, PartialEq, Eq)]
pub enum MergeResult {
    /// The target is what HEAD leads to already.
    UpToDate,
    /// HEAD's branch was moved to the target.
    FastForwarded { from: ObjectId, to: ObjectId },
}

/// What a [`MergeResult`] says.
pub enum MergeView {
    UpToDate,
    FastForwarded(Seq<u8>, Seq<u8>),
}

impl View for MergeResult {
    type V = MergeView;

    open spec fn view(&self) -> MergeView {
        match self {
            MergeResult::UpToDate => MergeView::UpToDate,
            MergeResult::FastForwarded { from, to } => MergeView::FastForwarded(from@, to@),
        }
    }
}

/// Errors of merging.
#[derive(Debug, Clone, PartialEq, Eq)]
pub enum MergeError {
    /// A file could not be read or written.
    Io(IoError),
    /// The object database failed.
    Odb(OdbError),
    /// The refs failed.
    Refs(RefError),
    /// The working tree failed.
    Workdir(WorkdirError),
    /// The index failed.
    Index(IndexError),
    /// An object cannot be parsed.
    Object(ParseError),
    /// The target is no commit.
    NotACommit,
    /// HEAD is no ancestor of the target.
    NonFastForward,
}

/// What a [`MergeError`] says.
pub enum MergeErrorView {
    Io(IoError),
    Odb(OdbErrorView),
    Refs(RefErrorView),
    Workdir(WorkdirErrorView),
    Index(IndexErrorView),
    Object(ParseErrorView),
    NotACommit,
    NonFastForward,
}

impl View for MergeError {
    type V = MergeErrorView;

    open spec fn view(&self) -> MergeErrorView {
        match self {
            MergeError::Io(e) => MergeErrorView::Io(*e),
            MergeError::Odb(e) => MergeErrorView::Odb(e@),
            MergeError::Refs(e) => MergeErrorView::Refs(e@),
            MergeError::Workdir(e) => MergeErrorView::Workdir(e@),
            MergeError::Index(e) => MergeErrorView::Index(e@),
            MergeError::Object(e) => MergeErrorView::Object(e@),
            MergeError::NotACommit => MergeErrorView::NotACommit,
            MergeError::NonFastForward => MergeErrorView::NonFastForward,
        }
    }
}

// ---------------------------------------------------------------------
// Ancestors
// ---------------------------------------------------------------------

/// The ids of a list that are not in a set, in order.
pub open spec fn fresh(ids: Seq<Seq<u8>>, seen: Set<Seq<u8>>) -> Seq<Seq<u8>>
    decreases ids.len(),
{
    if ids.len() == 0 {
        ids
    } else if seen.contains(ids.last()) {
        fresh(ids.drop_last(), seen)
    } else {
        fresh(ids.drop_last(), seen).push(ids.last())
    }
}

/// Searches the ancestors of the commits on a stack, the last first. Says
/// whether one of them has `ancestor` as a parent, or why an object on the
/// way cannot be read. `fuel` bounds the number of objects read.
pub open spec fn ancestor_search(
    s: Store,
    ancestor: Seq<u8>,
    stack: Seq<Seq<u8>>,
    seen: Set<Seq<u8>>,
    fuel: nat,
) -> Result<bool, OdbErrorView>
    decreases fuel, stack.len(),
{
    if stack.len() == 0 {
        Ok(false)
    } else {
        let id = stack.last();
        let rest = stack.drop_last();
        if seen.contains(id) {
            ancestor_search(s, ancestor, rest, seen, fuel)
        } else if fuel == 0 {
            Err(OdbErrorView::CyclicObjects(id))
        } else {
            let now = seen.insert(id);
            match s.object(id) {
                Err(e) => Err(e),
                Ok(ObjectView::Commit(c)) => if c.parents.contains(ancestor) {
                    Ok(true)
                } else {
                    ancestor_search(
                        s,
                        ancestor,
                        rest + fresh(c.parents, now),
                        now,
                        (fuel - 1) as nat,
                    )
                },
                Ok(_) => ancestor_search(s, ancestor, rest, now, (fuel - 1) as nat),
            }
        }
    }
}

/// Whether `ancestor` is `descendant` or one of its ancestors, or why an
/// object on the way cannot be read.
pub open spec fn ancestry(s: Store, ancestor: Seq<u8>, descendant: Seq<u8>) -> Result<
    bool,
    OdbErrorView,
> {
    if ancestor == descendant {
        Ok(true)
    } else {
        ancestor_search(s, ancestor, seq![descendant], Set::empty(), object_bound(s))
    }
}

/// Pushes the parents that were not seen; says whether `ancestor` is among
/// the parents.
fn push_fresh(
    parents: &Vec<ObjectId>,
    ancestor: &ObjectId,
    seen: &IdSet,
    stack: &mut Vec<ObjectId>,
) -> (r: bool)
    ensures
        r <==> ids_view(parents@).contains(ancestor@),
        !r ==> ids_view(final(stack)@) == ids_view(old(stack)@) + fresh(
            ids_view(parents@),
            seen@,
        ),
{
    let ghost v = ids_view(parents@);
    let ghost start = ids_view(stack@);
    let mut i: usize = 0;
    assert(ids_view(stack@) =~= start + fresh(v.take(0), seen@));
    while i < parents.len()
        invariant
            i <= parents@.len(),
            v == ids_view(parents@),
            forall|j: int| 0 <= j < i ==> #[trigger] v[j] != ancestor@,
            ids_view(stack@) == start + fresh(v.take(i as int), seen@),
        decreases parents.len() - i,
    {
        let p: ObjectId = parents[i];
        let ghost before = stack@;
        proof {
            assert(v[i as int] == p@);
            assert(v.take(i + 1).drop_last() =~= v.take(i as int));
            assert(v.take(i + 1).last() == p@);
        }
        if p == *ancestor {
            assert(v.contains(ancestor@));
            return true;
        }
        if !seen.contains(&p) {
            stack.push(p);
            assert(ids_view(stack@) =~= ids_view(before).push(p@));
        }
        assert(ids_view(stack@) =~= start + fresh(v.take(i + 1), seen@));
        i += 1;
    }
    assert(v.take(i as int) =~= v);
    false
}

impl Repository {
    /// Whether `ancestor` is `descendant` or one of its ancestors.
    pub fn is_ancestor(&self, ancestor: &ObjectId, descendant: &ObjectId) -> (r: Result<
        bool,
        OdbError,
    >)
        ensures
            match r {
                Ok(b) => ancestry(self@.store(), ancestor@, descendant@) == Ok::<_, OdbErrorView>(
                    b,
                ),
                Err(e) => ancestry(self@.store(), ancestor@, descendant@) == Err::<bool, _>(e@),
            },
    {
        if *ancestor == *descendant {
            return Ok(true);
        }
        let ghost s = self@.store();
        let mut stack: Vec<ObjectId> = Vec::new();
        stack.push(*descendant);
        let mut seen = IdSet::new();
        let mut fuel: usize = self.object_bound();
        let ghost goal = ancestry(s, ancestor@, descendant@);
        assert(ids_view(stack@) =~= seq![descendant@]);
        while stack.len() > 0
            invariant
                s == self@.store(),
                goal == ancestry(s, ancestor@, descendant@),
                ancestor_search(s, ancestor@, ids_view(stack@), seen@, fuel as nat) == goal,
            decreases fuel, stack.len(),
        {
            let ghost before = ids_view(stack@);
            let id: ObjectId = match stack.pop() {
                Some(id) => id,
                None => return Ok(false),
            };
            proof {
                assert(before.last() == id@);
                assert(ids_view(stack@) =~= before.drop_last());
            }
            if !seen.contains(&id) {
                if fuel == 0 {
                    return Err(OdbError::CyclicObjects(id));
                }
                seen.insert(&id);
                fuel -= 1;
                match self.read_object(&id) {
                    Err(e) => return Err(e),
                    Ok(Object::Commit(c)) => {
                        if push_fresh(&c.parents, ancestor, &seen, &mut stack) {
                            return Ok(true);
                        }
                    },
                    Ok(_) => {},
                }
            }
        }
        Ok(false)
    }
}

// ---------------------------------------------------------------------
// Fast-forward
// ---------------------------------------------------------------------

/// The repository after HEAD's branch, or HEAD itself if it is detached,
/// was moved to a commit, and what went wrong, if anything.
pub open spec fn head_moved(repo: RepoView, id: Seq<u8>) -> (RepoView, Option<RefErrorView>) {
    match head_value(repo.git) {
        Err(e) => (repo, Some(e)),
        Ok(HeadView::Symbolic(branch)) => ref_written(
            repo,
            encode_utf8(branch),
            hex(id).push(LF),
        ),
        Ok(HeadView::Detached(_)) => ref_written(repo, ascii("HEAD"@), hex(id).push(LF)),
    }
}

/// The error of a failed switch.
pub open spec fn switch_error(e: SwitchErrorView) -> MergeErrorView {
    match e {
        SwitchErrorView::Index(x) => MergeErrorView::Index(x),
        SwitchErrorView::Workdir(x) => MergeErrorView::Workdir(x),
    }
}

/// The repository after working tree, index and HEAD's branch were moved to
/// a commit, and what went wrong, if anything.
pub open spec fn advanced(repo: RepoView, target: Seq<u8>, now: Time) -> (
    RepoView,
    Option<MergeErrorView>,
) {
    match repo.store().object(target) {
        Err(e) => (repo, Some(MergeErrorView::Odb(e))),
        Ok(ObjectView::Commit(c)) => {
            let (r1, fault1) = switched(repo, c.tree, now);
            match fault1 {
                Some(e) => (r1, Some(switch_error(e))),
                None => {
                    let (r2, fault2) = head_moved(r1, target);
                    match fault2 {
                        Some(e) => (r2, Some(MergeErrorView::Refs(e))),
                        None => (r2, None),
                    }
                },
            }
        },
        Ok(_) => (repo, Some(MergeErrorView::NotACommit)),
    }
}

/// The repository after merging `target` by fast-forward, and what the
/// merge did or why it failed.
pub open spec fn merged(repo: RepoView, target: Seq<u8>, now: Time) -> (
    RepoView,
    Result<MergeView, MergeErrorView>,
) {
    let s = repo.store();
    match ref_value(repo, ascii("HEAD"@)) {
        Err(e) => (repo, Err(MergeErrorView::Refs(e))),
        Ok(head) => if head == target {
            (repo, Ok(MergeView::UpToDate))
        } else {
            match ancestry(s, head, target) {
                Err(e) => (repo, Err(MergeErrorView::Odb(e))),
                Ok(false) => (repo, Err(MergeErrorView::NonFastForward)),
                Ok(true) => {
                    let (after, fault) = advanced(repo, target, now);
                    match fault {
                        Some(e) => (after, Err(e)),
                        None => (after, Ok(MergeView::FastForwarded(head, target))),
                    }
                },
            }
        },
    }
}

impl Repository {
    /// Moves HEAD's branch, or HEAD itself if it is detached, to a commit.
    pub fn move_head(&mut self, id: &ObjectId) -> (r: Result<HeadState, RefError>)
        ensures
            head_moved(old(self)@, id@) == (final(self)@, match r {
                Ok(_) => None,
                Err(e) => Some(e@),
            }),
            r matches Ok(h) ==> head_value(old(self)@.git) == Ok::<_, RefErrorView>(h@),
    {
        let head = match self.read_head() {
            Ok(h) => h,
            Err(e) => return Err(e),
        };
        let r = match &head {
            HeadState::Symbolic(branch) => self.write_ref(branch.as_str(), id),
            HeadState::Detached(_) => self.set_head_detached(id),
        };
        match r {
            Ok(_) => Ok(head),
            Err(e) => Err(e),
        }
    }

    /// Moves working tree, index and HEAD's branch to a commit.
    fn advance(&mut self, target: &ObjectId, now: Time) -> (r: Result<(), MergeError>)
        ensures
            advanced(old(self)@, target@, now) == (final(self)@, match r {
                Ok(_) => None,
                Err(e) => Some(e@),
            }),
    {
        let tree: ObjectId = match self.read_object(target) {
            Err(e) => return Err(MergeError::Odb(e)),
            Ok(Object::Commit(c)) => c.tree,
            Ok(_) => return Err(MergeError::NotACommit),
        };
        match self.switch_work_tree(&tree, now) {
            Ok(_) => {},
            Err(SwitchError::Index(e)) => return Err(MergeError::Index(e)),
            Err(SwitchError::Workdir(e)) => return Err(MergeError::Workdir(e)),
        }
        match self.move_head(target) {
            Ok(_) => Ok(()),
            Err(e) => Err(MergeError::Refs(e)),
        }
    }

    /// Merges `target` by fast-forward: where HEAD is an ancestor of it,
    /// working tree, index and HEAD's branch are moved to it. `now` is the
    /// time that the files get.
    pub fn merge_fast_forward(&mut self, target: &ObjectId, now: Time) -> (r: Result<
        MergeResult,
        MergeError,
    >)
        ensures
            merged(old(self)@, target@, now) == (final(self)@, match r {
                Ok(m) => Ok(m@),
                Err(e) => Err(e@),
            }),
    {
        proof {
            reveal_strlit("HEAD");
        }
        let head = match self.read_ref_bytes(text("HEAD")) {
            Ok(id) => id,
            Err(e) => return Err(MergeError::Refs(e)),
        };
        if head == *target {
            return Ok(MergeResult::UpToDate);
        }
        match self.is_ancestor(&head, target) {
            Err(e) => return Err(MergeError::Odb(e)),
            Ok(true) => {},
            Ok(false) => return Err(MergeError::NonFastForward),
        }
        match self.advance(target, now) {
            Ok(_) => Ok(MergeResult::FastForwarded { from: head, to: *target }),
            Err(e) => Err(e),
        }
    }
}

} // verus!
