//! The objects that can be reached from an object.

use vstd::prelude::*;

use crate::idset::IdSet;
use crate::object::commit::ids_view;
use crate::object::{EntryMode, Object, ObjectId, ObjectView, Tree, TreeEntryView};
use crate::odb::{OdbError, OdbErrorView, Repository, Store};
use crate::treewalk::object_bound;

use super::{TransportError, TransportErrorView};

verus! {

/// `out` with a tree and everything below it added; what is in `out`
/// already is not looked into again, and submodules are passed over. `fuel`
/// bounds the depth.
pub open spec fn tree_collected(s: Store, id: Seq<u8>, out: Set<Seq<u8>>, fuel: nat) -> Result<
    Set<Seq<u8>>,
    OdbErrorView,
>
    decreases fuel, 0nat,
{
    if out.contains(id) {
        Ok(out)
    } else if fuel == 0 {
        Err(OdbErrorView::CyclicObjects(id))
    } else {
        match s.object(id) {
            Err(e) => Err(e),
            Ok(ObjectView::Tree(es)) => entries_collected(
                s,
                es,
                es.len(),
                out.insert(id),
                (fuel - 1) as nat,
            ),
            Ok(_) => Ok(out.insert(id)),
        }
    }
}

/// `out` with the first `n` entries of a tree and everything below them
/// added.
pub open spec fn entries_collected(
    s: Store,
    es: Seq<TreeEntryView>,
    n: nat,
    out: Set<Seq<u8>>,
    fuel: nat,
) -> Result<Set<Seq<u8>>, OdbErrorView>
    decreases fuel, n + 1,
{
    if n == 0 {
        Ok(out)
    } else {
        match entries_collected(s, es, (n - 1) as nat, out, fuel) {
            Err(e) => Err(e),
            Ok(m) => {
                let e = es[n - 1];
                if e.mode == EntryMode::Tree {
                    tree_collected(s, e.id, m, fuel)
                } else if e.mode == EntryMode::Gitlink {
                    Ok(m)
                } else {
                    Ok(m.insert(e.id))
                }
            },
        }
    }
}

/// Those of the first `n` ids that are not in `out`.
pub open spec fn unseen(ids: Seq<Seq<u8>>, n: nat, out: Set<Seq<u8>>) -> Seq<Seq<u8>>
    decreases n,
{
    if n == 0 {
        Seq::empty()
    } else if out.contains(ids[n - 1]) {
        unseen(ids, (n - 1) as nat, out)
    } else {
        unseen(ids, (n - 1) as nat, out).push(ids[n - 1])
    }
}

/// What is found at an object: `out` with what is below it, and the objects
/// to go on with.
pub open spec fn object_collected(s: Store, o: ObjectView, out: Set<Seq<u8>>) -> Result<
    (Set<Seq<u8>>, Seq<Seq<u8>>),
    OdbErrorView,
> {
    match o {
        ObjectView::Blob(_) => Ok((out, Seq::empty())),
        ObjectView::Tag(t) => Ok((out, unseen(seq![t.object], 1, out))),
        ObjectView::Tree(es) => match entries_collected(s, es, es.len(), out, object_bound(s)) {
            Err(e) => Err(e),
            Ok(m) => Ok((m, Seq::empty())),
        },
        ObjectView::Commit(c) => match tree_collected(s, c.tree, out, object_bound(s)) {
            Err(e) => Err(e),
            Ok(m) => Ok((m, unseen(c.parents, c.parents.len(), m))),
        },
    }
}

/// `out` with the objects of the queue and everything that they lead to
/// added; the last of the queue goes first. `fuel` bounds how many of them
/// are looked into.
pub open spec fn queue_collected(
    s: Store,
    queue: Seq<Seq<u8>>,
    out: Set<Seq<u8>>,
    fuel: nat,
) -> Result<Set<Seq<u8>>, OdbErrorView>
    decreases fuel, queue.len(),
{
    if queue.len() == 0 {
        Ok(out)
    } else {
        let id = queue.last();
        let rest = queue.drop_last();
        if out.contains(id) {
            queue_collected(s, rest, out, fuel)
        } else if fuel == 0 {
            Err(OdbErrorView::CyclicObjects(id))
        } else {
            match s.object(id) {
                Err(e) => Err(e),
                Ok(o) => match object_collected(s, o, out.insert(id)) {
                    Err(e) => Err(e),
                    Ok((m, more)) => queue_collected(s, rest + more, m, (fuel - 1) as nat),
                },
            }
        }
    }
}

/// `out` with an object and everything that it leads to added.
pub open spec fn collected(s: Store, id: Seq<u8>, out: Set<Seq<u8>>) -> Result<
    Set<Seq<u8>>,
    OdbErrorView,
> {
    queue_collected(s, seq![id], out, object_bound(s))
}

/// An error early in the list is the error of the list.
proof fn entries_collected_error(
    s: Store,
    es: Seq<TreeEntryView>,
    k: nat,
    n: nat,
    out: Set<Seq<u8>>,
    fuel: nat,
)
    requires
        k <= n,
        entries_collected(s, es, k, out, fuel) is Err,
    ensures
        entries_collected(s, es, n, out, fuel) == entries_collected(s, es, k, out, fuel),
    decreases n,
{
    if k < n {
        entries_collected_error(s, es, k, (n - 1) as nat, out, fuel);
    }
}

/// Adds the entries of a tree and everything below them.
fn walk_entries_collecting(
    repo: &Repository,
    tree: &Tree,
    fuel: usize,
    out: &mut IdSet,
) -> (r: Result<(), OdbError>)
    ensures
        match r {
            Ok(_) => entries_collected(repo@.store(), tree@, tree@.len(), old(out)@, fuel as nat)
                == Ok::<_, OdbErrorView>(final(out)@),
            Err(e) => entries_collected(repo@.store(), tree@, tree@.len(), old(out)@, fuel as nat)
                == Err::<Set<Seq<u8>>, _>(e@),
        },
        old(out)@.subset_of(final(out)@),
    decreases fuel, 1nat,
{
    let ghost s = repo@.store();
    let ghost es = tree@;
    let mut i: usize = 0;
    while i < tree.entries.len()
        invariant
            i <= tree.entries@.len(),
            s == repo@.store(),
            es == tree@,
            entries_collected(s, es, i as nat, old(out)@, fuel as nat) == Ok::<_, OdbErrorView>(
                out@,
            ),
            old(out)@.subset_of(out@),
        decreases tree.entries.len() - i,
    {
        let entry = &tree.entries[i];
        assert(es[i as int] == entry@);
        if entry.mode == EntryMode::Tree {
            match walk_tree_collecting(repo, &entry.id, fuel, out) {
                Ok(_) => {},
                Err(e) => {
                    proof {
                        entries_collected_error(
                            s,
                            es,
                            (i + 1) as nat,
                            es.len(),
                            old(out)@,
                            fuel as nat,
                        );
                    }
                    return Err(e);
                },
            }
        } else if entry.mode != EntryMode::Gitlink {
            out.insert(&entry.id);
        }
        i += 1;
    }
    Ok(())
}

/// Adds a tree and everything below it.
fn walk_tree_collecting(
    repo: &Repository,
    id: &ObjectId,
    fuel: usize,
    out: &mut IdSet,
) -> (r: Result<(), OdbError>)
    ensures
        match r {
            Ok(_) => tree_collected(repo@.store(), id@, old(out)@, fuel as nat) == Ok::<
                _,
                OdbErrorView,
            >(final(out)@),
            Err(e) => tree_collected(repo@.store(), id@, old(out)@, fuel as nat) == Err::<
                Set<Seq<u8>>,
                _,
            >(e@),
        },
        old(out)@.subset_of(final(out)@),
    decreases fuel, 0nat,
{
    if !out.insert(id) {
        assert(old(out)@.insert(id@) =~= old(out)@);
        return Ok(());
    }
    if fuel == 0 {
        return Err(OdbError::CyclicObjects(*id));
    }
    match repo.read_object(id) {
        Err(e) => Err(e),
        Ok(Object::Tree(t)) => walk_entries_collecting(repo, &t, fuel - 1, out),
        Ok(_) => Ok(()),
    }
}

/// Appends those ids that are not in `out`.
fn push_unseen(queue: &mut Vec<ObjectId>, ids: &Vec<ObjectId>, out: &IdSet)
    ensures
        ids_view(final(queue)@) == ids_view(old(queue)@) + unseen(
            ids_view(ids@),
            ids@.len(),
            out@,
        ),
{
    let mut i: usize = 0;
    assert(ids_view(queue@) + Seq::<Seq<u8>>::empty() =~= ids_view(queue@));
    while i < ids.len()
        invariant
            i <= ids@.len(),
            ids_view(queue@) == ids_view(old(queue)@) + unseen(ids_view(ids@), i as nat, out@),
        decreases ids.len() - i,
    {
        let ghost before = queue@;
        assert(ids_view(ids@)[i as int] == ids@[i as int]@);
        if !out.contains(&ids[i]) {
            queue.push(ids[i]);
            proof {
                assert(ids_view(queue@) =~= ids_view(before).push(ids@[i as int]@));
                assert(ids_view(queue@) =~= ids_view(old(queue)@) + unseen(
                    ids_view(ids@),
                    (i + 1) as nat,
                    out@,
                ));
            }
        }
        i += 1;
    }
}

/// Adds what is below an object to `out`, and what to go on with to the
/// queue.
fn expand(
    repo: &Repository,
    o: Object,
    bound: usize,
    queue: &mut Vec<ObjectId>,
    out: &mut IdSet,
) -> (r: Result<(), OdbError>)
    requires
        bound == object_bound(repo@.store()),
    ensures
        match r {
            Ok(_) => object_collected(repo@.store(), o@, old(out)@) matches Ok((m, more)) && m
                == final(out)@ && ids_view(final(queue)@) == ids_view(old(queue)@) + more,
            Err(e) => object_collected(repo@.store(), o@, old(out)@) == Err::<
                (Set<Seq<u8>>, Seq<Seq<u8>>),
                _,
            >(e@),
        },
        old(out)@.subset_of(final(out)@),
{
    assert(ids_view(queue@) + Seq::<Seq<u8>>::empty() =~= ids_view(queue@));
    match o {
        Object::Blob(_) => Ok(()),
        Object::Tag(t) => {
            let target: Vec<ObjectId> = vec![t.object];
            assert(ids_view(target@) =~= seq![t.object@]);
            push_unseen(queue, &target, out);
            Ok(())
        },
        Object::Tree(t) => walk_entries_collecting(repo, &t, bound, out),
        Object::Commit(c) => match walk_tree_collecting(repo, &c.tree, bound, out) {
            Err(e) => Err(e),
            Ok(_) => {
                push_unseen(queue, &c.parents, out);
                Ok(())
            },
        },
    }
}

/// Adds to `out` an object and everything that it leads to: the trees and
/// the parents of commits, the entries of trees but submodules, and the
/// targets of tags. After an error `out` has what was found so far.
pub fn collect_reachable_objects(
    repo: &Repository,
    start_id: &ObjectId,
    out: &mut IdSet,
) -> (r: Result<(), TransportError>)
    ensures
        match r {
            Ok(_) => collected(repo@.store(), start_id@, old(out)@) == Ok::<_, OdbErrorView>(
                final(out)@,
            ),
            Err(e) => collected(repo@.store(), start_id@, old(out)@) matches Err(x) && e@
                == TransportErrorView::Odb(x),
        },
        old(out)@.subset_of(final(out)@),
{
    let bound: usize = repo.object_bound();
    let ghost s = repo@.store();
    let mut fuel: usize = bound;
    let mut queue: Vec<ObjectId> = vec![*start_id];
    assert(ids_view(queue@) =~= seq![start_id@]);
    loop
        invariant
            s == repo@.store(),
            bound == object_bound(s),
            collected(s, start_id@, old(out)@) == queue_collected(
                s,
                ids_view(queue@),
                out@,
                fuel as nat,
            ),
            old(out)@.subset_of(out@),
        decreases fuel, queue@.len(),
    {
        let ghost before = queue@;
        let id: ObjectId = match queue.pop() {
            Some(id) => id,
            None => return Ok(()),
        };
        proof {
            assert(ids_view(before).last() == id@);
            assert(ids_view(queue@) =~= ids_view(before).drop_last());
        }
        let ghost seen = out@;
        if out.insert(&id) {
            if fuel == 0 {
                return Err(TransportError::Odb(OdbError::CyclicObjects(id)));
            }
            let o = match repo.read_object(&id) {
                Ok(o) => o,
                Err(e) => return Err(TransportError::Odb(e)),
            };
            match expand(repo, o, bound, &mut queue, out) {
                Ok(_) => {},
                Err(e) => return Err(TransportError::Odb(e)),
            }
            fuel -= 1;
        } else {
            assert(seen.insert(id@) =~= seen);
        }
    }
}

} // verus!
