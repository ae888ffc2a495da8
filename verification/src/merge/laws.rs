//! What ancestry and fast-forward merges promise.

use vstd::prelude::*;

use super::{ancestor_search, ancestry, fresh, merged, MergeErrorView, MergeView};
use crate::bytes::ascii;
use crate::index::Time;
use crate::object::ObjectView;
use crate::odb::{RepoView, Store};
use crate::refs::laws::law_move_head_then_read;
use crate::refs::{ref_value, RefErrorView};
use crate::treewalk::laws::{
    countable, law_stored_ids, readable, readable_bound, reading_finds_no_cycle,
};
use crate::treewalk::object_bound;
use crate::workdir::switching::switched;

verus! {

/// Whether `b` is a parent of the commit `a`.
pub open spec fn is_parent(s: Store, a: Seq<u8>, b: Seq<u8>) -> bool {
    s.object(a) matches Ok(ObjectView::Commit(c)) && c.parents.contains(b)
}

/// Whether each commit of a chain is a parent of the one before it.
pub open spec fn is_chain(s: Store, ids: Seq<Seq<u8>>) -> bool {
    ids.len() > 0 && forall|i: int|
        0 <= i < ids.len() - 1 ==> is_parent(s, #[trigger] ids[i], ids[i + 1])
}

/// Whether a chain of parents leads from `a` to `b`.
pub open spec fn leads_to(s: Store, a: Seq<u8>, b: Seq<u8>) -> bool {
    exists|ids: Seq<Seq<u8>>| #[trigger] is_chain(s, ids) && ids[0] == a && ids.last() == b
}

/// A chain can be made one longer.
proof fn chain_step(s: Store, a: Seq<u8>, b: Seq<u8>, c: Seq<u8>)
    requires
        leads_to(s, a, b),
        is_parent(s, b, c),
    ensures
        leads_to(s, a, c),
{
    let ids = choose|ids: Seq<Seq<u8>>| #[trigger]
        is_chain(s, ids) && ids[0] == a && ids.last() == b;
    let more = ids.push(c);
    assert forall|i: int| 0 <= i < more.len() - 1 implies is_parent(
        s,
        #[trigger] more[i],
        more[i + 1],
    ) by {
        if i < ids.len() - 1 {
            assert(is_parent(s, ids[i], ids[i + 1]));
            assert(more[i] == ids[i] && more[i + 1] == ids[i + 1]);
        }
    }
    assert(is_chain(s, more));
}

/// What [`fresh`] keeps.
proof fn fresh_members(ids: Seq<Seq<u8>>, seen: Set<Seq<u8>>)
    ensures
        forall|x: Seq<u8>| #[trigger]
            fresh(ids, seen).contains(x) <==> ids.contains(x) && !seen.contains(x),
    decreases ids.len(),
{
    if ids.len() > 0 {
        let t = ids.drop_last();
        fresh_members(t, seen);
        let r = fresh(ids, seen);
        assert forall|x: Seq<u8>| #[trigger] r.contains(x) <==> ids.contains(x) && !seen.contains(
            x,
        ) by {
            assert(fresh(t, seen).contains(x) <==> t.contains(x) && !seen.contains(x));
            if ids.contains(x) {
                let i = choose|i: int| 0 <= i < ids.len() && ids[i] == x;
                if i < t.len() {
                    assert(t[i] == x);
                    assert(t.contains(x));
                }
            }
            if t.contains(x) {
                let i = choose|i: int| 0 <= i < t.len() && t[i] == x;
                assert(ids[i] == x);
            }
            assert(ids.contains(ids[ids.len() - 1]));
            if !seen.contains(ids.last()) {
                assert(r == fresh(t, seen).push(ids.last()));
                if r.contains(x) {
                    let i = choose|i: int| 0 <= i < r.len() && r[i] == x;
                    if i < fresh(t, seen).len() {
                        assert(fresh(t, seen)[i] == x);
                        assert(fresh(t, seen).contains(x));
                    }
                }
                if fresh(t, seen).contains(x) {
                    let i = choose|i: int| 0 <= i < fresh(t, seen).len() && fresh(t, seen)[i] == x;
                    assert(r[i] == x);
                }
                assert(r[r.len() - 1] == ids.last());
                assert(r.contains(r[r.len() - 1]));
            }
        }
    }
}

/// A search that finds the ancestor has a chain to it.
proof fn search_found(
    s: Store,
    ancestor: Seq<u8>,
    start: Seq<u8>,
    stack: Seq<Seq<u8>>,
    seen: Set<Seq<u8>>,
    fuel: nat,
)
    requires
        forall|i: int| 0 <= i < stack.len() ==> leads_to(s, start, #[trigger] stack[i]),
        ancestor_search(s, ancestor, stack, seen, fuel) matches Ok(b) && b,
    ensures
        leads_to(s, start, ancestor),
    decreases fuel, stack.len(),
{
    let id = stack.last();
    let rest = stack.drop_last();
    assert(leads_to(s, start, stack[stack.len() - 1]));
    assert forall|i: int| 0 <= i < rest.len() implies leads_to(s, start, #[trigger] rest[i]) by {
        assert(rest[i] == stack[i]);
    }
    if seen.contains(id) {
        search_found(s, ancestor, start, rest, seen, fuel);
    } else {
        let now = seen.insert(id);
        match s.object(id) {
            Ok(ObjectView::Commit(c)) => {
                if c.parents.contains(ancestor) {
                    assert(is_parent(s, id, ancestor));
                    chain_step(s, start, id, ancestor);
                } else {
                    fresh_members(c.parents, now);
                    let next = rest + fresh(c.parents, now);
                    assert forall|i: int| 0 <= i < next.len() implies leads_to(
                        s,
                        start,
                        #[trigger] next[i],
                    ) by {
                        if i < rest.len() {
                            assert(next[i] == rest[i]);
                        } else {
                            let p = fresh(c.parents, now)[i - rest.len()];
                            assert(next[i] == p);
                            assert(fresh(c.parents, now).contains(p));
                            assert(is_parent(s, id, p));
                            chain_step(s, start, id, p);
                        }
                    }
                    search_found(s, ancestor, start, next, now, (fuel - 1) as nat);
                }
            },
            _ => {
                search_found(s, ancestor, start, rest, now, (fuel - 1) as nat);
            },
        }
    }
}

/// Every parent of a seen commit is seen or on the stack, and none is the
/// ancestor.
pub open spec fn search_closed(
    s: Store,
    ancestor: Seq<u8>,
    stack: Seq<Seq<u8>>,
    seen: Set<Seq<u8>>,
) -> bool {
    forall|a: Seq<u8>, b: Seq<u8>| #[trigger]
        is_parent(s, a, b) && seen.contains(a) ==> b != ancestor && (seen.contains(b)
            || stack.contains(b))
}

/// A set that holds all parents of its commits, but not the ancestor as a
/// parent.
pub open spec fn parents_closed(s: Store, ancestor: Seq<u8>, all: Set<Seq<u8>>) -> bool {
    forall|a: Seq<u8>, b: Seq<u8>| #[trigger]
        is_parent(s, a, b) && all.contains(a) ==> b != ancestor && all.contains(b)
}

/// A search that finds nothing has seen everything that can be reached.
proof fn search_exhausted(
    s: Store,
    ancestor: Seq<u8>,
    start: Seq<u8>,
    stack: Seq<Seq<u8>>,
    seen: Set<Seq<u8>>,
    fuel: nat,
) -> (all: Set<Seq<u8>>)
    requires
        search_closed(s, ancestor, stack, seen),
        ancestor_search(s, ancestor, stack, seen, fuel) matches Ok(b) && !b,
        seen.contains(start) || stack.contains(start),
    ensures
        parents_closed(s, ancestor, all),
        all.contains(start),
    decreases fuel, stack.len(),
{
    if stack.len() == 0 {
        seen
    } else {
        let id = stack.last();
        let rest = stack.drop_last();
        assert forall|x: Seq<u8>| #[trigger] stack.contains(x) implies rest.contains(x) || x
            == id by {
            let i = choose|i: int| 0 <= i < stack.len() && stack[i] == x;
            if i < rest.len() {
                assert(rest[i] == x);
            }
        }
        if seen.contains(id) {
            search_exhausted(s, ancestor, start, rest, seen, fuel)
        } else {
            let now = seen.insert(id);
            match s.object(id) {
                Ok(ObjectView::Commit(c)) => {
                    let next = rest + fresh(c.parents, now);
                    fresh_members(c.parents, now);
                    assert forall|x: Seq<u8>| #[trigger] next.contains(x) <==> rest.contains(x)
                        || fresh(c.parents, now).contains(x) by {
                        let f = fresh(c.parents, now);
                        if next.contains(x) {
                            let i = choose|i: int| 0 <= i < next.len() && next[i] == x;
                            if i < rest.len() {
                                assert(rest[i] == x);
                            } else {
                                assert(f[i - rest.len()] == x);
                            }
                        }
                        if rest.contains(x) {
                            let i = choose|i: int| 0 <= i < rest.len() && rest[i] == x;
                            assert(next[i] == x);
                        }
                        if f.contains(x) {
                            let i = choose|i: int| 0 <= i < f.len() && f[i] == x;
                            assert(next[rest.len() + i] == x);
                        }
                    }
                    search_exhausted(s, ancestor, start, next, now, (fuel - 1) as nat)
                },
                _ => search_exhausted(s, ancestor, start, rest, now, (fuel - 1) as nat),
            }
        }
    }
}

/// A chain stays in a closed set.
proof fn chain_stays(s: Store, ancestor: Seq<u8>, all: Set<Seq<u8>>, ids: Seq<Seq<u8>>, k: int)
    requires
        parents_closed(s, ancestor, all),
        is_chain(s, ids),
        all.contains(ids[0]),
        0 <= k < ids.len(),
    ensures
        all.contains(ids[k]),
        k > 0 ==> ids[k] != ancestor,
    decreases k,
{
    if k > 0 {
        chain_stays(s, ancestor, all, ids, k - 1);
        assert(is_parent(s, ids[k - 1], ids[k]));
    }
}

/// Law: a commit counts as an ancestor of another just where a chain of
/// parents leads from the other to it.
pub proof fn law_ancestry(s: Store, ancestor: Seq<u8>, descendant: Seq<u8>)
    requires
        ancestry(s, ancestor, descendant) is Ok,
    ensures
        ancestry(s, ancestor, descendant)->Ok_0 <==> leads_to(s, descendant, ancestor),
{
    let one = seq![descendant];
    assert(is_chain(s, one));
    assert(leads_to(s, descendant, descendant)) by {
        assert(one[0] == descendant && one.last() == descendant);
    }
    if ancestor != descendant {
        let fuel = object_bound(s);
        if ancestry(s, ancestor, descendant)->Ok_0 {
            assert forall|i: int| 0 <= i < one.len() implies leads_to(
                s,
                descendant,
                #[trigger] one[i],
            ) by {}
            search_found(s, ancestor, descendant, one, Set::empty(), fuel);
        } else {
            assert(one.contains(one[0]));
            let all = search_exhausted(s, ancestor, descendant, one, Set::empty(), fuel);
            if leads_to(s, descendant, ancestor) {
                let ids = choose|ids: Seq<Seq<u8>>| #[trigger]
                    is_chain(s, ids) && ids[0] == descendant && ids.last() == ancestor;
                chain_stays(s, ancestor, all, ids, ids.len() - 1);
            }
        }
    }
}

/// Law: a merge that is refused because it is no fast-forward, and one that
/// has nothing to do, change nothing.
pub proof fn law_refused_merge_changes_nothing(repo: RepoView, target: Seq<u8>, now: Time)
    ensures
        ({
            let (after, r) = merged(repo, target, now);
            &&& r == Err::<MergeView, _>(MergeErrorView::NonFastForward) ==> after == repo
            &&& r == Ok::<_, MergeErrorView>(MergeView::UpToDate) ==> after == repo
        }),
{
}

/// Law: a merge moves HEAD only along a chain of parents, from the commit
/// it was at to the target.
pub proof fn law_merge_follows_history(repo: RepoView, target: Seq<u8>, now: Time)
    ensures
        merged(repo, target, now).1 matches Ok(MergeView::FastForwarded(from, to)) ==> {
            &&& to == target
            &&& ref_value(repo, ascii("HEAD"@)) == Ok::<_, RefErrorView>(from)
            &&& from != target
            &&& leads_to(repo.store(), target, from)
        },
{
    if let Ok(head) = ref_value(repo, ascii("HEAD"@)) {
        if ancestry(repo.store(), head, target) is Ok {
            law_ancestry(repo.store(), head, target);
        }
    }
}

/// Law: after a merge HEAD leads to the target.
pub proof fn law_merge_then_read_head(repo: RepoView, target: Seq<u8>, now: Time)
    requires
        target.len() == 20,
    ensures
        merged(repo, target, now).1 is Ok ==> ref_value(
            merged(repo, target, now).0,
            ascii("HEAD"@),
        ) == Ok::<_, RefErrorView>(target),
{
    if let Ok(MergeView::FastForwarded(_, _)) = merged(repo, target, now).1 {
        if let Ok(ObjectView::Commit(c)) = repo.store().object(target) {
            law_move_head_then_read(switched(repo, c.tree, now).0, target);
        }
    }
}

/// There is fuel enough for the stack.
proof fn search_ends(
    s: Store,
    ancestor: Seq<u8>,
    stack: Seq<Seq<u8>>,
    seen: Set<Seq<u8>>,
    fuel: nat,
)
    requires
        readable(s).finite(),
        forall|x: Seq<u8>| #[trigger] stack.contains(x) ==> x.len() == 20,
        readable(s).difference(seen).len() < fuel,
    ensures
        ancestor_search(s, ancestor, stack, seen, fuel) matches Err(e) ==> e !is CyclicObjects,
    decreases fuel, stack.len(),
{
    if stack.len() > 0 {
        let id = stack.last();
        let rest = stack.drop_last();
        assert(stack.contains(stack[stack.len() - 1]));
        assert forall|x: Seq<u8>| #[trigger] rest.contains(x) implies x.len() == 20 by {
            let i = choose|i: int| 0 <= i < rest.len() && rest[i] == x;
            assert(stack[i] == x);
            assert(stack.contains(x));
        }
        if seen.contains(id) {
            search_ends(s, ancestor, rest, seen, fuel);
        } else {
            reading_finds_no_cycle(s, id);
            let now = seen.insert(id);
            match s.object(id) {
                Ok(ObjectView::Commit(c)) => {
                    readable(s).lemma_set_insert_diff_decreases(seen, id);
                    let more = fresh(c.parents, now);
                    let next = rest + more;
                    assert forall|x: Seq<u8>| #[trigger] next.contains(x) implies x.len() == 20 by {
                        let i = choose|i: int| 0 <= i < next.len() && next[i] == x;
                        if i < rest.len() {
                            assert(rest[i] == x);
                            assert(rest.contains(x));
                        } else {
                            assert(more[i - rest.len()] == x);
                            assert(more.contains(x));
                            fresh_members(c.parents, now);
                            law_stored_ids(s, id, x);
                        }
                    }
                    search_ends(s, ancestor, next, now, (fuel - 1) as nat);
                },
                Ok(_) => {
                    readable(s).lemma_set_insert_diff_decreases(seen, id);
                    search_ends(s, ancestor, rest, now, (fuel - 1) as nat);
                },
                Err(_) => {},
            }
        }
    }
}

/// Law: the search for an ancestor never says that objects are cyclic: a
/// commit that was seen is not looked into again.
pub proof fn law_ancestry_ends(s: Store, ancestor: Seq<u8>, descendant: Seq<u8>)
    requires
        countable(s),
        descendant.len() == 20,
    ensures
        ancestry(s, ancestor, descendant) matches Err(e) ==> e !is CyclicObjects,
{
    readable_bound(s);
    assert(readable(s).difference(Set::empty()) =~= readable(s));
    search_ends(s, ancestor, seq![descendant], Set::empty(), object_bound(s));
}

/// Law: a merge has nothing to do if and only if HEAD is at the target, and is
/// refused as no fast-forward if and only if no chain of parents leads from the
/// target to where HEAD is.
pub proof fn law_merge_decides(repo: RepoView, target: Seq<u8>, now: Time, head: Seq<u8>)
    requires
        ref_value(repo, ascii("HEAD"@)) == Ok::<_, RefErrorView>(head),
        head != target ==> ancestry(repo.store(), head, target) is Ok,
    ensures
        merged(repo, target, now).1 == Ok::<_, MergeErrorView>(MergeView::UpToDate) <==> head
            == target,
        head != target ==> (merged(repo, target, now).1 == Err::<MergeView, _>(
            MergeErrorView::NonFastForward,
        ) <==> !leads_to(repo.store(), target, head)),
{
    if head != target {
        law_ancestry(repo.store(), head, target);
        assert(super::advanced(repo, target, now).1 != Some(MergeErrorView::NonFastForward));
    }
}

/// Law: a merge by fast-forward replaces working tree and index by those of the
/// target's tree, and then moves HEAD's branch to the target; nothing else.
pub proof fn law_merge_switches(repo: RepoView, target: Seq<u8>, now: Time)
    ensures
        merged(repo, target, now).1 matches Ok(MergeView::FastForwarded(from, to)) ==> (
        repo.store().object(target) matches Ok(ObjectView::Commit(c)) && {
            let (between, fault) = crate::workdir::switching::switched(repo, c.tree, now);
            &&& fault is None
            &&& merged(repo, target, now).0.work == between.work
            &&& merged(repo, target, now).0 == super::head_moved(between, target).0
            &&& super::head_moved(between, target).1 is None
        }),
{
}

/// Law: a merge by fast-forward is made wherever a chain of parents leads from
/// the target to where HEAD is, the target is a commit, and its tree and HEAD's
/// new place can be put in place.
pub proof fn law_merge_succeeds(
    repo: RepoView,
    target: Seq<u8>,
    now: Time,
    head: Seq<u8>,
    tree: Seq<u8>,
)
    requires
        ref_value(repo, ascii("HEAD"@)) == Ok::<_, RefErrorView>(head),
        head != target,
        ancestry(repo.store(), head, target) is Ok,
        leads_to(repo.store(), target, head),
        repo.store().object(target) matches Ok(ObjectView::Commit(c)) && c.tree == tree,
        crate::workdir::switching::switched(repo, tree, now).1 is None,
        super::head_moved(crate::workdir::switching::switched(repo, tree, now).0, target).1 is None,
    ensures
        merged(repo, target, now).1 == Ok::<_, MergeErrorView>(
            MergeView::FastForwarded(head, target),
        ),
{
    law_ancestry(repo.store(), head, target);
}

} // verus!
