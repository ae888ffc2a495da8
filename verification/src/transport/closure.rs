//! What is collected for a push is just what can be reached.

use vstd::prelude::*;

use super::laws::{law_collecting_ends, unseen_from};
use super::reachable::{
    collected, entries_collected, object_collected, queue_collected, tree_collected, unseen,
};
use crate::object::laws::refers;
use crate::object::{EntryMode, ObjectView, TreeEntryView};
use crate::odb::{OdbErrorView, Store};
use crate::treewalk::laws::countable;
use crate::treewalk::object_bound;

verus! {

/// Whether `b` can be reached from `a` by going `n` times from an object to
/// one whose id it holds.
pub open spec fn leads(s: Store, a: Seq<u8>, b: Seq<u8>, n: nat) -> bool
    decreases n,
{
    if n == 0 {
        a == b
    } else {
        exists|c: Seq<u8>|
            #![trigger s.object(c)]
            leads(s, a, c, (n - 1) as nat) && s.object(c) is Ok && refers(s.object(c)->Ok_0, b)
    }
}

/// The ids that can be reached from `a`.
pub open spec fn reach(s: Store, a: Seq<u8>) -> Set<Seq<u8>> {
    Set::new(|b: Seq<u8>| exists|n: nat| leads(s, a, b, n))
}

/// What a reachable object holds the id of can be reached.
proof fn reach_step(s: Store, root: Seq<u8>, a: Seq<u8>, b: Seq<u8>)
    requires
        reach(s, root).contains(a),
        s.object(a) is Ok,
        refers(s.object(a)->Ok_0, b),
    ensures
        reach(s, root).contains(b),
{
    let n = choose|n: nat| leads(s, root, a, n);
    assert(leads(s, root, b, n + 1));
}

// ---------------------------------------------------------------------
// Nothing else is collected
// ---------------------------------------------------------------------

/// Below a reachable tree there are only reachable objects.
proof fn tree_sound(s: Store, root: Seq<u8>, id: Seq<u8>, out: Set<Seq<u8>>, fuel: nat)
    requires
        reach(s, root).contains(id),
    ensures
        tree_collected(s, id, out, fuel) matches Ok(m) ==> m.subset_of(
            out.union(reach(s, root)),
        ),
    decreases fuel, 0nat,
{
    if !out.contains(id) && fuel > 0 {
        match s.object(id) {
            Ok(ObjectView::Tree(es)) => {
                entries_sound(s, root, id, es, es.len(), out.insert(id), (fuel - 1) as nat);
            },
            _ => {},
        }
    }
}

/// Below its entries too.
proof fn entries_sound(
    s: Store,
    root: Seq<u8>,
    id: Seq<u8>,
    es: Seq<TreeEntryView>,
    n: nat,
    out: Set<Seq<u8>>,
    fuel: nat,
)
    requires
        reach(s, root).contains(id),
        s.object(id) == Ok::<_, OdbErrorView>(ObjectView::Tree(es)),
        n <= es.len(),
    ensures
        entries_collected(s, es, n, out, fuel) matches Ok(m) ==> m.subset_of(
            out.union(reach(s, root)),
        ),
    decreases fuel, n + 1,
{
    if n > 0 {
        entries_sound(s, root, id, es, (n - 1) as nat, out, fuel);
        let e = es[n - 1];
        match entries_collected(s, es, (n - 1) as nat, out, fuel) {
            Ok(m) => {
                if e.mode != EntryMode::Gitlink {
                    assert(refers(s.object(id)->Ok_0, e.id));
                    reach_step(s, root, id, e.id);
                    tree_sound(s, root, e.id, m, fuel);
                }
            },
            Err(_) => {},
        }
    }
}

/// A queue of reachable objects leads to reachable ones.
proof fn queue_sound(
    s: Store,
    root: Seq<u8>,
    queue: Seq<Seq<u8>>,
    out: Set<Seq<u8>>,
    fuel: nat,
)
    requires
        forall|i: int| 0 <= i < queue.len() ==> reach(s, root).contains(#[trigger] queue[i]),
    ensures
        queue_collected(s, queue, out, fuel) matches Ok(m) ==> m.subset_of(
            out.union(reach(s, root)),
        ),
    decreases fuel, queue.len(),
{
    if queue.len() > 0 {
        let id = queue.last();
        let rest = queue.drop_last();
        assert(reach(s, root).contains(queue[queue.len() - 1]));
        assert forall|i: int| 0 <= i < rest.len() implies reach(s, root).contains(
            #[trigger] rest[i],
        ) by {
            assert(rest[i] == queue[i]);
        }
        if out.contains(id) {
            queue_sound(s, root, rest, out, fuel);
        } else if fuel > 0 && s.object(id) is Ok {
            let o = s.object(id)->Ok_0;
            let seen = out.insert(id);
            match object_collected(s, o, seen) {
                Ok((m, more)) => {
                    object_sound(s, root, id, seen);
                    let next = rest + more;
                    assert forall|i: int| 0 <= i < next.len() implies reach(s, root).contains(
                        #[trigger] next[i],
                    ) by {
                        if i < rest.len() {
                            assert(next[i] == rest[i]);
                        } else {
                            assert(next[i] == more[i - rest.len()]);
                        }
                    }
                    queue_sound(s, root, next, m, (fuel - 1) as nat);
                },
                Err(_) => {},
            }
        }
    }
}

/// What is found at a reachable object is reachable.
proof fn object_sound(s: Store, root: Seq<u8>, id: Seq<u8>, out: Set<Seq<u8>>)
    requires
        reach(s, root).contains(id),
        s.object(id) is Ok,
    ensures
        object_collected(s, s.object(id)->Ok_0, out) matches Ok((m, more)) ==> {
            &&& m.subset_of(out.union(reach(s, root)))
            &&& forall|i: int| 0 <= i < more.len() ==> reach(s, root).contains(#[trigger] more[i])
        },
{
    match s.object(id)->Ok_0 {
        ObjectView::Blob(_) => {},
        ObjectView::Tag(t) => {
            reach_step(s, root, id, t.object);
            unseen_from(seq![t.object], 1, out);
        },
        ObjectView::Tree(es) => {
            entries_sound(s, root, id, es, es.len(), out, object_bound(s));
        },
        ObjectView::Commit(c) => {
            reach_step(s, root, id, c.tree);
            tree_sound(s, root, c.tree, out, object_bound(s));
            match tree_collected(s, c.tree, out, object_bound(s)) {
                Ok(m) => {
                    let more = unseen(c.parents, c.parents.len(), m);
                    unseen_from(c.parents, c.parents.len(), m);
                    assert forall|i: int| 0 <= i < more.len() implies reach(s, root).contains(
                        #[trigger] more[i],
                    ) by {
                        reach_step(s, root, id, more[i]);
                    }
                },
                Err(_) => {},
            }
        },
    }
}

// ---------------------------------------------------------------------
// Nothing is left out
// ---------------------------------------------------------------------

/// Whether the objects that can be reached and read are what trees and
/// commits say of them: what a tree or a commit calls a tree is one, and what
/// a tree calls a file is a blob.
pub open spec fn well_typed(s: Store, root: Seq<u8>) -> bool {
    forall|id: Seq<u8>| #[trigger] reach(s, root).contains(id) ==> typed_at(s, id)
}

/// Whether what the object says of others is right.
pub open spec fn typed_at(s: Store, id: Seq<u8>) -> bool {
    match s.object(id) {
        Ok(ObjectView::Tree(es)) => forall|i: int|
            0 <= i < es.len() ==> #[trigger] entry_typed(s, es[i]),
        Ok(ObjectView::Commit(c)) => is_tree_if_read(s, c.tree),
        _ => true,
    }
}

/// Whether the id is that of a tree, if it can be read.
pub open spec fn is_tree_if_read(s: Store, id: Seq<u8>) -> bool {
    s.object(id) matches Ok(o) ==> o is Tree
}

/// Whether an entry's mode is right.
pub open spec fn entry_typed(s: Store, e: TreeEntryView) -> bool {
    match e.mode {
        EntryMode::Tree => is_tree_if_read(s, e.id),
        EntryMode::Gitlink => true,
        _ => s.object(e.id) matches Ok(o) ==> o is Blob,
    }
}

/// What well-typed trees say of their entries.
proof fn entry_typed_at(s: Store, root: Seq<u8>, id: Seq<u8>, es: Seq<TreeEntryView>, i: int)
    requires
        well_typed(s, root),
        reach(s, root).contains(id),
        s.object(id) == Ok::<_, OdbErrorView>(ObjectView::Tree(es)),
        0 <= i < es.len(),
    ensures
        entry_typed(s, es[i]),
{
    assert(typed_at(s, id));
    match s.object(id) {
        Ok(ObjectView::Tree(x)) => {
            assert(x == es);
            assert(entry_typed(s, x[i]));
        },
        _ => {},
    }
}

/// Whether `all` has everything that the object holds the id of.
pub open spec fn closed_at(s: Store, id: Seq<u8>, all: Set<Seq<u8>>) -> bool {
    s.object(id) matches Ok(o) ==> forall|b: Seq<u8>| #[trigger] refers(o, b) ==> all.contains(b)
}

/// Whether `all` has everything that its objects hold the ids of.
pub open spec fn closed_under(s: Store, all: Set<Seq<u8>>) -> bool {
    forall|id: Seq<u8>| #[trigger] all.contains(id) ==> closed_at(s, id, all)
}

/// A set with a tree collected has all that belongs to what was added.
proof fn tree_closed(s: Store, root: Seq<u8>, id: Seq<u8>, out: Set<Seq<u8>>, fuel: nat)
    requires
        well_typed(s, root),
        reach(s, root).contains(id),
        is_tree_if_read(s, id),
    ensures
        tree_collected(s, id, out, fuel) matches Ok(m) ==> {
            &&& out.subset_of(m)
            &&& m.contains(id)
            &&& forall|a: Seq<u8>| #[trigger]
                m.contains(a) && !out.contains(a) ==> closed_at(s, a, m)
        },
    decreases fuel, 0nat,
{
    if !out.contains(id) && fuel > 0 {
        match s.object(id) {
            Ok(ObjectView::Tree(es)) => {
                entries_closed(s, root, id, es, es.len(), out.insert(id), (fuel - 1) as nat);
                match entries_collected(s, es, es.len(), out.insert(id), (fuel - 1) as nat) {
                    Ok(m) => {
                        assert forall|b: Seq<u8>| #[trigger]
                            refers(ObjectView::Tree(es), b) implies m.contains(b) by {
                            let i = choose|i: int|
                                0 <= i < es.len() && (#[trigger] es[i]).id == b && es[i].mode
                                    != EntryMode::Gitlink;
                            assert(m.contains(es[i].id));
                        }
                    },
                    Err(_) => {},
                }
            },
            _ => {},
        }
    }
}

/// So has one with the entries of a tree collected.
proof fn entries_closed(
    s: Store,
    root: Seq<u8>,
    id: Seq<u8>,
    es: Seq<TreeEntryView>,
    n: nat,
    out: Set<Seq<u8>>,
    fuel: nat,
)
    requires
        well_typed(s, root),
        reach(s, root).contains(id),
        s.object(id) == Ok::<_, OdbErrorView>(ObjectView::Tree(es)),
        n <= es.len(),
    ensures
        entries_collected(s, es, n, out, fuel) matches Ok(m) ==> {
            &&& out.subset_of(m)
            &&& forall|i: int|
                0 <= i < n && (#[trigger] es[i]).mode != EntryMode::Gitlink ==> m.contains(es[i].id)
            &&& forall|a: Seq<u8>| #[trigger]
                m.contains(a) && !out.contains(a) ==> closed_at(s, a, m)
        },
    decreases fuel, n + 1,
{
    if n > 0 {
        entries_closed(s, root, id, es, (n - 1) as nat, out, fuel);
        let e = es[n - 1];
        entry_typed_at(s, root, id, es, n - 1);
        match entries_collected(s, es, (n - 1) as nat, out, fuel) {
            Ok(m1) => {
                if e.mode == EntryMode::Tree {
                    assert(refers(s.object(id)->Ok_0, e.id));
                    reach_step(s, root, id, e.id);
                    tree_closed(s, root, e.id, m1, fuel);
                }
                match entries_collected(s, es, n, out, fuel) {
                    Ok(m) => {
                        assert(m1.subset_of(m));
                        assert forall|a: Seq<u8>| #[trigger]
                            m.contains(a) && !out.contains(a) implies closed_at(s, a, m) by {
                            if m1.contains(a) {
                                assert(closed_at(s, a, m1));
                            }
                        }
                    },
                    Err(_) => {},
                }
            },
            Err(_) => {},
        }
    }
}

/// What is found at an object closes the set at the object and at what was
/// added, but for what to go on with.
proof fn object_closed(s: Store, root: Seq<u8>, id: Seq<u8>, out: Set<Seq<u8>>)
    requires
        well_typed(s, root),
        reach(s, root).contains(id),
        s.object(id) is Ok,
    ensures
        object_collected(s, s.object(id)->Ok_0, out) matches Ok((m, more)) ==> {
            &&& out.subset_of(m)
            &&& closed_at(s, id, m.union(more.to_set()))
            &&& forall|a: Seq<u8>| #[trigger]
                m.contains(a) && !out.contains(a) ==> closed_at(s, a, m)
        },
{
    match s.object(id)->Ok_0 {
        ObjectView::Blob(_) => {},
        ObjectView::Tag(t) => {
            let ids = seq![t.object];
            unseen_from(ids, 1, out);
            assert(ids[0] == t.object);
        },
        ObjectView::Tree(es) => {
            entries_closed(s, root, id, es, es.len(), out, object_bound(s));
            match entries_collected(s, es, es.len(), out, object_bound(s)) {
                Ok(m) => {
                    assert forall|b: Seq<u8>| #[trigger]
                        refers(ObjectView::Tree(es), b) implies m.contains(b) by {
                        let i = choose|i: int|
                            0 <= i < es.len() && (#[trigger] es[i]).id == b && es[i].mode
                                != EntryMode::Gitlink;
                        assert(m.contains(es[i].id));
                    }
                },
                Err(_) => {},
            }
        },
        ObjectView::Commit(c) => {
            assert(typed_at(s, id));
            reach_step(s, root, id, c.tree);
            tree_closed(s, root, c.tree, out, object_bound(s));
            match tree_collected(s, c.tree, out, object_bound(s)) {
                Ok(m) => {
                    let more = unseen(c.parents, c.parents.len(), m);
                    unseen_from(c.parents, c.parents.len(), m);
                    let all = m.union(more.to_set());
                    assert forall|b: Seq<u8>| #[trigger]
                        refers(ObjectView::Commit(c), b) implies all.contains(b) by {
                        if b != c.tree {
                            let i = choose|i: int| 0 <= i < c.parents.len() && c.parents[i] == b;
                            assert(m.contains(c.parents[i]) || more.contains(c.parents[i]));
                        }
                    }
                },
                Err(_) => {},
            }
        },
    }
}

/// When the queue is done, the set has all that belongs to its objects.
proof fn queue_closed(
    s: Store,
    root: Seq<u8>,
    queue: Seq<Seq<u8>>,
    out: Set<Seq<u8>>,
    fuel: nat,
)
    requires
        well_typed(s, root),
        forall|i: int| 0 <= i < queue.len() ==> reach(s, root).contains(#[trigger] queue[i]),
        forall|a: Seq<u8>| #[trigger]
            out.contains(a) ==> closed_at(s, a, out.union(queue.to_set())),
    ensures
        queue_collected(s, queue, out, fuel) matches Ok(m) ==> {
            &&& out.subset_of(m)
            &&& queue.to_set().subset_of(m)
            &&& closed_under(s, m)
        },
    decreases fuel, queue.len(),
{
    if queue.len() == 0 {
        assert(out.union(queue.to_set()) =~= out);
    } else {
        let id = queue.last();
        let rest = queue.drop_last();
        assert(queue =~= rest.push(id));
        assert(queue.to_set() =~= rest.to_set().insert(id)) by {
            rest.lemma_push_to_set_commute(id);
        }
        assert(reach(s, root).contains(queue[queue.len() - 1]));
        assert forall|i: int| 0 <= i < rest.len() implies reach(s, root).contains(
            #[trigger] rest[i],
        ) by {
            assert(rest[i] == queue[i]);
        }
        if out.contains(id) {
            assert(out.union(queue.to_set()) =~= out.union(rest.to_set()));
            queue_closed(s, root, rest, out, fuel);
        } else if fuel > 0 && s.object(id) is Ok {
            let o = s.object(id)->Ok_0;
            let seen = out.insert(id);
            match object_collected(s, o, seen) {
                Ok((m, more)) => {
                    object_closed(s, root, id, seen);
                    object_sound(s, root, id, seen);
                    let next = rest + more;
                    let all = m.union(next.to_set());
                    assert forall|b: Seq<u8>| rest.to_set().contains(b) || more.to_set().contains(
                        b,
                    ) implies #[trigger] next.to_set().contains(b) by {
                        if rest.contains(b) {
                            let i = choose|i: int| 0 <= i < rest.len() && rest[i] == b;
                            assert(next[i] == b);
                        } else {
                            let i = choose|i: int| 0 <= i < more.len() && more[i] == b;
                            assert(next[rest.len() + i] == b);
                        }
                    }
                    assert forall|a: Seq<u8>| #[trigger] m.contains(a) implies closed_at(
                        s,
                        a,
                        all,
                    ) by {
                        if out.contains(a) {
                            assert(closed_at(s, a, out.union(queue.to_set())));
                        } else if a != id {
                            assert(closed_at(s, a, m));
                        } else {
                            assert(closed_at(s, id, m.union(more.to_set())));
                        }
                    }
                    assert forall|i: int| 0 <= i < next.len() implies reach(s, root).contains(
                        #[trigger] next[i],
                    ) by {
                        if i < rest.len() {
                            assert(next[i] == rest[i]);
                        } else {
                            assert(next[i] == more[i - rest.len()]);
                        }
                    }
                    queue_closed(s, root, next, m, (fuel - 1) as nat);
                },
                Err(_) => {},
            }
        }
    }
}

/// Everything that can be reached is in a closed set.
proof fn leads_inside(s: Store, a: Seq<u8>, b: Seq<u8>, n: nat, all: Set<Seq<u8>>)
    requires
        closed_under(s, all),
        all.contains(a),
        leads(s, a, b, n),
    ensures
        all.contains(b),
    decreases n,
{
    if n > 0 {
        let c = choose|c: Seq<u8>|
            #![trigger s.object(c)]
            leads(s, a, c, (n - 1) as nat) && s.object(c) is Ok && refers(s.object(c)->Ok_0, b);
        leads_inside(s, a, c, (n - 1) as nat, all);
        assert(closed_at(s, c, all));
    }
}

/// Law: nothing is collected that cannot be reached.
pub proof fn law_collected_reachable(s: Store, id: Seq<u8>, out: Set<Seq<u8>>)
    ensures
        collected(s, id, out) matches Ok(m) ==> m.subset_of(out.union(reach(s, id))),
{
    assert(leads(s, id, id, 0));
    queue_sound(s, id, seq![id], out, object_bound(s));
}

// ---------------------------------------------------------------------
// What can be read is collected
// ---------------------------------------------------------------------

/// Whether all that can be reached can be read, but for what is known.
pub open spec fn readable_reach(s: Store, root: Seq<u8>, known: Set<Seq<u8>>) -> bool {
    forall|id: Seq<u8>| #[trigger]
        reach(s, root).contains(id) && !known.contains(id) ==> s.object(id) is Ok
}

/// Only a lack of fuel stops the collecting of a tree.
proof fn tree_readable(
    s: Store,
    root: Seq<u8>,
    known: Set<Seq<u8>>,
    id: Seq<u8>,
    out: Set<Seq<u8>>,
    fuel: nat,
)
    requires
        readable_reach(s, root, known),
        reach(s, root).contains(id),
        known.subset_of(out),
    ensures
        match tree_collected(s, id, out, fuel) {
            Ok(m) => out.subset_of(m),
            Err(e) => e is CyclicObjects,
        },
    decreases fuel, 0nat,
{
    if !out.contains(id) && fuel > 0 {
        assert(!known.contains(id));
        match s.object(id) {
            Ok(ObjectView::Tree(es)) => {
                entries_readable(
                    s,
                    root,
                    known,
                    id,
                    es,
                    es.len(),
                    out.insert(id),
                    (fuel - 1) as nat,
                );
            },
            _ => {},
        }
    }
}

/// So it is for the entries of a tree.
proof fn entries_readable(
    s: Store,
    root: Seq<u8>,
    known: Set<Seq<u8>>,
    id: Seq<u8>,
    es: Seq<TreeEntryView>,
    n: nat,
    out: Set<Seq<u8>>,
    fuel: nat,
)
    requires
        readable_reach(s, root, known),
        reach(s, root).contains(id),
        known.subset_of(out),
        s.object(id) == Ok::<_, OdbErrorView>(ObjectView::Tree(es)),
        n <= es.len(),
    ensures
        match entries_collected(s, es, n, out, fuel) {
            Ok(m) => out.subset_of(m),
            Err(e) => e is CyclicObjects,
        },
    decreases fuel, n + 1,
{
    if n > 0 {
        entries_readable(s, root, known, id, es, (n - 1) as nat, out, fuel);
        let e = es[n - 1];
        match entries_collected(s, es, (n - 1) as nat, out, fuel) {
            Ok(m) => {
                if e.mode == EntryMode::Tree {
                    assert(refers(s.object(id)->Ok_0, e.id));
                    reach_step(s, root, id, e.id);
                    tree_readable(s, root, known, e.id, m, fuel);
                }
            },
            Err(_) => {},
        }
    }
}

/// So it is for a queue.
proof fn queue_readable(
    s: Store,
    root: Seq<u8>,
    known: Set<Seq<u8>>,
    queue: Seq<Seq<u8>>,
    out: Set<Seq<u8>>,
    fuel: nat,
)
    requires
        readable_reach(s, root, known),
        known.subset_of(out),
        forall|i: int| 0 <= i < queue.len() ==> reach(s, root).contains(#[trigger] queue[i]),
    ensures
        queue_collected(s, queue, out, fuel) matches Err(e) ==> e is CyclicObjects,
    decreases fuel, queue.len(),
{
    if queue.len() > 0 {
        let id = queue.last();
        let rest = queue.drop_last();
        assert(reach(s, root).contains(queue[queue.len() - 1]));
        assert forall|i: int| 0 <= i < rest.len() implies reach(s, root).contains(
            #[trigger] rest[i],
        ) by {
            assert(rest[i] == queue[i]);
        }
        if out.contains(id) {
            queue_readable(s, root, known, rest, out, fuel);
        } else if fuel > 0 {
            assert(!known.contains(id));
            let o = s.object(id)->Ok_0;
            let seen = out.insert(id);
            match o {
                ObjectView::Tree(es) => {
                    entries_readable(s, root, known, id, es, es.len(), seen, object_bound(s));
                },
                ObjectView::Commit(c) => {
                    reach_step(s, root, id, c.tree);
                    tree_readable(s, root, known, c.tree, seen, object_bound(s));
                },
                _ => {},
            }
            match object_collected(s, o, seen) {
                Ok((m, more)) => {
                    object_sound(s, root, id, seen);
                    let next = rest + more;
                    assert forall|i: int| 0 <= i < next.len() implies reach(s, root).contains(
                        #[trigger] next[i],
                    ) by {
                        if i < rest.len() {
                            assert(next[i] == rest[i]);
                        } else {
                            assert(next[i] == more[i - rest.len()]);
                        }
                    }
                    queue_readable(s, root, known, next, m, (fuel - 1) as nat);
                },
                Err(_) => {},
            }
        }
    }
}

/// Law: where all that can be reached can be read, but for what is in the set
/// already, collecting succeeds.
pub proof fn law_collected_succeeds(s: Store, id: Seq<u8>, out: Set<Seq<u8>>)
    requires
        countable(s),
        id.len() == 20,
        readable_reach(s, id, out),
    ensures
        collected(s, id, out) is Ok,
{
    let queue = seq![id];
    assert(leads(s, id, id, 0));
    queue_readable(s, id, out, queue, out, object_bound(s));
    law_collecting_ends(s, id, out);
}

/// Law: where what can be reached is what trees and commits say of it, just
/// that is added to a set that has all that belongs to its objects, such as
/// the empty one; and so has the result. Where it can be read, but for what is
/// in the set already, collecting succeeds.
pub proof fn law_collected_exact(s: Store, id: Seq<u8>, out: Set<Seq<u8>>)
    requires
        well_typed(s, id),
        closed_under(s, out),
    ensures
        collected(s, id, out) matches Ok(m) ==> m == out.union(reach(s, id)) && closed_under(s, m),
        countable(s) && id.len() == 20 && readable_reach(s, id, out) ==> collected(s, id, out) == Ok::<
            _,
            OdbErrorView,
        >(out.union(reach(s, id))),
{
    law_collected_reachable(s, id, out);
    if countable(s) && id.len() == 20 && readable_reach(s, id, out) {
        law_collected_succeeds(s, id, out);
    }
    let queue = seq![id];
    assert(leads(s, id, id, 0));
    assert(queue[0] == id);
    assert(queue.to_set().contains(id));
    assert forall|a: Seq<u8>| #[trigger] out.contains(a) implies closed_at(
        s,
        a,
        out.union(queue.to_set()),
    ) by {
        assert(closed_at(s, a, out));
    }
    queue_closed(s, id, queue, out, object_bound(s));
    match collected(s, id, out) {
        Ok(m) => {
            assert forall|b: Seq<u8>| reach(s, id).contains(b) implies m.contains(b) by {
                let n = choose|n: nat| leads(s, id, b, n);
                leads_inside(s, id, b, n, m);
            }
            assert(m =~= out.union(reach(s, id)));
        },
        Err(_) => {},
    }
}

} // verus!
