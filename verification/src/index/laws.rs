//! What staging and unstaging promise.

use vstd::prelude::*;

use super::{entry_lt, insert_ordered, remaining, remaining_facts, staged, IndexEntryView};

verus! {

/// What [`staged`] finds is an entry with the path and stage 0, and it
/// finds nothing only where there is none.
proof fn staged_spec(es: Seq<IndexEntryView>, path: Seq<u8>)
    ensures
        match staged(es, path) {
            Some(e) => es.contains(e) && e.path == path && e.stage == 0,
            None => forall|e: IndexEntryView| #[trigger]
                es.contains(e) ==> !(e.path == path && e.stage == 0),
        },
    decreases es.len(),
{
    if es.len() > 0 {
        let t = es.drop_first();
        staged_spec(t, path);
        assert forall|e: IndexEntryView| #[trigger] es.contains(e) <==> t.contains(e) || e
            == es[0] by {
            if t.contains(e) {
                let i = choose|i: int| 0 <= i < t.len() && t[i] == e;
                assert(es[i + 1] == e);
            }
            if es.contains(e) {
                let i = choose|i: int| 0 <= i < es.len() && es[i] == e;
                if i > 0 {
                    assert(t[i - 1] == e);
                }
            }
        }
    }
}

/// Insertion adds the entry and nothing else.
pub proof fn insert_ordered_contains(es: Seq<IndexEntryView>, e: IndexEntryView)
    ensures
        forall|x: IndexEntryView| #[trigger]
            insert_ordered(es, e).contains(x) <==> es.contains(x) || x == e,
        insert_ordered(es, e).len() == es.len() + 1,
    decreases es.len(),
{
    let r = insert_ordered(es, e);
    if es.len() == 0 || !entry_lt(e, es.last()) {
        push_contains(es, e);
    } else {
        let t = es.drop_last();
        insert_ordered_contains(t, e);
        push_contains(insert_ordered(t, e), es.last());
        push_contains(t, es.last());
        assert(t.push(es.last()) =~= es);
        assert forall|x: IndexEntryView| #[trigger] r.contains(x) <==> es.contains(x) || x
            == e by {
            assert(insert_ordered(t, e).contains(x) <==> t.contains(x) || x == e);
        }
    }
}

/// What a sequence with one more element contains.
proof fn push_contains(es: Seq<IndexEntryView>, e: IndexEntryView)
    ensures
        forall|x: IndexEntryView| #[trigger] es.push(e).contains(x) <==> es.contains(x) || x == e,
{
    assert forall|x: IndexEntryView| #[trigger] es.push(e).contains(x) <==> es.contains(x) || x
        == e by {
        if es.contains(x) {
            let i = choose|i: int| 0 <= i < es.len() && es[i] == x;
            assert(es.push(e)[i] == x);
        }
        if es.push(e).contains(x) {
            let i = choose|i: int| 0 <= i < es.push(e).len() && es.push(e)[i] == x;
            if i < es.len() {
                assert(es[i] == x);
            }
        }
        assert(es.push(e)[es.len() as int] == e);
    }
}

/// At most one resolved entry for each path.
pub open spec fn resolved_unique(es: Seq<IndexEntryView>) -> bool {
    forall|a: IndexEntryView, b: IndexEntryView|
        #![trigger es.contains(a), es.contains(b)]
        es.contains(a) && es.contains(b) && a.path == b.path && a.stage == 0 && b.stage == 0 ==> a
            == b
}

/// A path is either resolved or in conflict, never both.
pub open spec fn stages_exclusive(es: Seq<IndexEntryView>) -> bool {
    forall|a: IndexEntryView, b: IndexEntryView|
        #![trigger es.contains(a), es.contains(b)]
        es.contains(a) && es.contains(b) && a.path == b.path && a.stage == 0 ==> b.stage == 0
}

/// The entries after [`super::Index::upsert`].
pub open spec fn upserted(es: Seq<IndexEntryView>, e: IndexEntryView) -> Seq<IndexEntryView> {
    insert_ordered(remaining(es, e.path, e.stage), e)
}

/// Law: after staging an entry the index holds it, has lost just the
/// entries it replaces, and has gained nothing else.
pub proof fn law_upsert_entries(es: Seq<IndexEntryView>, e: IndexEntryView)
    ensures
        upserted(es, e).contains(e),
        forall|x: IndexEntryView| #[trigger]
            upserted(es, e).contains(x) <==> x == e || (es.contains(x) && !(x.path == e.path && (
            e.stage == 0 || x.stage == 0 || x.stage == e.stage))),
{
    remaining_facts(es, e.path, e.stage);
    insert_ordered_contains(remaining(es, e.path, e.stage), e);
}

/// Law: looking up a path just staged gives the entry; a conflict entry
/// takes the resolved one away.
pub proof fn law_upsert_lookup(es: Seq<IndexEntryView>, e: IndexEntryView)
    ensures
        e.stage == 0 ==> staged(upserted(es, e), e.path) == Some(e),
        e.stage != 0 ==> staged(upserted(es, e), e.path) is None,
{
    law_upsert_entries(es, e);
    staged_spec(upserted(es, e), e.path);
}

/// Law: staging a path does not change what is found under another one.
pub proof fn law_upsert_other(es: Seq<IndexEntryView>, e: IndexEntryView, path: Seq<u8>)
    requires
        path != e.path,
        resolved_unique(es),
    ensures
        staged(upserted(es, e), path) == staged(es, path),
{
    law_upsert_entries(es, e);
    staged_spec(upserted(es, e), path);
    staged_spec(es, path);
    if let Some(x) = staged(upserted(es, e), path) {
        assert(upserted(es, e).contains(x));
        assert(es.contains(x));
        assert(staged(es, path) is Some);
    }
    if let Some(x) = staged(es, path) {
        assert(es.contains(x));
        assert(upserted(es, e).contains(x));
    }
}

/// Law: staging keeps every path either resolved, once, or in conflict.
pub proof fn law_upsert_keeps_stages(es: Seq<IndexEntryView>, e: IndexEntryView)
    requires
        resolved_unique(es),
        stages_exclusive(es),
    ensures
        resolved_unique(upserted(es, e)),
        stages_exclusive(upserted(es, e)),
{
    law_upsert_entries(es, e);
    let r = upserted(es, e);
    assert forall|a: IndexEntryView, b: IndexEntryView|
        #![trigger r.contains(a), r.contains(b)]
        r.contains(a) && r.contains(b) && a.path == b.path && a.stage == 0 && b.stage
            == 0 implies a == b by {
        if a != e && b != e {
            assert(es.contains(a) && es.contains(b));
        }
    }
    assert forall|a: IndexEntryView, b: IndexEntryView|
        #![trigger r.contains(a), r.contains(b)]
        r.contains(a) && r.contains(b) && a.path == b.path && a.stage == 0 implies b.stage == 0 by {
        if a != e && b != e {
            assert(es.contains(a) && es.contains(b));
        }
    }
}

/// Law: unstaging a path leaves no entry of it and every other entry.
pub proof fn law_remove_entries(es: Seq<IndexEntryView>, path: Seq<u8>)
    ensures
        forall|x: IndexEntryView| #[trigger]
            remaining(es, path, 0).contains(x) <==> es.contains(x) && x.path != path,
        staged(remaining(es, path, 0), path) is None,
{
    remaining_facts(es, path, 0);
    staged_spec(remaining(es, path, 0), path);
}

} // verus!
