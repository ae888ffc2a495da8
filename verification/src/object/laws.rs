//! What objects of every kind promise.

use vstd::prelude::*;

use super::commit::{commit_ok, faultless_fields, first_fault, law_commit_round_trip, parent_ids};
use super::headers::{blank_line, logical_lines};
use super::tag::{law_tag_round_trip, tag_faultless_fields, tag_ok};
use super::tree::{
    canonical, entries_ok, first_entry, first_entry_bounds, law_tree_round_trip, law_tree_stable,
    payload_tree,
};
use super::{
    law_loose_is_payload, loose_object, payload_object, ObjectKind, ObjectView, ParseErrorView,
};
use crate::object::EntryMode;

verus! {

/// An object that its format can carry.
pub open spec fn object_ok(o: ObjectView) -> bool {
    match o {
        ObjectView::Blob(_) => true,
        ObjectView::Tree(es) => entries_ok(es),
        ObjectView::Commit(c) => commit_ok(c),
        ObjectView::Tag(t) => tag_ok(t),
    }
}

/// The object as it is written: a tree's entries in canonical order.
pub open spec fn canonical_object(o: ObjectView) -> ObjectView {
    match o {
        ObjectView::Tree(es) => ObjectView::Tree(canonical(es)),
        _ => o,
    }
}

/// Law: parsing a written object gives the object, with a tree's entries in
/// canonical order; this object is written as the same bytes again and has
/// the same id.
pub proof fn law_object_round_trip(o: ObjectView)
    requires
        object_ok(o),
    ensures
        payload_object(o.kind(), o.payload()) == Ok::<_, ParseErrorView>(canonical_object(o)),
        o.payload().len() <= usize::MAX ==> loose_object(o.framed()) == Ok::<_, ParseErrorView>(
            canonical_object(o),
        ),
        canonical_object(o).payload() == o.payload(),
        canonical_object(o).id() == o.id(),
{
    match o {
        ObjectView::Blob(_) => {},
        ObjectView::Tree(es) => {
            law_tree_round_trip(es);
            law_tree_stable(es);
        },
        ObjectView::Commit(c) => {
            law_commit_round_trip(c);
        },
        ObjectView::Tag(t) => {
            law_tag_round_trip(t);
        },
    }
    if o.payload().len() <= usize::MAX {
        law_loose_is_payload(o.kind(), o.payload());
    }
}

/// Whether the object holds the id of another object that belongs to it:
/// any but that of a submodule's commit.
pub open spec fn refers(o: ObjectView, id: Seq<u8>) -> bool {
    match o {
        ObjectView::Blob(_) => false,
        ObjectView::Tree(es) => exists|i: int|
            0 <= i < es.len() && (#[trigger] es[i]).id == id && es[i].mode != EntryMode::Gitlink,
        ObjectView::Commit(c) => c.tree == id || c.parents.contains(id),
        ObjectView::Tag(t) => t.object == id,
    }
}

/// The parent ids of faultless lines have 20 bytes.
proof fn parent_ids_len(lines: Seq<Seq<u8>>)
    requires
        first_fault(lines) is None,
    ensures
        forall|i: int|
            0 <= i < parent_ids(lines).len() ==> (#[trigger] parent_ids(lines)[i]).len() == 20,
    decreases lines.len(),
{
    if lines.len() > 0 {
        parent_ids_len(lines.drop_last());
        let before = parent_ids(lines.drop_last());
        assert forall|i: int| 0 <= i < parent_ids(lines).len() implies (#[trigger] parent_ids(
            lines,
        )[i]).len() == 20 by {
            if i < before.len() {
                assert(parent_ids(lines)[i] == before[i]);
            }
        }
    }
}

/// Law: the entries of a parsed tree can be carried by a tree.
pub proof fn law_parsed_entries(p: Seq<u8>)
    requires
        payload_tree(p) is Ok,
    ensures
        entries_ok(payload_tree(p)->Ok_0),
    decreases p.len(),
{
    if p.len() > 0 {
        first_entry_bounds(p);
        let (e, n) = first_entry(p)->Ok_0;
        law_parsed_entries(p.skip(n));
        super::tree::first_entry_ok(p);
        let rest = payload_tree(p.skip(n))->Ok_0;
        let es = payload_tree(p)->Ok_0;
        assert(es =~= seq![e] + rest);
        assert forall|i: int| 0 <= i < es.len() implies super::tree::entry_ok(#[trigger] es[i]) by {
            if i > 0 {
                assert(es[i] == rest[i - 1]);
            }
        }
    }
}

/// Law: the ids in a parsed object have 20 bytes.
pub proof fn law_parsed_ids(kind: ObjectKind, p: Seq<u8>, id: Seq<u8>)
    requires
        payload_object(kind, p) is Ok,
        refers(payload_object(kind, p)->Ok_0, id),
    ensures
        id.len() == 20,
{
    match kind {
        ObjectKind::Blob => {},
        ObjectKind::Tree => {
            law_parsed_entries(p);
            let es = payload_tree(p)->Ok_0;
            let i = choose|i: int|
                0 <= i < es.len() && (#[trigger] es[i]).id == id && es[i].mode
                    != EntryMode::Gitlink;
            assert(super::tree::entry_ok(es[i]));
        },
        ObjectKind::Commit => {
            let lines = logical_lines(p.take(blank_line(p)->0 + 1));
            faultless_fields(lines);
            parent_ids_len(lines);
        },
        ObjectKind::Tag => {
            let lines = logical_lines(p.take(blank_line(p)->0 + 1));
            tag_faultless_fields(lines);
        },
    }
}

} // verus!
