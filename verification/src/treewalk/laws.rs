//! Why walks over objects come to an end.

use vstd::prelude::*;

use super::{
    child_path, entries_files, files_of_tree, ids_total, object_bound, tree_files, WalkErrorView,
};
use crate::object::laws::{law_parsed_ids, refers};
use crate::object::{
    object_id, payload_object, EntryMode, ObjectKind, ObjectView, ParseErrorView, TreeEntryView,
};
use crate::odb::laws::law_read_has_id;
use crate::odb::{loose_frame, loose_path, packed_object, OdbErrorView, Store};
use crate::notation::{hex, hex_round_trip, unhex};
use crate::pack::entry::id_index_spec;
use crate::pack::PackView;

verus! {

/// The ids under which an object can be read.
pub open spec fn readable(s: Store) -> Set<Seq<u8>> {
    Set::new(|id: Seq<u8>| id.len() == 20 && s.object(id) is Ok)
}

/// A store that fits into memory: its files and the ids in its packs can be
/// counted.
pub open spec fn countable(s: Store) -> bool {
    &&& s.git.files.dom().finite()
    &&& s.git.files.len() + ids_total(s.packs) < usize::MAX
}

/// The ids that the packs list.
spec fn listed(packs: Seq<PackView>) -> Set<Seq<u8>>
    decreases packs.len(),
{
    if packs.len() == 0 {
        Set::empty()
    } else {
        listed(packs.drop_last()).union(packs.last().ids.to_set())
    }
}

/// There are no more of them than were counted.
proof fn listed_bound(packs: Seq<PackView>)
    ensures
        listed(packs).finite(),
        listed(packs).len() <= ids_total(packs),
    decreases packs.len(),
{
    if packs.len() > 0 {
        let rest = listed(packs.drop_last());
        let last = packs.last().ids;
        listed_bound(packs.drop_last());
        vstd::seq_lib::seq_to_set_is_finite(last);
        last.lemma_cardinality_of_set();
        vstd::set_lib::lemma_len_union(rest, last.to_set());
    }
}

/// The packs list what each of them lists.
proof fn listed_has(packs: Seq<PackView>, i: int, id: Seq<u8>)
    requires
        0 <= i < packs.len(),
        packs[i].ids.contains(id),
    ensures
        listed(packs).contains(id),
    decreases packs.len(),
{
    if i < packs.len() - 1 {
        listed_has(packs.drop_last(), i, id);
    }
}

/// What is read from a pack is listed.
proof fn packed_is_listed(packs: Seq<PackView>, k: int, id: Seq<u8>)
    requires
        0 <= k <= packs.len(),
        packed_object(packs.skip(k), id) is Ok,
    ensures
        listed(packs).contains(id),
    decreases packs.len() - k,
{
    let rest = packs.skip(k);
    id_index_spec(rest[0].ids, id);
    if rest[0].ids.contains(id) {
        listed_has(packs, k, id);
    } else {
        assert(rest.drop_first() =~= packs.skip(k + 1));
        packed_is_listed(packs, k + 1, id);
    }
}

/// The id whose loose file has the path.
spec fn id_of_path(path: Seq<u8>) -> Seq<u8> {
    unhex(path.subrange(8, 10) + path.subrange(11, 49))
}

/// Fewer ids can be read than walks may go through.
pub proof fn readable_bound(s: Store)
    requires
        countable(s),
    ensures
        readable(s).finite(),
        readable(s).len() < object_bound(s),
{
    let f = |path: Seq<u8>| id_of_path(path);
    let loose = s.git.files.dom().map(f);
    let packed = listed(s.packs);
    vstd::set_lib::lemma_map_size_bound(s.git.files.dom(), loose, f);
    listed_bound(s.packs);
    vstd::set_lib::lemma_len_union(loose, packed);
    assert(readable(s).subset_of(loose.union(packed))) by {
        assert forall|id: Seq<u8>| readable(s).contains(id) implies loose.union(packed).contains(
            id,
        ) by {
            match loose_frame(s.git, id) {
                Ok(Some(_)) => {
                    let p = loose_path(id);
                    reveal_strlit("objects/");
                    hex_round_trip(id);
                    assert(p.subrange(8, 10) + p.subrange(11, 49) =~= hex(id));
                    assert(f(p) == id);
                    assert(s.git.files.dom().contains(p));
                },
                _ => {
                    assert(s.packs.skip(0) =~= s.packs);
                    packed_is_listed(s.packs, 0, id);
                },
            }
        }
    }
    vstd::set_lib::lemma_set_subset_finite(loose.union(packed), readable(s));
    vstd::set_lib::lemma_len_subset(readable(s), loose.union(packed));
}

/// Reading alone finds no cycle.
pub proof fn reading_finds_no_cycle(s: Store, id: Seq<u8>)
    ensures
        s.object(id) matches Err(e) ==> e !is CyclicObjects,
{
    packed_finds_no_cycle(s.packs, id);
}

/// Reading from packs alone finds no cycle.
proof fn packed_finds_no_cycle(packs: Seq<PackView>, id: Seq<u8>)
    ensures
        packed_object(packs, id) matches Err(e) ==> e !is CyclicObjects,
    decreases packs.len(),
{
    if packs.len() > 0 {
        packed_finds_no_cycle(packs.drop_first(), id);
    }
}

/// Law: the ids in a stored object have 20 bytes.
pub proof fn law_stored_ids(s: Store, id: Seq<u8>, other: Seq<u8>)
    requires
        s.object(id) is Ok,
        refers(s.object(id)->Ok_0, other),
    ensures
        other.len() == 20,
{
    law_read_has_id(s, id);
    let (kind, payload) = choose|kind: ObjectKind, payload: Seq<u8>| #[trigger]
        object_id(kind, payload) == id && payload_object(kind, payload) == Ok::<
            _,
            ParseErrorView,
        >(s.object(id)->Ok_0);
    law_parsed_ids(kind, payload, other);
}

/// Whether `rank` is smaller for each subtree than for its tree, so that no
/// tree lies below itself.
pub open spec fn trees_ranked(s: Store, rank: spec_fn(Seq<u8>) -> nat) -> bool {
    forall|id: Seq<u8>, es: Seq<TreeEntryView>, i: int|
        #![trigger s.object(id), es[i]]
        s.object(id) == Ok::<_, OdbErrorView>(ObjectView::Tree(es)) && 0 <= i < es.len()
            && es[i].mode == EntryMode::Tree ==> rank(es[i].id) < rank(id)
}

/// Whether a walk says that a tree lies below itself.
pub open spec fn says_cyclic(r: Result<Map<Seq<u8>, Seq<u8>>, WalkErrorView>) -> bool {
    r matches Err(WalkErrorView::Odb(e)) && e is CyclicObjects
}

/// With all trees above of greater rank, there is fuel enough.
proof fn tree_files_ends(
    s: Store,
    id: Seq<u8>,
    prefix: Seq<u8>,
    strict: bool,
    fuel: nat,
    found: Map<Seq<u8>, Seq<u8>>,
    rank: spec_fn(Seq<u8>) -> nat,
    above: Set<Seq<u8>>,
)
    requires
        trees_ranked(s, rank),
        readable(s).finite(),
        id.len() == 20,
        readable(s).difference(above).len() < fuel,
        forall|a: Seq<u8>| #[trigger] above.contains(a) ==> rank(id) < rank(a),
    ensures
        !says_cyclic(tree_files(s, id, prefix, strict, fuel, found)),
    decreases fuel, 0nat,
{
    reading_finds_no_cycle(s, id);
    match s.object(id) {
        Ok(ObjectView::Tree(es)) => {
            assert(!above.contains(id));
            readable(s).lemma_set_insert_diff_decreases(above, id);
            let more = above.insert(id);
            entries_files_ends(
                s,
                id,
                es,
                es.len(),
                prefix,
                strict,
                (fuel - 1) as nat,
                found,
                rank,
                more,
            );
        },
        _ => {},
    }
}

/// So there is for the entries of a tree.
proof fn entries_files_ends(
    s: Store,
    id: Seq<u8>,
    es: Seq<TreeEntryView>,
    n: nat,
    prefix: Seq<u8>,
    strict: bool,
    fuel: nat,
    found: Map<Seq<u8>, Seq<u8>>,
    rank: spec_fn(Seq<u8>) -> nat,
    above: Set<Seq<u8>>,
)
    requires
        trees_ranked(s, rank),
        readable(s).finite(),
        s.object(id) == Ok::<_, OdbErrorView>(ObjectView::Tree(es)),
        n <= es.len(),
        readable(s).difference(above).len() < fuel,
        forall|a: Seq<u8>| #[trigger] above.contains(a) ==> rank(id) <= rank(a),
    ensures
        !says_cyclic(entries_files(s, es, n, prefix, strict, fuel, found)),
    decreases fuel, n + 1,
{
    if n > 0 {
        entries_files_ends(
            s,
            id,
            es,
            (n - 1) as nat,
            prefix,
            strict,
            fuel,
            found,
            rank,
            above,
        );
        let e = es[n - 1];
        if e.mode == EntryMode::Tree {
            match entries_files(s, es, (n - 1) as nat, prefix, strict, fuel, found) {
                Ok(m) => {
                    assert(refers(s.object(id)->Ok_0, e.id));
                    law_stored_ids(s, id, e.id);
                    tree_files_ends(
                        s,
                        e.id,
                        super::child_path(prefix, e.name),
                        strict,
                        fuel,
                        m,
                        rank,
                        above,
                    );
                },
                Err(_) => {},
            }
        }
    }
}

/// Law: where no tree lies below itself, a walk never says that one does.
pub proof fn law_walk_ends(
    s: Store,
    id: Seq<u8>,
    strict: bool,
    rank: spec_fn(Seq<u8>) -> nat,
)
    requires
        countable(s),
        id.len() == 20,
        trees_ranked(s, rank),
    ensures
        !says_cyclic(files_of_tree(s, id, strict)),
{
    readable_bound(s);
    assert(readable(s).difference(Set::empty()) =~= readable(s));
    tree_files_ends(
        s,
        id,
        Seq::empty(),
        strict,
        object_bound(s),
        Map::empty(),
        rank,
        Set::empty(),
    );
}

/// A walk finds finitely many files.
pub proof fn tree_files_finite(
    s: Store,
    id: Seq<u8>,
    prefix: Seq<u8>,
    strict: bool,
    fuel: nat,
    found: Map<Seq<u8>, Seq<u8>>,
)
    requires
        found.dom().finite(),
    ensures
        tree_files(s, id, prefix, strict, fuel, found) matches Ok(m) ==> m.dom().finite(),
    decreases fuel, 0nat,
{
    if fuel > 0 {
        match s.object(id) {
            Ok(ObjectView::Tree(es)) => {
                entries_files_finite(s, es, es.len(), prefix, strict, (fuel - 1) as nat, found);
            },
            _ => {},
        }
    }
}

/// So does one over the entries of a tree.
proof fn entries_files_finite(
    s: Store,
    es: Seq<TreeEntryView>,
    n: nat,
    prefix: Seq<u8>,
    strict: bool,
    fuel: nat,
    found: Map<Seq<u8>, Seq<u8>>,
)
    requires
        found.dom().finite(),
    ensures
        entries_files(s, es, n, prefix, strict, fuel, found) matches Ok(m) ==> m.dom().finite(),
    decreases fuel, n + 1,
{
    if n > 0 {
        entries_files_finite(s, es, (n - 1) as nat, prefix, strict, fuel, found);
        match entries_files(s, es, (n - 1) as nat, prefix, strict, fuel, found) {
            Ok(m) => {
                let e = es[n - 1];
                if e.mode == EntryMode::Tree {
                    tree_files_finite(s, e.id, child_path(prefix, e.name), strict, fuel, m);
                }
            },
            Err(_) => {},
        }
    }
}

} // verus!
