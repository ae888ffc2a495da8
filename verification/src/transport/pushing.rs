//! A push sends each object that its updates lead to, and no other.

use vstd::prelude::*;
use vstd::utf8::encode_utf8;

use super::closure::{closed_under, law_collected_exact, reach, readable_reach, well_typed};
use super::reachable::{
    collected, entries_collected, object_collected, queue_collected, tree_collected,
};
use super::request::{command, commands, needed, push_body, raw_objects, resolved, RefUpdateView};
use super::advertisement::RemoteRefView;
use crate::bytemap::{lists_keys, sorted_keys, sorted_keys_lists};
use crate::bytes::ascii;
use crate::notation::{hex, hex_round_trip};
use crate::object::{zero_id, EntryMode, ObjectKind, ObjectView, TreeEntryView};
use crate::odb::{OdbErrorView, Store};
use crate::pack::writer::{deflatable, pack_bytes};
use crate::treewalk::laws::countable;
use crate::treewalk::object_bound;

verus! {

/// The id of twenty zero bytes, which stands for no object.
pub open spec fn no_object() -> Seq<u8> {
    Seq::new(20, |i: int| 0u8)
}

/// Whether an update leads to an object.
pub open spec fn wants(s: Store, u: RefUpdateView, id: Seq<u8>) -> bool {
    u.new_id != no_object() && reach(s, u.new_id).contains(id)
}

/// The objects that the first `n` updates lead to.
pub open spec fn wanted(s: Store, us: Seq<RefUpdateView>, n: int) -> Set<Seq<u8>> {
    Set::new(|id: Seq<u8>| exists|i: int| 0 <= i < n && wants(s, #[trigger] us[i], id))
}

/// Whether what each update leads to is what trees and commits say of it.
pub open spec fn updates_typed(s: Store, us: Seq<RefUpdateView>) -> bool {
    forall|i: int|
        0 <= i < us.len() && (#[trigger] us[i]).new_id != no_object() ==> well_typed(
            s,
            us[i].new_id,
        )
}

/// The zero id is the id of no object.
proof fn zero_is_none()
    ensures
        zero_id() == no_object(),
{
    assert(zero_id() =~= no_object());
}

/// Collecting a tree adds finitely many ids.
proof fn tree_finite(s: Store, id: Seq<u8>, out: Set<Seq<u8>>, fuel: nat)
    requires
        out.finite(),
    ensures
        tree_collected(s, id, out, fuel) matches Ok(m) ==> m.finite(),
    decreases fuel, 0nat,
{
    if !out.contains(id) && fuel > 0 {
        match s.object(id) {
            Ok(ObjectView::Tree(es)) => {
                entries_finite(s, es, es.len(), out.insert(id), (fuel - 1) as nat);
            },
            _ => {},
        }
    }
}

/// So do the entries of a tree.
proof fn entries_finite(
    s: Store,
    es: Seq<TreeEntryView>,
    n: nat,
    out: Set<Seq<u8>>,
    fuel: nat,
)
    requires
        out.finite(),
    ensures
        entries_collected(s, es, n, out, fuel) matches Ok(m) ==> m.finite(),
    decreases fuel, n + 1,
{
    if n > 0 {
        entries_finite(s, es, (n - 1) as nat, out, fuel);
        match entries_collected(s, es, (n - 1) as nat, out, fuel) {
            Ok(m) => {
                if es[n - 1].mode == EntryMode::Tree {
                    tree_finite(s, es[n - 1].id, m, fuel);
                }
            },
            Err(_) => {},
        }
    }
}

/// So does a queue.
proof fn queue_finite(s: Store, queue: Seq<Seq<u8>>, out: Set<Seq<u8>>, fuel: nat)
    requires
        out.finite(),
    ensures
        queue_collected(s, queue, out, fuel) matches Ok(m) ==> m.finite(),
    decreases fuel, queue.len(),
{
    if queue.len() > 0 {
        let id = queue.last();
        let rest = queue.drop_last();
        if out.contains(id) {
            queue_finite(s, rest, out, fuel);
        } else if fuel > 0 && s.object(id) is Ok {
            let o = s.object(id)->Ok_0;
            let seen = out.insert(id);
            match o {
                ObjectView::Tree(es) => {
                    entries_finite(s, es, es.len(), seen, object_bound(s));
                },
                ObjectView::Commit(c) => {
                    tree_finite(s, c.tree, seen, object_bound(s));
                },
                _ => {},
            }
            match object_collected(s, o, seen) {
                Ok((m, more)) => {
                    queue_finite(s, rest + more, m, (fuel - 1) as nat);
                },
                Err(_) => {},
            }
        }
    }
}

/// What the first updates need is what they lead to.
proof fn needed_is_wanted(s: Store, us: Seq<RefUpdateView>, n: nat)
    requires
        n <= us.len(),
        updates_typed(s, us),
    ensures
        needed(s, us, n) matches Ok(m) ==> m == wanted(s, us, n as int) && m.finite()
            && closed_under(s, m),
    decreases n,
{
    zero_is_none();
    if n == 0 {
        assert(Set::<Seq<u8>>::empty() =~= wanted(s, us, 0));
    } else {
        let k = (n - 1) as nat;
        needed_is_wanted(s, us, k);
        if let Ok(before) = needed(s, us, k) {
            let u = us[n - 1];
            let now = wanted(s, us, n as int);
            assert forall|id: Seq<u8>| #[trigger] now.contains(id) <==> before.contains(id)
                || wants(s, u, id) by {
                if before.contains(id) {
                    let i = choose|i: int| 0 <= i < k && wants(s, #[trigger] us[i], id);
                    assert(wants(s, us[i], id));
                }
                if wants(s, u, id) {
                    assert(wants(s, us[n - 1], id));
                }
            }
            if u.new_id != no_object() {
                law_collected_exact(s, u.new_id, before);
                queue_finite(s, seq![u.new_id], before, object_bound(s));
                if let Ok(m) = collected(s, u.new_id, before) {
                    assert(m =~= now);
                }
            } else {
                assert(before =~= now);
            }
        }
    }
}

/// Law: the objects that a push needs are just those that the new ids of its
/// updates lead to, but for updates that delete their refs.
pub proof fn law_needed(s: Store, us: Seq<RefUpdateView>)
    requires
        updates_typed(s, us),
    ensures
        needed(s, us, us.len()) matches Ok(m) ==> m.finite() && forall|id: Seq<u8>| #[trigger]
            m.contains(id) <==> exists|i: int|
            0 <= i < us.len() && wants(s, #[trigger] us[i], id),
{
    needed_is_wanted(s, us, us.len());
    if let Ok(m) = needed(s, us, us.len()) {
        assert forall|id: Seq<u8>| #[trigger] m.contains(id) <==> exists|i: int|
            0 <= i < us.len() && wants(s, #[trigger] us[i], id) by {
            assert(wanted(s, us, us.len() as int).contains(id) <==> exists|i: int|
                0 <= i < us.len() && wants(s, #[trigger] us[i], id));
        }
    }
}

/// Law: a list of ids is read to as many kinds and payloads, each being what
/// the store holds under the id in its place; and the reading fails just where
/// one of them cannot be read.
pub proof fn law_raw_objects(s: Store, ids: Seq<Seq<u8>>, n: nat)
    requires
        n <= ids.len(),
    ensures
        match raw_objects(s, ids, n) {
            Ok(es) => es.len() == n && forall|i: int|
                0 <= i < n ==> s.raw(ids[i]) == Ok::<_, OdbErrorView>(#[trigger] es[i]),
            Err(e) => exists|i: int|
                0 <= i < n && s.raw(#[trigger] ids[i]) == Err::<(ObjectKind, Seq<u8>), _>(e),
        },
    decreases n,
{
    if n > 0 {
        let k = (n - 1) as nat;
        law_raw_objects(s, ids, k);
        match raw_objects(s, ids, k) {
            Ok(es) => {
                match s.raw(ids[n - 1]) {
                    Ok(x) => {
                        let all = raw_objects(s, ids, n)->Ok_0;
                        assert forall|i: int| 0 <= i < n implies s.raw(ids[i]) == Ok::<
                            _,
                            OdbErrorView,
                        >(#[trigger] all[i]) by {
                            if i < k {
                                assert(all[i] == es[i]);
                            }
                        }
                    },
                    Err(e) => {
                        assert(s.raw(ids[n - 1]) == Err::<(ObjectKind, Seq<u8>), _>(e));
                    },
                }
            },
            Err(e) => {
                let i = choose|i: int|
                    0 <= i < k && s.raw(#[trigger] ids[i]) == Err::<(ObjectKind, Seq<u8>), _>(e);
                assert(s.raw(ids[i]) == Err::<(ObjectKind, Seq<u8>), _>(e));
            },
        }
    }
}

/// Whether a list of objects is what the store holds of all that the updates
/// lead to, in the order of the ids.
pub open spec fn holds_all(
    s: Store,
    us: Seq<RefUpdateView>,
    ids: Seq<Seq<u8>>,
    es: Seq<(ObjectKind, Seq<u8>)>,
) -> bool {
    &&& lists_keys(ids, wanted(s, us, us.len() as int))
    &&& es.len() == ids.len()
    &&& ids.len() == wanted(s, us, us.len() as int).len()
    &&& forall|i: int|
        0 <= i < ids.len() ==> s.raw(#[trigger] ids[i]) == Ok::<_, OdbErrorView>(es[i])
    &&& forall|id: Seq<u8>|
        wanted(s, us, us.len() as int).contains(id) ==> es.contains(#[trigger] s.raw(id)->Ok_0)
}

/// Law: the body of a push is its commands, a flush packet, and a pack with
/// the kind and payload that the store holds under each id that the updates
/// lead to, one for each.
pub proof fn law_push_body(s: Store, us: Seq<RefUpdateView>)
    requires
        updates_typed(s, us),
    ensures
        push_body(s, us) matches Ok(b) ==> exists|
            ids: Seq<Seq<u8>>,
            es: Seq<(ObjectKind, Seq<u8>)>,
        |
            #[trigger] holds_all(s, us, ids, es) && b == commands(us, us.len()) + seq![
                48u8,
                48u8,
                48u8,
                48u8,
            ] + pack_bytes(es),
{
    needed_is_wanted(s, us, us.len());
    if let Ok(b) = push_body(s, us) {
        let m = needed(s, us, us.len())->Ok_0;
        let ids = sorted_keys(m);
        sorted_keys_lists(m);
        let es = raw_objects(s, ids, ids.len())->Ok_0;
        law_raw_objects(s, ids, ids.len());
        crate::bytemap::lists_keys_len(ids, m);
        assert forall|i: int| 0 <= i < ids.len() implies s.raw(#[trigger] ids[i]) == Ok::<
            _,
            OdbErrorView,
        >(es[i]) by {}
        assert forall|id: Seq<u8>| m.contains(id) implies es.contains(
            #[trigger] s.raw(id)->Ok_0,
        ) by {
            assert(ids.contains(id));
            let i = choose|i: int| 0 <= i < ids.len() && ids[i] == id;
            assert(es[i] == s.raw(ids[i])->Ok_0);
        }
        reveal_strlit("0000");
        assert(ascii("0000"@) =~= seq![48u8, 48u8, 48u8, 48u8]);
        assert(holds_all(s, us, ids, es));
    }
}

/// What can be parsed can be read.
proof fn object_raw(s: Store, id: Seq<u8>)
    requires
        s.object(id) is Ok,
    ensures
        s.raw(id) is Ok,
{
}

/// Needing fails only where an object that an update leads to cannot be read.
proof fn needed_succeeds(s: Store, us: Seq<RefUpdateView>, n: nat)
    requires
        n <= us.len(),
        updates_typed(s, us),
        countable(s),
        forall|i: int| 0 <= i < us.len() ==> (#[trigger] us[i]).new_id.len() == 20,
        forall|id: Seq<u8>|
            wanted(s, us, us.len() as int).contains(id) ==> (#[trigger] s.object(id)) is Ok,
    ensures
        needed(s, us, n) is Ok,
    decreases n,
{
    zero_is_none();
    if n > 0 {
        let k = (n - 1) as nat;
        needed_succeeds(s, us, k);
        needed_is_wanted(s, us, k);
        let before = needed(s, us, k)->Ok_0;
        let u = us[n - 1];
        if u.new_id != no_object() {
            assert(readable_reach(s, u.new_id, before)) by {
                assert forall|id: Seq<u8>| #[trigger]
                    reach(s, u.new_id).contains(id) && !before.contains(id) implies s.object(
                    id,
                ) is Ok by {
                    assert(wants(s, us[n - 1], id));
                    assert(wanted(s, us, us.len() as int).contains(id));
                }
            }
            law_collected_exact(s, u.new_id, before);
        }
    }
}

/// Law: where all that the updates lead to can be read, the body of a push can
/// be built, unless a payload cannot be compressed.
pub proof fn law_push_succeeds(s: Store, us: Seq<RefUpdateView>)
    requires
        updates_typed(s, us),
        countable(s),
        forall|i: int| 0 <= i < us.len() ==> (#[trigger] us[i]).new_id.len() == 20,
        forall|id: Seq<u8>|
            wanted(s, us, us.len() as int).contains(id) ==> (#[trigger] s.object(id)) is Ok,
    ensures
        push_body(s, us) matches Err(e) ==> e is Pack && exists|
            ids: Seq<Seq<u8>>,
            es: Seq<(ObjectKind, Seq<u8>)>,
        |
            #[trigger] holds_all(s, us, ids, es) && !deflatable(es),
{
    needed_succeeds(s, us, us.len());
    needed_is_wanted(s, us, us.len());
    let m = needed(s, us, us.len())->Ok_0;
    let ids = sorted_keys(m);
    sorted_keys_lists(m);
    law_raw_objects(s, ids, ids.len());
    crate::bytemap::lists_keys_len(ids, m);
    if let Err(e) = raw_objects(s, ids, ids.len()) {
        let i = choose|i: int|
            0 <= i < ids.len() && s.raw(#[trigger] ids[i]) == Err::<(ObjectKind, Seq<u8>), _>(e);
        assert(ids.contains(ids[i]));
        assert(m.contains(ids[i]));
        assert(s.object(ids[i]) is Ok);
        object_raw(s, ids[i]);
    }
    let es = raw_objects(s, ids, ids.len())->Ok_0;
    assert forall|i: int| 0 <= i < ids.len() implies s.raw(#[trigger] ids[i]) == Ok::<
        _,
        OdbErrorView,
    >(es[i]) by {}
    assert forall|id: Seq<u8>| m.contains(id) implies es.contains(
        #[trigger] s.raw(id)->Ok_0,
    ) by {
        assert(ids.contains(id));
        let i = choose|i: int| 0 <= i < ids.len() && ids[i] == id;
        assert(es[i] == s.raw(ids[i])->Ok_0);
    }
    assert(holds_all(s, us, ids, es));
}

/// Law: the line that asks for an update has the two ids in hexadecimal, 40
/// digits each, and the name of the ref, with a space between each two. Behind
/// the name of the first, what is asked of the remote follows a NUL.
pub proof fn law_command_line(u: RefUpdateView, first: bool)
    requires
        u.old_id.len() == 20,
        u.new_id.len() == 20,
    ensures
        ({
            let line = command(u, first);
            let name = encode_utf8(u.ref_name);
            let end = 82 + name.len() as int;
            &&& line.take(40) == hex(u.old_id)
            &&& line[40] == 32
            &&& line.subrange(41, 81) == hex(u.new_id)
            &&& line[81] == 32
            &&& line.subrange(82, end) == name
            &&& line.last() == 10
            &&& line.len() == end + 1 + if first {
                14int
            } else {
                0
            }
            &&& first ==> line[end] == 0 && line.subrange(end + 1, end + 14) == ascii(
                "report-status"@,
            )
        }),
{
    reveal_strlit("report-status");
    hex_round_trip(u.old_id);
    hex_round_trip(u.new_id);
    let line = command(u, first);
    let name = encode_utf8(u.ref_name);
    let end = 82 + name.len() as int;
    assert(line.take(40) =~= hex(u.old_id));
    assert(line.subrange(41, 81) =~= hex(u.new_id));
    assert(line.subrange(82, end) =~= name);
    if first {
        assert(ascii("report-status"@).len() == 13);
        assert(line.subrange(end + 1, end + 14) =~= ascii("report-status"@));
    }
}

/// Law: an update without a start starts where the remote says that its ref
/// is, at the first ref of that name, or at no object if there is none; one
/// with a start keeps it. Nothing else of an update changes.
pub proof fn law_resolved(u: RefUpdateView, rs: Seq<RemoteRefView>)
    ensures
        ({
            let r = resolved(u, rs);
            &&& r.new_id == u.new_id
            &&& r.ref_name == u.ref_name
            &&& u.old_id != no_object() ==> r.old_id == u.old_id
            &&& u.old_id == no_object() ==> {
                ||| r.old_id == no_object() && forall|i: int|
                    0 <= i < rs.len() ==> (#[trigger] rs[i]).name != u.ref_name
                ||| exists|i: int|
                    0 <= i < rs.len() && (#[trigger] rs[i]).name == u.ref_name && rs[i].id
                        == r.old_id && forall|j: int|
                        0 <= j < i ==> (#[trigger] rs[j]).name != u.ref_name
            }
        }),
{
    zero_is_none();
    advertised_first(rs, u.ref_name);
}

/// The first ref with the name, or none.
proof fn advertised_first(rs: Seq<RemoteRefView>, name: Seq<char>)
    ensures
        ({
            let id = super::request::advertised_id(rs, name);
            ||| id == no_object() && forall|i: int|
                0 <= i < rs.len() ==> (#[trigger] rs[i]).name != name
            ||| exists|i: int|
                0 <= i < rs.len() && (#[trigger] rs[i]).name == name && rs[i].id == id && forall|
                    j: int,
                |
                    0 <= j < i ==> (#[trigger] rs[j]).name != name
        }),
    decreases rs.len(),
{
    zero_is_none();
    if rs.len() > 0 {
        let t = rs.skip(1);
        let id = super::request::advertised_id(rs, name);
        if rs[0].name == name {
            assert(rs[0].id == id);
        } else {
            advertised_first(t, name);
            if exists|i: int|
                0 <= i < t.len() && (#[trigger] t[i]).name == name && t[i].id == id && forall|
                    j: int,
                |
                    0 <= j < i ==> (#[trigger] t[j]).name != name {
                let i = choose|i: int|
                    0 <= i < t.len() && (#[trigger] t[i]).name == name && t[i].id == id && forall|
                        j: int,
                    |
                        0 <= j < i ==> (#[trigger] t[j]).name != name;
                assert forall|j: int| 0 <= j < i + 1 implies (#[trigger] rs[j]).name != name by {
                    if j > 0 {
                        assert(rs[j] == t[j - 1]);
                    }
                }
                assert(rs[i + 1] == t[i]);
            } else {
                assert forall|i: int| 0 <= i < rs.len() implies (#[trigger] rs[i]).name != name by {
                    if i > 0 {
                        assert(rs[i] == t[i - 1]);
                    }
                }
            }
        }
    }
}

} // verus!
