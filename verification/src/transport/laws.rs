//! What the push protocol promises.

use vstd::prelude::*;

use super::reachable::{
    collected, entries_collected, object_collected, queue_collected, tree_collected, unseen,
};
use super::request::{command, commands, RefUpdateView};
use super::{hex_number, hex_value, length_field, packet, packets};
use crate::bytes::{ascii, PLUS};
use crate::notation::{all_hex, nibble_digit, nibble_value};
use crate::object::laws::refers;
use crate::object::{EntryMode, ObjectView, TreeEntryView};
use crate::odb::{OdbErrorView, Store};
use crate::treewalk::laws::{
    countable, law_stored_ids, readable, readable_bound, reading_finds_no_cycle,
};
use crate::treewalk::object_bound;

verus! {

// ---------------------------------------------------------------------
// Packet lines
// ---------------------------------------------------------------------

/// A value below 16 comes out of its digit again, which is no plus sign.
proof fn digit_value(n: int)
    requires
        0 <= n < 16,
    ensures
        nibble_value(nibble_digit(n)) == Some(n as u8),
        nibble_digit(n) != PLUS,
{
}

/// A number comes out of its notation again.
proof fn hex_number_value(n: nat, width: nat)
    ensures
        all_hex(hex_number(n, width)),
        hex_value(hex_number(n, width)) == n,
        hex_number(n, width).len() > 0,
        hex_number(n, width)[0] != PLUS,
    decreases n, width,
{
    let s = hex_number(n, width);
    let d = (n % 16) as int;
    digit_value(d);
    let (m, w) = if n < 16 && width <= 1 {
        (0nat, 0nat)
    } else if n < 16 {
        (0nat, (width - 1) as nat)
    } else {
        (n / 16, if width > 0 {
            (width - 1) as nat
        } else {
            0
        })
    };
    if n < 16 && width <= 1 {
        assert(s.drop_last() =~= Seq::<u8>::empty());
        reveal_with_fuel(hex_value, 2);
    } else {
        hex_number_value(m, w);
        let t = hex_number(m, w);
        assert(s =~= t.push(nibble_digit(d)));
        assert(s.drop_last() =~= t);
        assert forall|i: int| 0 <= i < s.len() implies nibble_value(#[trigger] s[i]) is Some by {
            if i < t.len() {
                assert(s[i] == t[i]);
            }
        }
        assert(s[0] == t[0]);
    }
}

/// A length below 65536 takes up four digits.
pub proof fn hex_number_four(n: nat)
    requires
        n <= 0xffff,
    ensures
        hex_number(n, 4).len() == 4,
        length_field(hex_number(n, 4)) == Some(n),
{
    hex_number_value(n, 4);
    reveal_with_fuel(hex_number, 5);
}

/// Packets behind other bytes are read as if they stood alone.
proof fn packets_shift(a: Seq<u8>, b: Seq<u8>, at: int)
    requires
        0 <= at <= b.len(),
    ensures
        packets(a + b, a.len() + at) == packets(b, at),
    decreases b.len() - at,
{
    let s = a + b;
    let k = a.len() + at;
    if at + 4 <= b.len() {
        assert(s.subrange(k, k + 4) =~= b.subrange(at, at + 4));
        match length_field(b.subrange(at, at + 4)) {
            None => {},
            Some(n) => {
                if n == 0 {
                    packets_shift(a, b, at + 4);
                } else if n >= 4 && at + n <= b.len() {
                    packets_shift(a, b, at + n);
                    assert(s.subrange(k + 4, k + n) =~= b.subrange(at + 4, at + n));
                }
            },
        }
    }
}

/// Law: an encoded packet is decoded to its data, whatever follows it. Data
/// whose length does not fit into four digits is left out.
pub proof fn law_packet_round_trip(data: Seq<u8>, rest: Seq<u8>)
    requires
        data.len() + 4 <= 0xffff,
    ensures
        packets(packet(data) + rest, 0) == (match packets(rest, 0) {
            None => None::<Seq<Seq<u8>>>,
            Some(ps) => Some(seq![data] + ps),
        }),
{
    let p = packet(data);
    let s = p + rest;
    let n = data.len() + 4;
    hex_number_four(n);
    assert(s.subrange(0, 4) =~= hex_number(n, 4));
    assert(s.subrange(4, n as int) =~= data);
    packets_shift(p, rest, 0);
}

/// Law: a flush packet is passed over.
pub proof fn law_flush_passed_over(rest: Seq<u8>)
    ensures
        packets(ascii("0000"@) + rest, 0) == packets(rest, 0),
{
    reveal_strlit("0000");
    let f = ascii("0000"@);
    let s = f + rest;
    assert(f =~= hex_number(0, 4)) by {
        reveal_with_fuel(hex_number, 5);
    }
    hex_number_four(0);
    assert(s.subrange(0, 4) =~= f);
    packets_shift(f, rest, 0);
}

/// The lines that ask for the first `n` updates.
pub open spec fn command_lines(us: Seq<RefUpdateView>, n: nat) -> Seq<Seq<u8>> {
    Seq::new(n, |i: int| command(us[i], i == 0))
}

/// Law: the remote decodes the commands of a push to their lines, one for
/// each update, in order.
pub proof fn law_commands_decode(us: Seq<RefUpdateView>, n: nat, rest: Seq<u8>)
    requires
        n <= us.len(),
        forall|i: int|
            0 <= i < n ==> (#[trigger] command_lines(us, n)[i]).len() + 4 <= 0xffff,
    ensures
        packets(commands(us, n) + rest, 0) == (match packets(rest, 0) {
            None => None::<Seq<Seq<u8>>>,
            Some(ps) => Some(command_lines(us, n) + ps),
        }),
    decreases n,
{
    if n == 0 {
        assert(commands(us, 0) + rest =~= rest);
        match packets(rest, 0) {
            None => {},
            Some(ps) => {
                assert(command_lines(us, 0) + ps =~= ps);
            },
        }
    } else {
        let last = command(us[n - 1], n == 1);
        assert(command_lines(us, n)[n - 1] == last);
        assert forall|i: int| 0 <= i < n - 1 implies (#[trigger] command_lines(
            us,
            (n - 1) as nat,
        )[i]).len() + 4 <= 0xffff by {
            assert(command_lines(us, n)[i] == command_lines(us, (n - 1) as nat)[i]);
        }
        assert(commands(us, n) + rest =~= commands(us, (n - 1) as nat) + (packet(last) + rest));
        law_commands_decode(us, (n - 1) as nat, packet(last) + rest);
        law_packet_round_trip(last, rest);
        match packets(rest, 0) {
            None => {},
            Some(ps) => {
                assert(command_lines(us, (n - 1) as nat) + (seq![last] + ps) =~= command_lines(
                    us,
                    n,
                ) + ps);
            },
        }
    }
}

// ---------------------------------------------------------------------
// Reachable objects
// ---------------------------------------------------------------------

/// Law: collecting what can be reached never says that objects are cyclic:
/// what was seen is not looked into again.
pub proof fn law_collecting_ends(s: Store, id: Seq<u8>, out: Set<Seq<u8>>)
    requires
        countable(s),
        id.len() == 20,
    ensures
        collected(s, id, out) matches Err(e) ==> e !is CyclicObjects,
{
    readable_bound(s);
    vstd::set_lib::lemma_len_difference(readable(s), out);
    queue_ends(s, seq![id], out, object_bound(s));
}

/// A larger set leaves fewer objects to be seen.
proof fn fewer_left(s: Store, small: Set<Seq<u8>>, large: Set<Seq<u8>>)
    requires
        readable(s).finite(),
        small.subset_of(large),
    ensures
        readable(s).difference(large).len() <= readable(s).difference(small).len(),
{
    vstd::set_lib::lemma_len_subset(
        readable(s).difference(large),
        readable(s).difference(small),
    );
}

/// There is fuel enough for a tree, and the set only grows.
proof fn tree_ends(s: Store, id: Seq<u8>, out: Set<Seq<u8>>, fuel: nat)
    requires
        readable(s).finite(),
        id.len() == 20,
        readable(s).difference(out).len() < fuel,
    ensures
        match tree_collected(s, id, out, fuel) {
            Ok(m) => out.subset_of(m) && m.contains(id),
            Err(e) => e !is CyclicObjects,
        },
    decreases fuel, 0nat,
{
    reading_finds_no_cycle(s, id);
    if !out.contains(id) {
        match s.object(id) {
            Ok(ObjectView::Tree(es)) => {
                readable(s).lemma_set_insert_diff_decreases(out, id);
                entries_end(s, id, es, es.len(), out.insert(id), (fuel - 1) as nat);
            },
            _ => {},
        }
    }
}

/// There is fuel enough for the entries of a tree.
proof fn entries_end(
    s: Store,
    id: Seq<u8>,
    es: Seq<TreeEntryView>,
    n: nat,
    out: Set<Seq<u8>>,
    fuel: nat,
)
    requires
        readable(s).finite(),
        s.object(id) == Ok::<_, OdbErrorView>(ObjectView::Tree(es)),
        n <= es.len(),
        readable(s).difference(out).len() < fuel,
    ensures
        match entries_collected(s, es, n, out, fuel) {
            Ok(m) => out.subset_of(m),
            Err(e) => e !is CyclicObjects,
        },
    decreases fuel, n + 1,
{
    if n > 0 {
        entries_end(s, id, es, (n - 1) as nat, out, fuel);
        let e = es[n - 1];
        match entries_collected(s, es, (n - 1) as nat, out, fuel) {
            Ok(m) => {
                if e.mode == EntryMode::Tree {
                    assert(refers(s.object(id)->Ok_0, e.id));
                    law_stored_ids(s, id, e.id);
                    fewer_left(s, out, m);
                    tree_ends(s, e.id, m, fuel);
                }
            },
            Err(_) => {},
        }
    }
}

/// What is left to be seen are ids that were asked about.
pub proof fn unseen_from(ids: Seq<Seq<u8>>, n: nat, out: Set<Seq<u8>>)
    requires
        n <= ids.len(),
    ensures
        forall|i: int|
            0 <= i < unseen(ids, n, out).len() ==> ids.contains(
                #[trigger] unseen(ids, n, out)[i],
            ),
        forall|i: int|
            0 <= i < n ==> out.contains(#[trigger] ids[i]) || unseen(ids, n, out).contains(
                ids[i],
            ),
    decreases n,
{
    if n > 0 {
        unseen_from(ids, (n - 1) as nat, out);
        let before = unseen(ids, (n - 1) as nat, out);
        let all = unseen(ids, n, out);
        assert forall|i: int| 0 <= i < all.len() implies ids.contains(#[trigger] all[i]) by {
            if i < before.len() {
                assert(all[i] == before[i]);
            } else {
                assert(all[i] == ids[n - 1]);
            }
        }
        assert forall|i: int| 0 <= i < n implies out.contains(#[trigger] ids[i]) || all.contains(
            ids[i],
        ) by {
            if i < n - 1 {
                if !out.contains(ids[i]) {
                    let j = choose|j: int| 0 <= j < before.len() && before[j] == ids[i];
                    assert(all[j] == ids[i]);
                }
            } else if !out.contains(ids[i]) {
                assert(all[before.len() as int] == ids[i]);
            }
        }
    }
}

/// There is fuel enough below an object; the set only grows, and what to go
/// on with are ids in the object.
proof fn object_ends(s: Store, id: Seq<u8>, out: Set<Seq<u8>>)
    requires
        readable(s).finite(),
        s.object(id) is Ok,
        readable(s).difference(out).len() < object_bound(s),
    ensures
        match object_collected(s, s.object(id)->Ok_0, out) {
            Ok((m, more)) => {
                &&& out.subset_of(m)
                &&& forall|i: int| 0 <= i < more.len() ==> (#[trigger] more[i]).len() == 20
            },
            Err(e) => e !is CyclicObjects,
        },
{
    match s.object(id)->Ok_0 {
        ObjectView::Blob(_) => {},
        ObjectView::Tag(t) => {
            law_stored_ids(s, id, t.object);
            unseen_from(seq![t.object], 1, out);
        },
        ObjectView::Tree(es) => {
            entries_end(s, id, es, es.len(), out, object_bound(s));
        },
        ObjectView::Commit(c) => {
            law_stored_ids(s, id, c.tree);
            tree_ends(s, c.tree, out, object_bound(s));
            match tree_collected(s, c.tree, out, object_bound(s)) {
                Ok(m) => {
                    let more = unseen(c.parents, c.parents.len(), m);
                    unseen_from(c.parents, c.parents.len(), m);
                    assert forall|i: int| 0 <= i < more.len() implies (#[trigger] more[i]).len()
                        == 20 by {
                        law_stored_ids(s, id, more[i]);
                    }
                },
                Err(_) => {},
            }
        },
    }
}

/// There is fuel enough for the queue, and the set only grows.
proof fn queue_ends(s: Store, queue: Seq<Seq<u8>>, out: Set<Seq<u8>>, fuel: nat)
    requires
        countable(s),
        forall|i: int| 0 <= i < queue.len() ==> (#[trigger] queue[i]).len() == 20,
        readable(s).difference(out).len() < fuel,
    ensures
        match queue_collected(s, queue, out, fuel) {
            Ok(m) => out.subset_of(m),
            Err(e) => e !is CyclicObjects,
        },
    decreases fuel, queue.len(),
{
    if queue.len() > 0 {
        let id = queue.last();
        let rest = queue.drop_last();
        assert(queue[queue.len() - 1].len() == 20);
        assert forall|i: int| 0 <= i < rest.len() implies (#[trigger] rest[i]).len() == 20 by {
            assert(rest[i] == queue[i]);
        }
        if out.contains(id) {
            queue_ends(s, rest, out, fuel);
        } else {
            reading_finds_no_cycle(s, id);
            readable_bound(s);
            match s.object(id) {
                Ok(o) => {
                    let seen = out.insert(id);
                    readable(s).lemma_set_insert_diff_decreases(out, id);
                    vstd::set_lib::lemma_len_difference(readable(s), seen);
                    object_ends(s, id, seen);
                    match object_collected(s, o, seen) {
                        Ok((m, more)) => {
                            fewer_left(s, seen, m);
                            let next = rest + more;
                            assert forall|i: int| 0 <= i < next.len() implies (#[trigger]
                            next[i]).len() == 20 by {
                                if i < rest.len() {
                                    assert(next[i] == rest[i]);
                                } else {
                                    assert(next[i] == more[i - rest.len()]);
                                }
                            }
                            queue_ends(s, next, m, (fuel - 1) as nat);
                        },
                        Err(_) => {},
                    }
                },
                Err(_) => {},
            }
        }
    }
}

} // verus!
