//! How the bytes of an index file are laid out, and in which order its entries
//! stand.

use vstd::prelude::*;

use super::format::{
    entry_bytes, entry_ok, entry_prefix, entry_prefix_len, flags_of, index_body, index_bytes,
    index_contents, padded, read_entries,
};
use super::store::index_of;
use super::{in_order, insert_ordered, ordered, staged, IndexEntryView, IndexErrorView, IndexView};
use crate::bytes::{
    ascii, be_bytes, be_bytes_len, be_round_trip, be_value, byte_capacities, lex_lt, lex_lt_total,
    lex_lt_transitive,
};
use crate::codec::sha1_digest;
use crate::dir::DirView;
use crate::files::IoError;

verus! {

// ---------------------------------------------------------------------
// Bytes
// ---------------------------------------------------------------------

/// Law: four bytes denote a number, the most significant one first.
pub proof fn law_four_bytes(a: u8, b: u8, c: u8, d: u8)
    ensures
        be_value(seq![a, b, c, d]) == a * 0x100_0000 + b * 0x1_0000 + c * 0x100 + d,
        be_bytes((a * 0x100_0000 + b * 0x1_0000 + c * 0x100 + d) as nat, 4) == seq![a, b, c, d],
{
    let s = seq![a, b, c, d];
    reveal_with_fuel(be_value, 5);
    assert(s.drop_last() =~= seq![a, b, c]);
    assert(seq![a, b, c].drop_last() =~= seq![a, b]);
    assert(seq![a, b].drop_last() =~= seq![a]);
    assert(seq![a].drop_last() =~= Seq::<u8>::empty());
    crate::bytes::be_round_trip_bytes(s);
}

/// The fields of the fixed part of an entry.
proof fn prefix_fields(e: IndexEntryView)
    requires
        e.id.len() == 20,
    ensures
        ({
            let p = entry_prefix(e);
            &&& p.len() == 62
            &&& p.subrange(0, 4) == be_bytes(e.ctime.secs as nat, 4)
            &&& p.subrange(4, 8) == be_bytes(e.ctime.nanos as nat, 4)
            &&& p.subrange(8, 12) == be_bytes(e.mtime.secs as nat, 4)
            &&& p.subrange(12, 16) == be_bytes(e.mtime.nanos as nat, 4)
            &&& p.subrange(16, 20) == be_bytes(e.dev as nat, 4)
            &&& p.subrange(20, 24) == be_bytes(e.ino as nat, 4)
            &&& p.subrange(24, 28) == be_bytes(e.mode as nat, 4)
            &&& p.subrange(28, 32) == be_bytes(e.uid as nat, 4)
            &&& p.subrange(32, 36) == be_bytes(e.gid as nat, 4)
            &&& p.subrange(36, 40) == be_bytes(e.size as nat, 4)
            &&& p.subrange(40, 60) == e.id
            &&& p.subrange(60, 62) == be_bytes(flags_of(e), 2)
        }),
{
    let p = entry_prefix(e);
    entry_prefix_len(e);
    be_bytes_len(e.ctime.secs as nat, 4);
    be_bytes_len(e.ctime.nanos as nat, 4);
    be_bytes_len(e.mtime.secs as nat, 4);
    be_bytes_len(e.mtime.nanos as nat, 4);
    be_bytes_len(e.dev as nat, 4);
    be_bytes_len(e.ino as nat, 4);
    be_bytes_len(e.mode as nat, 4);
    be_bytes_len(e.uid as nat, 4);
    be_bytes_len(e.gid as nat, 4);
    be_bytes_len(e.size as nat, 4);
    be_bytes_len(flags_of(e), 2);
    assert(p.subrange(0, 4) =~= be_bytes(e.ctime.secs as nat, 4));
    assert(p.subrange(4, 8) =~= be_bytes(e.ctime.nanos as nat, 4));
    assert(p.subrange(8, 12) =~= be_bytes(e.mtime.secs as nat, 4));
    assert(p.subrange(12, 16) =~= be_bytes(e.mtime.nanos as nat, 4));
    assert(p.subrange(16, 20) =~= be_bytes(e.dev as nat, 4));
    assert(p.subrange(20, 24) =~= be_bytes(e.ino as nat, 4));
    assert(p.subrange(24, 28) =~= be_bytes(e.mode as nat, 4));
    assert(p.subrange(28, 32) =~= be_bytes(e.uid as nat, 4));
    assert(p.subrange(32, 36) =~= be_bytes(e.gid as nat, 4));
    assert(p.subrange(36, 40) =~= be_bytes(e.size as nat, 4));
    assert(p.subrange(40, 60) =~= e.id);
    assert(p.subrange(60, 62) =~= be_bytes(flags_of(e), 2));
}

/// Law: an entry is written as two times of seconds and nanoseconds, device,
/// inode, mode, owner, group and size in four bytes each, the id, two bytes of
/// flags, the path, and one to eight zero bytes up to a multiple of eight. The
/// flags hold the assume-valid bit, the stage, and the path's length or 4095.
pub proof fn law_entry_layout(e: IndexEntryView)
    requires
        entry_ok(e),
    ensures
        ({
            let b = entry_bytes(e);
            let n = e.path.len() as int;
            &&& b.len() % 8 == 0
            &&& 63 + n <= b.len() < 71 + n
            &&& be_value(b.subrange(0, 4)) == e.ctime.secs
            &&& be_value(b.subrange(4, 8)) == e.ctime.nanos
            &&& be_value(b.subrange(8, 12)) == e.mtime.secs
            &&& be_value(b.subrange(12, 16)) == e.mtime.nanos
            &&& be_value(b.subrange(16, 20)) == e.dev
            &&& be_value(b.subrange(20, 24)) == e.ino
            &&& be_value(b.subrange(24, 28)) == e.mode
            &&& be_value(b.subrange(28, 32)) == e.uid
            &&& be_value(b.subrange(32, 36)) == e.gid
            &&& be_value(b.subrange(36, 40)) == e.size
            &&& b.subrange(40, 60) == e.id
            &&& be_value(b.subrange(60, 62)) == (if e.assume_valid {
                32768int
            } else {
                0
            }) + 4096 * e.stage + (if n < 4095 {
                n
            } else {
                4095
            })
            &&& b.subrange(62, 62 + n) == e.path
            &&& forall|i: int| 62 + n <= i < b.len() ==> #[trigger] b[i] == 0
        }),
{
    reveal(entry_bytes);
    let p = entry_prefix(e);
    let b = entry_bytes(e);
    let n = e.path.len() as int;
    prefix_fields(e);
    byte_capacities();
    be_round_trip(e.ctime.secs as nat, 4);
    be_round_trip(e.ctime.nanos as nat, 4);
    be_round_trip(e.mtime.secs as nat, 4);
    be_round_trip(e.mtime.nanos as nat, 4);
    be_round_trip(e.dev as nat, 4);
    be_round_trip(e.ino as nat, 4);
    be_round_trip(e.mode as nat, 4);
    be_round_trip(e.uid as nat, 4);
    be_round_trip(e.gid as nat, 4);
    be_round_trip(e.size as nat, 4);
    be_round_trip(flags_of(e), 2);
    assert(padded(63 + n) % 8 == 0 && 63 + n <= padded(63 + n) < 71 + n);
    assert(b.take(62) =~= p);
    assert forall|i: int, j: int| 0 <= i <= j <= 62 implies #[trigger] b.subrange(i, j)
        == p.subrange(i, j) by {
        assert(b.subrange(i, j) =~= p.subrange(i, j));
    }
    assert(b.subrange(62, 62 + n) =~= e.path);
}

/// Law: an index file begins with `DIRC`, version 2 and the number of entries,
/// and ends in the digest of what stands before it.
pub proof fn law_index_layout(v: IndexView)
    requires
        v.entries.len() < 0x1_0000_0000,
        sha1_digest(index_body(v)).len() == 20,
    ensures
        ({
            let b = index_bytes(v);
            let end = b.len() - 20;
            &&& end >= 12
            &&& b.take(4) == seq![68u8, 73u8, 82u8, 67u8]
            &&& be_value(b.subrange(4, 8)) == 2
            &&& be_value(b.subrange(8, 12)) == v.entries.len()
            &&& b.skip(end) == sha1_digest(b.take(end))
        }),
{
    reveal_strlit("DIRC");
    let b = index_bytes(v);
    let n = v.entries.len();
    be_bytes_len(2, 4);
    be_bytes_len(n, 4);
    byte_capacities();
    be_round_trip(2, 4);
    be_round_trip(n, 4);
    assert(n % 0x1_0000_0000 == n);
    assert(b.take(4) =~= seq![68u8, 73u8, 82u8, 67u8]);
    assert(b.subrange(4, 8) =~= be_bytes(2, 4));
    assert(b.subrange(8, 12) =~= be_bytes(n, 4));
    assert(b.take(b.len() - 20) =~= index_body(v));
    assert(b.skip(b.len() - 20) =~= sha1_digest(index_body(v)));
}

/// As many entries are read as are asked for.
proof fn entries_counted(b: Seq<u8>, body: int, n: nat)
    ensures
        read_entries(b, body, n) matches Some((es, _)) ==> es.len() == n,
    decreases n,
{
    if n > 0 {
        entries_counted(b, body, (n - 1) as nat);
    }
}

/// Law: a file that is read as an index begins with `DIRC` and version 2, ends
/// in the digest of what stands before it, and has as many entries as it says,
/// in order.
pub proof fn law_index_contents(b: Seq<u8>)
    requires
        index_contents(b) is Ok,
    ensures
        b.len() >= 32,
        b.take(4) == seq![68u8, 73u8, 82u8, 67u8],
        be_value(b.subrange(4, 8)) == 2,
        b.skip(b.len() - 20) == sha1_digest(b.take(b.len() - 20)),
        index_contents(b)->Ok_0.entries.len() == be_value(b.subrange(8, 12)),
        entries_stand(index_contents(b)->Ok_0.entries),
{
    reveal_strlit("DIRC");
    assert(ascii("DIRC"@) =~= seq![68u8, 73u8, 82u8, 67u8]);
    let n = be_value(b.subrange(8, 12));
    entries_counted(b, b.len() - 20, n);
    let es = (read_entries(b, b.len() - 20, n)->0).0;
    law_in_order(es);
}

// ---------------------------------------------------------------------
// Order
// ---------------------------------------------------------------------

/// Whether `a` may stand before `b`: its path is less, or the paths are equal
/// and its stage is not greater.
pub open spec fn may_stand(a: IndexEntryView, b: IndexEntryView) -> bool {
    lex_lt(a.path, b.path) || (a.path == b.path && a.stage <= b.stage)
}

/// Whether the entries stand in order.
pub open spec fn entries_stand(es: Seq<IndexEntryView>) -> bool {
    forall|i: int, j: int| 0 <= i < j < es.len() ==> may_stand(#[trigger] es[i], #[trigger] es[j])
}

/// Standing before goes on.
proof fn stands_on(a: IndexEntryView, b: IndexEntryView, c: IndexEntryView)
    requires
        may_stand(a, b),
        may_stand(b, c),
    ensures
        may_stand(a, c),
{
    if lex_lt(a.path, b.path) && lex_lt(b.path, c.path) {
        lex_lt_transitive(a.path, b.path, c.path);
    }
}

/// One of two may stand before the other.
proof fn stands_either(a: IndexEntryView, b: IndexEntryView)
    ensures
        super::entry_lt(a, b) ==> may_stand(a, b),
        !super::entry_lt(a, b) ==> may_stand(b, a),
{
    lex_lt_total(a.path, b.path);
}

/// An entry that is put in its place.
proof fn insert_stands(es: Seq<IndexEntryView>, e: IndexEntryView)
    requires
        entries_stand(es),
    ensures
        entries_stand(insert_ordered(es, e)),
        insert_ordered(es, e).to_multiset() == es.to_multiset().insert(e),
        insert_ordered(es, e).len() == es.len() + 1,
        forall|x: IndexEntryView| #[trigger]
            insert_ordered(es, e).contains(x) ==> x == e || es.contains(x),
    decreases es.len(),
{
    broadcast use vstd::seq_lib::group_to_multiset_ensures;

    let r = insert_ordered(es, e);
    if es.len() == 0 || !super::entry_lt(e, es.last()) {
        assert forall|i: int, j: int| 0 <= i < j < r.len() implies may_stand(
            #[trigger] r[i],
            #[trigger] r[j],
        ) by {
            if j == es.len() {
                stands_either(e, es.last());
                if i < es.len() - 1 {
                    assert(may_stand(es[i], es[es.len() - 1]));
                    stands_on(es[i], es.last(), e);
                }
            }
        }
        assert forall|x: IndexEntryView| #[trigger] r.contains(x) implies x == e || es.contains(
            x,
        ) by {
            let i = choose|i: int| 0 <= i < r.len() && r[i] == x;
            if i < es.len() {
                assert(es[i] == x);
            }
        }
    } else {
        let t = es.drop_last();
        let last = es.last();
        insert_stands(t, e);
        let u = insert_ordered(t, e);
        stands_either(e, last);
        assert forall|i: int, j: int| 0 <= i < j < r.len() implies may_stand(
            #[trigger] r[i],
            #[trigger] r[j],
        ) by {
            if j == u.len() {
                assert(u.contains(u[i]));
                if u[i] != e {
                    let k = choose|k: int| 0 <= k < t.len() && t[k] == u[i];
                    assert(may_stand(es[k], es[es.len() - 1]));
                }
            } else {
                assert(may_stand(u[i], u[j]));
            }
        }
        assert forall|x: IndexEntryView| #[trigger] r.contains(x) implies x == e || es.contains(
            x,
        ) by {
            let i = choose|i: int| 0 <= i < r.len() && r[i] == x;
            if i < u.len() {
                assert(u.contains(u[i]));
                if x != e {
                    let k = choose|k: int| 0 <= k < t.len() && t[k] == x;
                    assert(es[k] == x);
                }
            } else {
                assert(es[es.len() - 1] == x);
            }
        }
        assert(t.push(last) =~= es);
        assert(r.to_multiset() =~= es.to_multiset().insert(e));
    }
}

/// Law: putting entries in order keeps each of them, and afterwards they stand
/// by path and stage.
pub proof fn law_in_order(es: Seq<IndexEntryView>)
    ensures
        in_order(es).to_multiset() == es.to_multiset(),
        in_order(es).len() == es.len(),
        entries_stand(in_order(es)),
    decreases es.len(),
{
    broadcast use vstd::seq_lib::group_to_multiset_ensures;

    if es.len() > 0 {
        law_in_order(es.drop_last());
        insert_stands(in_order(es.drop_last()), es.last());
        assert(es.drop_last().push(es.last()) =~= es);
    }
}

/// Law: what counts as ordered is just what stands by path and stage.
pub proof fn law_ordered(es: Seq<IndexEntryView>)
    ensures
        ordered(es) <==> entries_stand(es),
{
    if ordered(es) {
        assert forall|i: int, j: int| 0 <= i < j < es.len() implies may_stand(
            #[trigger] es[i],
            #[trigger] es[j],
        ) by {
            assert(!super::entry_lt(es[j], es[i]));
            stands_either(es[j], es[i]);
        }
    }
    if entries_stand(es) {
        assert forall|i: int, j: int| 0 <= i < j < es.len() implies !super::entry_lt(
            #[trigger] es[j],
            #[trigger] es[i],
        ) by {
            assert(may_stand(es[i], es[j]));
            if super::entry_lt(es[j], es[i]) {
                crate::bytes::lex_lt_irreflexive(es[i].path);
                if lex_lt(es[i].path, es[j].path) && lex_lt(es[j].path, es[i].path) {
                    lex_lt_transitive(es[i].path, es[j].path, es[i].path);
                }
            }
        }
    }
}

// ---------------------------------------------------------------------
// Lookup
// ---------------------------------------------------------------------

/// Law: looking up a path gives a resolved entry with that path if there is
/// one, and nothing else.
pub proof fn law_staged(es: Seq<IndexEntryView>, path: Seq<u8>)
    ensures
        match staged(es, path) {
            Some(e) => es.contains(e) && e.path == path && e.stage == 0,
            None => forall|i: int|
                0 <= i < es.len() ==> !((#[trigger] es[i]).path == path && es[i].stage == 0),
        },
    decreases es.len(),
{
    if es.len() > 0 {
        let t = es.drop_first();
        law_staged(t, path);
        if es[0].path == path && es[0].stage == 0 {
            assert(es.contains(es[0]));
        } else {
            match staged(t, path) {
                Some(e) => {
                    let i = choose|i: int| 0 <= i < t.len() && t[i] == e;
                    assert(es[i + 1] == e);
                },
                None => {
                    assert forall|i: int| 0 <= i < es.len() implies !((#[trigger] es[i]).path
                        == path && es[i].stage == 0) by {
                        if i > 0 {
                            assert(es[i] == t[i - 1]);
                        }
                    }
                },
            }
        }
    }
}

/// Law: a repository without an index file has an empty index, and one with an
/// index file what the file says.
pub proof fn law_index_of(git: DirView<Seq<u8>>)
    ensures
        ({
            let name = seq![105u8, 110u8, 100u8, 101u8, 120u8];
            &&& git.read(name) == Err::<Seq<u8>, _>(IoError::NotFound) ==> index_of(git) == Ok::<
                _,
                IndexErrorView,
            >(IndexView { entries: Seq::empty(), extensions: Seq::empty() })
            &&& git.read(name) matches Ok(b) ==> index_of(git) == index_contents(b)
        }),
{
    reveal_strlit("index");
    assert(ascii("index"@) =~= seq![105u8, 110u8, 100u8, 101u8, 120u8]);
}

} // verus!
