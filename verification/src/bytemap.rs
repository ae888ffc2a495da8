//! A map with byte-string keys, kept in key order.

use vstd::prelude::*;

use crate::bytes::{
    bytes_lt, lex_lt, lex_lt_irreflexive, lex_lt_total, lex_lt_transitive, same_bytes, to_vec,
};

verus! {

/// A map from byte strings.
#[derive(Debug)]
#[verifier::reject_recursive_types(V)]
pub struct ByteMap<V: View> {
    entries: Vec<(Vec<u8>, V)>,
}

/// The keys stand in strictly ascending order.
pub open spec fn ascending<V: View>(entries: Seq<(Vec<u8>, V)>) -> bool {
    forall|i: int, j: int|
        0 <= i < j < entries.len() ==> lex_lt((#[trigger] entries[i]).0@, (#[trigger] entries[j]).0@)
}

/// Whether `s` lists the byte strings of a set in ascending order, each
/// once.
pub open spec fn lists_keys(s: Seq<Seq<u8>>, d: Set<Seq<u8>>) -> bool {
    &&& forall|k: Seq<u8>| #[trigger] d.contains(k) <==> s.contains(k)
    &&& forall|i: int, j: int| 0 <= i < j < s.len() ==> lex_lt(#[trigger] s[i], #[trigger] s[j])
}

/// The byte strings of a finite set in ascending order.
pub open spec fn sorted_keys(d: Set<Seq<u8>>) -> Seq<Seq<u8>> {
    choose|s: Seq<Seq<u8>>| lists_keys(s, d)
}

/// Two ascending lists of the same set are equal.
proof fn sorted_unique(a: Seq<Seq<u8>>, b: Seq<Seq<u8>>, d: Set<Seq<u8>>)
    requires
        lists_keys(a, d),
        lists_keys(b, d),
    ensures
        a == b,
    decreases a.len(),
{
    if a.len() == 0 {
        if b.len() > 0 {
            assert(b.contains(b[0]));
            assert(d.contains(b[0]));
            assert(a.contains(b[0]));
        }
        assert(a =~= b);
    } else {
        let x = a.last();
        assert(a.contains(a[a.len() - 1]));
        assert(d.contains(x));
        assert(b.contains(x));
        let y = b.last();
        assert(b.contains(b[b.len() - 1]));
        assert(d.contains(y));
        assert(a.contains(y));
        let i = choose|i: int| 0 <= i < a.len() && a[i] == y;
        let j = choose|j: int| 0 <= j < b.len() && b[j] == x;
        if x != y {
            assert(lex_lt(a[i], a[a.len() - 1]));
            assert(lex_lt(b[j], b[b.len() - 1]));
            lex_lt_transitive(x, y, x);
            lex_lt_irreflexive(x);
        }
        let d1 = d.remove(x);
        dropped_lists(a, d);
        dropped_lists(b, d);
        sorted_unique(a.drop_last(), b.drop_last(), d1);
        assert(a =~= a.drop_last().push(x));
        assert(b =~= b.drop_last().push(x));
    }
}

/// A list without its last key lists the set without that key.
proof fn dropped_lists(a: Seq<Seq<u8>>, d: Set<Seq<u8>>)
    requires
        lists_keys(a, d),
        a.len() > 0,
    ensures
        lists_keys(a.drop_last(), d.remove(a.last())),
{
    let t = a.drop_last();
    let d1 = d.remove(a.last());
    assert forall|k: Seq<u8>| #[trigger] d1.contains(k) <==> t.contains(k) by {
        if d1.contains(k) {
            assert(a.contains(k));
            let i = choose|i: int| 0 <= i < a.len() && a[i] == k;
            assert(t[i] == k);
        }
        if t.contains(k) {
            let i = choose|i: int| 0 <= i < t.len() && t[i] == k;
            assert(a[i] == k);
            assert(a.contains(k));
            assert(lex_lt(a[i], a[a.len() - 1]));
            lex_lt_irreflexive(k);
        }
    }
    assert forall|i: int, j: int| 0 <= i < j < t.len() implies lex_lt(
        #[trigger] t[i],
        #[trigger] t[j],
    ) by {
        assert(lex_lt(a[i], a[j]));
    }
}

/// The ascending list of a set is the only one.
pub proof fn sorted_keys_is(s: Seq<Seq<u8>>, d: Set<Seq<u8>>)
    requires
        lists_keys(s, d),
    ensures
        sorted_keys(d) == s,
{
    sorted_unique(s, sorted_keys(d), d);
}

/// A key put into its place among ascending ones.
spec fn insert_key(s: Seq<Seq<u8>>, x: Seq<u8>) -> Seq<Seq<u8>>
    decreases s.len(),
{
    if s.len() == 0 || lex_lt(s.last(), x) {
        s.push(x)
    } else {
        insert_key(s.drop_last(), x).push(s.last())
    }
}

/// The keys stay ascending.
proof fn insert_key_lists(s: Seq<Seq<u8>>, x: Seq<u8>, d: Set<Seq<u8>>)
    requires
        lists_keys(s, d),
        !d.contains(x),
    ensures
        lists_keys(insert_key(s, x), d.insert(x)),
    decreases s.len(),
{
    let r = insert_key(s, x);
    if s.len() == 0 || lex_lt(s.last(), x) {
        assert forall|k: Seq<u8>| #[trigger] d.insert(x).contains(k) <==> r.contains(k) by {
            if d.contains(k) {
                let i = choose|i: int| 0 <= i < s.len() && s[i] == k;
                assert(r[i] == k);
            }
            assert(r[s.len() as int] == x);
            if r.contains(k) {
                let i = choose|i: int| 0 <= i < r.len() && r[i] == k;
                if i < s.len() {
                    assert(s[i] == k);
                    assert(s.contains(k));
                }
            }
        }
        assert forall|i: int, j: int| 0 <= i < j < r.len() implies lex_lt(
            #[trigger] r[i],
            #[trigger] r[j],
        ) by {
            if j < s.len() {
                assert(lex_lt(s[i], s[j]));
            } else if i < s.len() - 1 {
                assert(lex_lt(s[i], s[s.len() - 1]));
                lex_lt_transitive(s[i], s.last(), x);
            }
        }
    } else {
        let t = s.drop_last();
        let last = s.last();
        let e = d.remove(last);
        assert(s.contains(s[s.len() - 1]));
        assert(d.contains(last));
        assert(lists_keys(t, e)) by {
            assert forall|k: Seq<u8>| #[trigger] e.contains(k) <==> t.contains(k) by {
                if e.contains(k) {
                    let i = choose|i: int| 0 <= i < s.len() && s[i] == k;
                    assert(t[i] == k);
                }
                if t.contains(k) {
                    let i = choose|i: int| 0 <= i < t.len() && t[i] == k;
                    assert(s[i] == k);
                    assert(s.contains(k));
                    assert(lex_lt(s[i], s[s.len() - 1]));
                    lex_lt_irreflexive(k);
                }
            }
            assert forall|i: int, j: int| 0 <= i < j < t.len() implies lex_lt(
                #[trigger] t[i],
                #[trigger] t[j],
            ) by {
                assert(lex_lt(s[i], s[j]));
            }
        }
        insert_key_lists(t, x, e);
        let q = insert_key(t, x);
        lex_lt_total(last, x);
        assert(lex_lt(x, last));
        assert forall|k: Seq<u8>| #[trigger] d.insert(x).contains(k) <==> r.contains(k) by {
            assert(e.insert(x).contains(k) <==> q.contains(k));
            assert(r[q.len() as int] == last);
            if q.contains(k) {
                let i = choose|i: int| 0 <= i < q.len() && q[i] == k;
                assert(r[i] == k);
            }
            if r.contains(k) {
                let i = choose|i: int| 0 <= i < r.len() && r[i] == k;
                if i < q.len() {
                    assert(q[i] == k);
                    assert(q.contains(k));
                }
            }
        }
        assert forall|i: int, j: int| 0 <= i < j < r.len() implies lex_lt(
            #[trigger] r[i],
            #[trigger] r[j],
        ) by {
            if j < q.len() {
                assert(lex_lt(q[i], q[j]));
            } else {
                assert(q.contains(q[i]));
                assert(e.insert(x).contains(q[i]));
                if q[i] != x {
                    assert(t.contains(q[i]));
                    let a = choose|a: int| 0 <= a < t.len() && t[a] == q[i];
                    assert(lex_lt(s[a], s[s.len() - 1]));
                }
            }
        }
    }
}

/// A list of a set's byte strings is as long as the set.
pub proof fn lists_keys_len(s: Seq<Seq<u8>>, d: Set<Seq<u8>>)
    requires
        lists_keys(s, d),
    ensures
        d.finite(),
        s.len() == d.len(),
    decreases s.len(),
{
    if s.len() == 0 {
        assert(d =~= Set::empty()) by {
            assert forall|k: Seq<u8>| !d.contains(k) by {
                assert(d.contains(k) <==> s.contains(k));
            }
        }
    } else {
        let x = s.last();
        let t = s.drop_last();
        let e = d.remove(x);
        assert(s.contains(s[s.len() - 1]));
        assert forall|k: Seq<u8>| #[trigger] e.contains(k) <==> t.contains(k) by {
            if t.contains(k) {
                let i = choose|i: int| 0 <= i < t.len() && t[i] == k;
                assert(s[i] == k);
                assert(s.contains(k));
                assert(lex_lt(s[i], s[s.len() - 1]));
                lex_lt_irreflexive(x);
            }
            if e.contains(k) {
                assert(s.contains(k));
                let i = choose|i: int| 0 <= i < s.len() && s[i] == k;
                assert(t[i] == k);
            }
        }
        lists_keys_len(t, e);
        assert(d =~= e.insert(x));
    }
}

/// The keys of a finite set can be listed in ascending order.
pub proof fn sorted_keys_lists(d: Set<Seq<u8>>)
    requires
        d.finite(),
    ensures
        lists_keys(sorted_keys(d), d),
    decreases d.len(),
{
    if d.len() == 0 {
        assert(lists_keys(Seq::empty(), d));
    } else {
        let x = d.choose();
        let e = d.remove(x);
        sorted_keys_lists(e);
        insert_key_lists(sorted_keys(e), x, e);
        assert(e.insert(x) =~= d);
        assert(lists_keys(insert_key(sorted_keys(e), x), d));
    }
}

/// The map of a list.
pub open spec fn entries_map<V: View>(entries: Seq<(Vec<u8>, V)>) -> Map<Seq<u8>, V::V>
    decreases entries.len(),
{
    if entries.len() == 0 {
        Map::empty()
    } else {
        entries_map(entries.drop_last()).insert(entries.last().0@, entries.last().1@)
    }
}

/// Which keys a list has, and that each leads to its value.
proof fn entries_map_spec<V: View>(entries: Seq<(Vec<u8>, V)>)
    requires
        ascending(entries),
    ensures
        forall|p: Seq<u8>| #[trigger]
            entries_map(entries).contains_key(p) <==> exists|i: int|
                0 <= i < entries.len() && (#[trigger] entries[i]).0@ == p,
        forall|i: int|
            0 <= i < entries.len() ==> entries_map(entries)[(#[trigger] entries[i]).0@]
                == entries[i].1@,
        entries_map(entries).dom().finite(),
        entries_map(entries).len() == entries.len(),
    decreases entries.len(),
{
    if entries.len() > 0 {
        let t = entries.drop_last();
        let last = entries.last();
        assert(ascending(t)) by {
            assert forall|i: int, j: int| 0 <= i < j < t.len() implies lex_lt(
                (#[trigger] t[i]).0@,
                (#[trigger] t[j]).0@,
            ) by {
                assert(entries[i] == t[i] && entries[j] == t[j]);
            }
        }
        entries_map_spec(t);
        let m = entries_map(entries);
        assert(!entries_map(t).contains_key(last.0@)) by {
            if entries_map(t).contains_key(last.0@) {
                let i = choose|i: int| 0 <= i < t.len() && (#[trigger] t[i]).0@ == last.0@;
                assert(lex_lt(entries[i].0@, entries[entries.len() - 1].0@));
                lex_lt_irreflexive(last.0@);
            }
        }
        assert forall|p: Seq<u8>| #[trigger] m.contains_key(p) <==> exists|i: int|
            0 <= i < entries.len() && (#[trigger] entries[i]).0@ == p by {
            if m.contains_key(p) {
                if p == last.0@ {
                    assert(entries[entries.len() - 1].0@ == p);
                } else {
                    assert(entries_map(t).contains_key(p));
                    let i = choose|i: int| 0 <= i < t.len() && (#[trigger] t[i]).0@ == p;
                    assert(entries[i].0@ == p);
                }
            }
            if exists|i: int| 0 <= i < entries.len() && (#[trigger] entries[i]).0@ == p {
                let i = choose|i: int| 0 <= i < entries.len() && (#[trigger] entries[i]).0@ == p;
                if i < t.len() {
                    assert(t[i].0@ == p);
                    assert(entries_map(t).contains_key(p));
                }
            }
        }
        assert forall|i: int| 0 <= i < entries.len() implies m[(#[trigger] entries[i]).0@]
            == entries[i].1@ by {
            if i < t.len() {
                assert(t[i] == entries[i]);
                assert(entries_map(t).contains_key(t[i].0@));
            }
        }
    }
}

/// The map of a list is the map with its keys and values.
proof fn entries_map_is<V: View>(entries: Seq<(Vec<u8>, V)>, m: Map<Seq<u8>, V::V>)
    requires
        ascending(entries),
        forall|p: Seq<u8>| #[trigger]
            m.contains_key(p) <==> exists|i: int|
                0 <= i < entries.len() && (#[trigger] entries[i]).0@ == p,
        forall|i: int|
            0 <= i < entries.len() ==> m[(#[trigger] entries[i]).0@] == entries[i].1@,
    ensures
        entries_map(entries) == m,
{
    entries_map_spec(entries);
    let f = entries_map(entries);
    assert forall|p: Seq<u8>| #[trigger] f.contains_key(p) == m.contains_key(p) by {}
    assert forall|p: Seq<u8>| f.contains_key(p) implies #[trigger] f[p] == m[p] by {
        let i = choose|i: int| 0 <= i < entries.len() && (#[trigger] entries[i]).0@ == p;
        assert(f[entries[i].0@] == m[entries[i].0@]);
    }
    assert(f =~= m);
}

impl<V: View> View for ByteMap<V> {
    type V = Map<Seq<u8>, V::V>;

    closed spec fn view(&self) -> Map<Seq<u8>, V::V> {
        entries_map(self.entries@)
    }
}

impl<V: View> ByteMap<V> {
    #[verifier::type_invariant]
    closed spec fn inv(&self) -> bool {
        ascending(self.entries@)
    }

    /// The keys in ascending order.
    pub closed spec fn keys(&self) -> Seq<Seq<u8>> {
        self.entries@.map_values(|e: (Vec<u8>, V)| e.0@)
    }

    /// An empty map.
    pub fn new() -> (r: ByteMap<V>)
        ensures
            r@ == Map::<Seq<u8>, V::V>::empty(),
    {
        ByteMap { entries: Vec::new() }
    }

    /// Where the key stands or belongs: the first position whose key does
    /// not come before it.
    fn locate(&self, key: &[u8]) -> (r: usize)
        ensures
            r <= self.entries@.len(),
            forall|i: int| 0 <= i < r ==> lex_lt((#[trigger] self.entries@[i]).0@, key@),
            forall|i: int|
                r <= i < self.entries@.len() ==> !lex_lt((#[trigger] self.entries@[i]).0@, key@),
    {
        proof {
            use_type_invariant(self);
        }
        let mut lo: usize = 0;
        let mut hi: usize = self.entries.len();
        while lo < hi
            invariant
                lo <= hi <= self.entries@.len(),
                ascending(self.entries@),
                forall|i: int| 0 <= i < lo ==> lex_lt((#[trigger] self.entries@[i]).0@, key@),
                forall|i: int|
                    hi <= i < self.entries@.len() ==> !lex_lt(
                        (#[trigger] self.entries@[i]).0@,
                        key@,
                    ),
            decreases hi - lo,
        {
            let mid: usize = lo + (hi - lo) / 2;
            if bytes_lt(&self.entries[mid].0, key) {
                proof {
                    assert forall|i: int| 0 <= i < mid + 1 implies lex_lt(
                        (#[trigger] self.entries@[i]).0@,
                        key@,
                    ) by {
                        if i < mid {
                            lex_lt_transitive(
                                self.entries@[i].0@,
                                self.entries@[mid as int].0@,
                                key@,
                            );
                        }
                    }
                }
                lo = mid + 1;
            } else {
                proof {
                    assert forall|i: int| mid <= i < self.entries@.len() implies !lex_lt(
                        (#[trigger] self.entries@[i]).0@,
                        key@,
                    ) by {
                        if mid < i && lex_lt(self.entries@[i].0@, key@) {
                            lex_lt_transitive(
                                self.entries@[mid as int].0@,
                                self.entries@[i].0@,
                                key@,
                            );
                        }
                    }
                }
                hi = mid;
            }
        }
        lo
    }

    /// If the key is there, it stands where it is looked for.
    proof fn located(entries: Seq<(Vec<u8>, V)>, key: Seq<u8>, at: int)
        requires
            ascending(entries),
            0 <= at <= entries.len(),
            forall|i: int| 0 <= i < at ==> lex_lt((#[trigger] entries[i]).0@, key),
            forall|i: int| at <= i < entries.len() ==> !lex_lt((#[trigger] entries[i]).0@, key),
        ensures
            entries_map(entries).contains_key(key) <==> at < entries.len() && entries[at].0@ == key,
            forall|i: int|
                #![trigger entries[i]]
                0 <= i < entries.len() && entries[i].0@ == key ==> i == at,
            forall|i: int|
                #![trigger entries[i]]
                at <= i < entries.len() && !(i == at && entries[i].0@ == key) ==> lex_lt(
                    key,
                    entries[i].0@,
                ),
    {
        entries_map_spec(entries);
        lex_lt_irreflexive(key);
        assert forall|i: int|
            #![trigger entries[i]]
            at <= i < entries.len() && !(i == at && entries[i].0@ == key) implies lex_lt(
            key,
            entries[i].0@,
        ) by {
            lex_lt_total(key, entries[i].0@);
            if entries[i].0@ == key {
                assert(lex_lt(entries[at].0@, entries[i].0@));
            }
        }
        assert forall|i: int|
            #![trigger entries[i]]
            0 <= i < entries.len() && entries[i].0@ == key implies i == at by {
            if i > at {
                assert(lex_lt(entries[at].0@, entries[i].0@));
            }
        }
    }

    /// The value of a key.
    pub fn get(&self, key: &[u8]) -> (r: Option<&V>)
        ensures
            match r {
                Some(c) => self@.contains_key(key@) && c@ == self@[key@],
                None => !self@.contains_key(key@),
            },
    {
        let at = self.locate(key);
        proof {
            use_type_invariant(self);
            ByteMap::<V>::located(self.entries@, key@, at as int);
            entries_map_spec(self.entries@);
        }
        if at < self.entries.len() && same_bytes(&self.entries[at].0, key) {
            Some(&self.entries[at].1)
        } else {
            None
        }
    }

    /// Whether the key is there.
    pub fn has(&self, key: &[u8]) -> (r: bool)
        ensures
            r <==> self@.contains_key(key@),
    {
        self.get(key).is_some()
    }

    /// Sets the value of a key.
    pub fn put(&mut self, key: &[u8], value: V)
        ensures
            final(self)@ == old(self)@.insert(key@, value@),
    {
        let at: usize = self.locate(key);
        let ghost before = self.entries@;
        let ghost written = value@;
        proof {
            use_type_invariant(&*self);
            ByteMap::<V>::located(before, key@, at as int);
            entries_map_spec(before);
        }
        let taken = at < self.entries.len() && same_bytes(&self.entries[at].0, key);
        let mut entries: Vec<(Vec<u8>, V)> = Vec::new();
        std::mem::swap(&mut self.entries, &mut entries);
        if taken {
            entries.remove(at);
        }
        let ghost rest = entries@;
        entries.insert(at, (to_vec(key), value));
        proof {
            let after = entries@;
            let gap: int = if taken { 1 } else { 0 };
            assert forall|i: int| 0 <= i < after.len() && i != at implies after[i] == before[if i < at { i } else { i - 1 + gap }] by {}
            assert(after[at as int].0@ == key@);
            assert(ascending(after)) by {
                assert forall|i: int, j: int| 0 <= i < j < after.len() implies lex_lt(
                    (#[trigger] after[i]).0@,
                    (#[trigger] after[j]).0@,
                ) by {
                    let a = if i < at { i } else { i - 1 + gap };
                    let b = if j < at { j } else { j - 1 + gap };
                    if i == at {
                        assert(after[j] == before[b]);
                    } else if j == at {
                        assert(after[i] == before[a]);
                    } else {
                        assert(after[i] == before[a] && after[j] == before[b]);
                    }
                }
            }
            let m = entries_map(before).insert(key@, written);
            assert forall|p: Seq<u8>| #[trigger] m.contains_key(p) <==> exists|i: int|
                0 <= i < after.len() && (#[trigger] after[i]).0@ == p by {
                if m.contains_key(p) {
                    if p == key@ {
                        assert(after[at as int].0@ == p);
                    } else {
                        assert(entries_map(before).contains_key(p));
                        let i = choose|i: int| 0 <= i < before.len() && (#[trigger] before[i]).0@ == p;
                        let k = if i < at { i } else { i + 1 - gap };
                        assert(after[k].0@ == p);
                    }
                }
                if exists|i: int| 0 <= i < after.len() && (#[trigger] after[i]).0@ == p {
                    let i = choose|i: int| 0 <= i < after.len() && (#[trigger] after[i]).0@ == p;
                    if i != at {
                        let a = if i < at { i } else { i - 1 + gap };
                        assert(before[a].0@ == p);
                        assert(entries_map(before).contains_key(p));
                    }
                }
            }
            assert forall|i: int| 0 <= i < after.len() implies m[(#[trigger] after[i]).0@] == after[i].1@ by {
                if i != at {
                    let a = if i < at { i } else { i - 1 + gap };
                    assert(after[i] == before[a]);
                    assert(before[a].0@ != key@);
                }
            }
            entries_map_is(after, m);
        }
        *self = ByteMap { entries };
    }

    /// Takes a key out, and says whether it was there.
    pub fn delete(&mut self, key: &[u8]) -> (r: bool)
        ensures
            r <==> old(self)@.contains_key(key@),
            final(self)@ == old(self)@.remove(key@),
    {
        let at: usize = self.locate(key);
        let ghost before = self.entries@;
        proof {
            use_type_invariant(&*self);
            ByteMap::<V>::located(before, key@, at as int);
            entries_map_spec(before);
        }
        if !(at < self.entries.len() && same_bytes(&self.entries[at].0, key)) {
            assert(before == self.entries@);
            assert(entries_map(before).remove(key@) =~= entries_map(before));
            return false;
        }
        let mut entries: Vec<(Vec<u8>, V)> = Vec::new();
        std::mem::swap(&mut self.entries, &mut entries);
        entries.remove(at);
        proof {
            let after = entries@;
            assert(ascending(after)) by {
                assert forall|i: int, j: int| 0 <= i < j < after.len() implies lex_lt(
                    (#[trigger] after[i]).0@,
                    (#[trigger] after[j]).0@,
                ) by {
                    assert(after[i] == before[if i < at { i } else { i + 1 }]);
                    assert(after[j] == before[if j < at { j } else { j + 1 }]);
                }
            }
            let m = entries_map(before).remove(key@);
            assert forall|p: Seq<u8>| #[trigger] m.contains_key(p) <==> exists|i: int|
                0 <= i < after.len() && (#[trigger] after[i]).0@ == p by {
                if m.contains_key(p) {
                    assert(entries_map(before).contains_key(p));
                    let i = choose|i: int| 0 <= i < before.len() && (#[trigger] before[i]).0@ == p;
                    let k = if i < at { i } else { i - 1 };
                    assert(after[k].0@ == p);
                }
                if exists|i: int| 0 <= i < after.len() && (#[trigger] after[i]).0@ == p {
                    let i = choose|i: int| 0 <= i < after.len() && (#[trigger] after[i]).0@ == p;
                    let a = if i < at { i } else { i + 1 };
                    assert(before[a].0@ == p);
                    assert(entries_map(before).contains_key(p));
                }
            }
            assert forall|i: int| 0 <= i < after.len() implies m[(#[trigger] after[i]).0@] == after[i].1@ by {
                let a = if i < at { i } else { i + 1 };
                assert(after[i] == before[a]);
                assert(before[a].0@ != key@);
            }
            entries_map_is(after, m);
        }
        *self = ByteMap { entries };
        true
    }

    /// The `i`-th key in ascending order.
    pub fn key(&self, i: usize) -> (r: &Vec<u8>)
        requires
            i < self.keys().len(),
        ensures
            r@ == self.keys()[i as int],
    {
        &self.entries[i].0
    }

    /// The value of the `i`-th key in ascending order.
    pub fn value(&self, i: usize) -> (r: &V)
        requires
            i < self.keys().len(),
        ensures
            self@.contains_key(self.keys()[i as int]),
            r@ == self@[self.keys()[i as int]],
    {
        proof {
            use_type_invariant(self);
            entries_map_spec(self.entries@);
            assert(self.entries@[i as int].0@ == self.keys()[i as int]);
        }
        &self.entries[i].1
    }

    /// How many keys there are. [`Self::keys`] lists them.
    pub fn count(&self) -> (r: usize)
        ensures
            r == self.keys().len(),
            self.keys() == sorted_keys(self@.dom()),
            lists_keys(self.keys(), self@.dom()),
            self@.dom().finite(),
            self@.len() == self.keys().len(),
    {
        proof {
            use_type_invariant(self);
            entries_map_spec(self.entries@);
            let e = self.entries@;
            assert forall|p: Seq<u8>| #[trigger] self@.contains_key(p) <==> self.keys().contains(
                p,
            ) by {
                if self@.contains_key(p) {
                    let i = choose|i: int| 0 <= i < e.len() && (#[trigger] e[i]).0@ == p;
                    assert(self.keys()[i] == p);
                }
                if self.keys().contains(p) {
                    let i = choose|i: int| 0 <= i < self.keys().len() && self.keys()[i] == p;
                    assert(e[i].0@ == p);
                }
            }
            assert forall|i: int, j: int| 0 <= i < j < self.keys().len() implies lex_lt(
                #[trigger] self.keys()[i],
                #[trigger] self.keys()[j],
            ) by {
                assert(lex_lt(e[i].0@, e[j].0@));
            }
            assert forall|p: Seq<u8>| #[trigger] self@.dom().contains(p) <==> self.keys().contains(
                p,
            ) by {
                assert(self@.contains_key(p) <==> self.keys().contains(p));
            }
            sorted_keys_is(self.keys(), self@.dom());
        }
        self.entries.len()
    }
}

} // verus!
