//! The index: the staging area between working tree and next commit, in
//! format version 2.

use vstd::prelude::*;
use vstd::utf8::encode_utf8;

use crate::bytes::{
    bytes_lt, lex_lt, lex_lt_irreflexive, lex_lt_total, lex_lt_transitive, same_bytes, to_vec,
};
use crate::files::IoError;
use crate::notation::{lossy_string, text_of};
use crate::object::ObjectId;

pub mod format;
pub mod laws;
pub mod layout;
pub mod store;

verus! {

/// A time stamp: seconds and nanoseconds since the epoch.
#[derive(Debug, Clone, Copy, PartialEq, Eq, Structural)]
pub struct Time {
    pub secs: u32,
    pub nanos: u32,
}

impl Default for Time {
    fn default() -> (r: Time)
        ensures
            r.secs == 0 && r.nanos == 0,
    {
        Time { secs: 0, nanos: 0 }
    }
}

/// One staged path: its metadata and the id of its content.
#[derive(Debug, Clone, PartialEq, Eq)]
pub struct IndexEntry {
    pub ctime: Time,
    pub mtime: Time,
    pub dev: u32,
    pub ino: u32,
    pub mode: u32,
    pub uid: u32,
    pub gid: u32,
    pub size: u32,
    pub id: ObjectId,
    pub assume_valid: bool,
    pub stage: u8,
    pub path: Vec<u8>,
}

/// What an index entry holds.
pub struct IndexEntryView {
    pub ctime: Time,
    pub mtime: Time,
    pub dev: u32,
    pub ino: u32,
    pub mode: u32,
    pub uid: u32,
    pub gid: u32,
    pub size: u32,
    pub id: Seq<u8>,
    pub assume_valid: bool,
    pub stage: u8,
    pub path: Seq<u8>,
}

impl View for IndexEntry {
    type V = IndexEntryView;

    open spec fn view(&self) -> IndexEntryView {
        IndexEntryView {
            ctime: self.ctime,
            mtime: self.mtime,
            dev: self.dev,
            ino: self.ino,
            mode: self.mode,
            uid: self.uid,
            gid: self.gid,
            size: self.size,
            id: self.id@,
            assume_valid: self.assume_valid,
            stage: self.stage,
            path: self.path@,
        }
    }
}

/// The index: staged entries in ascending order of path and stage, and
/// extension blocks that are kept as they were read.
#[derive(Debug)]
pub struct Index {
    entries: Vec<IndexEntry>,
    extensions: Vec<(Vec<u8>, Vec<u8>)>,
}

/// What an index holds: its entries, and the signatures and contents of its
/// extension blocks.
pub struct IndexView {
    pub entries: Seq<IndexEntryView>,
    pub extensions: Seq<(Seq<u8>, Seq<u8>)>,
}

/// What the entries of a list hold.
pub open spec fn entries_view(es: Seq<IndexEntry>) -> Seq<IndexEntryView> {
    es.map_values(|e: IndexEntry| e@)
}

/// What the extensions of a list hold.
pub open spec fn extensions_view(xs: Seq<(Vec<u8>, Vec<u8>)>) -> Seq<(Seq<u8>, Seq<u8>)> {
    xs.map_values(|x: (Vec<u8>, Vec<u8>)| (x.0@, x.1@))
}

impl View for Index {
    type V = IndexView;

    closed spec fn view(&self) -> IndexView {
        IndexView {
            entries: entries_view(self.entries@),
            extensions: extensions_view(self.extensions@),
        }
    }
}

/// Errors of the index module.
#[derive(Debug, Clone, PartialEq, Eq)]
pub enum IndexError {
    /// A file could not be read or written.
    Io(IoError),
    /// Not an index file: bad magic or version.
    BadHeader,
    /// The trailer is not the hash of what stands before it.
    BadTrailer,
    /// The header's count is not the number of entries.
    EntryCountMismatch { declared: u32, actual: usize },
    /// An entry or extension that cannot be read.
    MalformedEntry,
    /// The path is not in the index.
    PathNotFound(Vec<u8>),
}

/// What an [`IndexError`] says.
pub enum IndexErrorView {
    Io(IoError),
    BadHeader,
    BadTrailer,
    EntryCountMismatch(nat, nat),
    MalformedEntry,
    PathNotFound(Seq<u8>),
}

impl View for IndexError {
    type V = IndexErrorView;

    open spec fn view(&self) -> IndexErrorView {
        match self {
            IndexError::Io(e) => IndexErrorView::Io(*e),
            IndexError::BadHeader => IndexErrorView::BadHeader,
            IndexError::BadTrailer => IndexErrorView::BadTrailer,
            IndexError::EntryCountMismatch { declared, actual } => {
                IndexErrorView::EntryCountMismatch(*declared as nat, *actual as nat)
            },
            IndexError::MalformedEntry => IndexErrorView::MalformedEntry,
            IndexError::PathNotFound(p) => IndexErrorView::PathNotFound(p@),
        }
    }
}

// ---------------------------------------------------------------------
// Order
// ---------------------------------------------------------------------

/// `a` comes strictly before `b`: by path, then by stage.
pub open spec fn entry_lt(a: IndexEntryView, b: IndexEntryView) -> bool {
    lex_lt(a.path, b.path) || (a.path == b.path && a.stage < b.stage)
}

/// No entry comes before an earlier one.
pub open spec fn ordered(es: Seq<IndexEntryView>) -> bool {
    forall|i: int, j: int| 0 <= i < j < es.len() ==> !entry_lt(#[trigger] es[j], #[trigger] es[i])
}

/// `e` put behind the last entry that it does not come before.
pub open spec fn insert_ordered(es: Seq<IndexEntryView>, e: IndexEntryView) -> Seq<IndexEntryView>
    decreases es.len(),
{
    if es.len() == 0 || !entry_lt(e, es.last()) {
        es.push(e)
    } else {
        insert_ordered(es.drop_last(), e).push(es.last())
    }
}

/// The entries in order; equal ones stay in the order they had.
pub open spec fn in_order(es: Seq<IndexEntryView>) -> Seq<IndexEntryView>
    decreases es.len(),
{
    if es.len() == 0 {
        es
    } else {
        insert_ordered(in_order(es.drop_last()), es.last())
    }
}

/// The order is transitive where one step is strict.
proof fn entry_lt_step(a: IndexEntryView, b: IndexEntryView, c: IndexEntryView)
    requires
        entry_lt(a, b),
        !entry_lt(c, b),
    ensures
        entry_lt(a, c),
{
    lex_lt_total(b.path, c.path);
    if lex_lt(a.path, b.path) {
        if b.path != c.path {
            lex_lt_transitive(a.path, b.path, c.path);
        }
    }
}

/// No entry comes before itself, nor two before each other.
proof fn entry_lt_asymmetric(a: IndexEntryView, b: IndexEntryView)
    requires
        entry_lt(a, b),
    ensures
        !entry_lt(b, a),
{
    lex_lt_irreflexive(a.path);
    if lex_lt(a.path, b.path) && lex_lt(b.path, a.path) {
        lex_lt_transitive(a.path, b.path, a.path);
    }
}

/// Where [`insert_ordered`] puts the entry.
proof fn insert_ordered_at(es: Seq<IndexEntryView>, e: IndexEntryView, k: int)
    requires
        0 <= k <= es.len(),
        forall|j: int| k <= j < es.len() ==> entry_lt(e, #[trigger] es[j]),
        k > 0 ==> !entry_lt(e, es[k - 1]),
    ensures
        insert_ordered(es, e) == es.insert(k, e),
    decreases es.len(),
{
    if k == es.len() {
        assert(es.insert(k, e) =~= es.push(e));
    } else {
        assert(entry_lt(e, es[es.len() - 1]));
        let t = es.drop_last();
        assert forall|j: int| k <= j < t.len() implies entry_lt(e, #[trigger] t[j]) by {
            assert(t[j] == es[j]);
        }
        insert_ordered_at(t, e, k);
        assert(es.insert(k, e) =~= t.insert(k, e).push(es.last()));
    }
}

/// Insertion keeps the order.
proof fn insert_keeps_order(es: Seq<IndexEntryView>, e: IndexEntryView, k: int)
    requires
        ordered(es),
        0 <= k <= es.len(),
        forall|j: int| k <= j < es.len() ==> entry_lt(e, #[trigger] es[j]),
        k > 0 ==> !entry_lt(e, es[k - 1]),
    ensures
        ordered(es.insert(k, e)),
{
    let r = es.insert(k, e);
    assert forall|i: int, j: int| 0 <= i < j < r.len() implies !entry_lt(
        #[trigger] r[j],
        #[trigger] r[i],
    ) by {
        let a = if i < k {
            i
        } else {
            i - 1
        };
        let b = if j < k {
            j
        } else {
            j - 1
        };
        if i == k {
            assert(r[j] == es[b]);
            entry_lt_asymmetric(e, es[b]);
        } else if j == k {
            assert(r[i] == es[a]);
            if entry_lt(e, es[a]) && a < k - 1 {
                assert(!entry_lt(es[k - 1], es[a]));
                entry_lt_step(e, es[a], es[k - 1]);
            }
        } else {
            assert(r[i] == es[a] && r[j] == es[b]);
        }
    }
}

/// Entries in order stay as they are.
pub proof fn in_order_fixed(es: Seq<IndexEntryView>)
    requires
        ordered(es),
    ensures
        in_order(es) == es,
    decreases es.len(),
{
    if es.len() > 0 {
        let t = es.drop_last();
        assert forall|i: int, j: int| 0 <= i < j < t.len() implies !entry_lt(
            #[trigger] t[j],
            #[trigger] t[i],
        ) by {
            assert(t[i] == es[i] && t[j] == es[j]);
        }
        in_order_fixed(t);
        if t.len() > 0 {
            assert(!entry_lt(es[es.len() - 1], es[es.len() - 2]));
        }
        assert(es =~= t.push(es.last()));
    }
}

/// Whether one entry comes before another.
fn comes_before(a: &IndexEntry, b: &IndexEntry) -> (r: bool)
    ensures
        r <==> entry_lt(a@, b@),
{
    bytes_lt(&a.path, &b.path) || (same_bytes(&a.path, &b.path) && a.stage < b.stage)
}

/// Inserts an entry at its place.
fn insert_sorted(es: &mut Vec<IndexEntry>, e: IndexEntry)
    requires
        ordered(entries_view(old(es)@)),
    ensures
        entries_view(final(es)@) == insert_ordered(entries_view(old(es)@), e@),
        ordered(entries_view(final(es)@)),
{
    let ghost v = entries_view(es@);
    let mut k: usize = es.len();
    let mut go = k > 0;
    while go
        invariant
            k <= es@.len(),
            v == entries_view(es@),
            go ==> k > 0,
            !go && k > 0 ==> !entry_lt(e@, v[k - 1]),
            forall|j: int| k <= j < v.len() ==> entry_lt(e@, #[trigger] v[j]),
        decreases k, go as int,
    {
        assert(v[k - 1] == es@[k - 1]@);
        if comes_before(&e, &es[k - 1]) {
            k -= 1;
            go = k > 0;
        } else {
            go = false;
        }
    }
    let ghost ev = e@;
    proof {
        insert_ordered_at(v, ev, k as int);
        insert_keeps_order(v, ev, k as int);
    }
    es.insert(k, e);
    assert(entries_view(es@) =~= v.insert(k as int, ev));
}

// ---------------------------------------------------------------------
// The index in memory
// ---------------------------------------------------------------------

/// The first entry with the path and stage 0.
pub open spec fn staged(es: Seq<IndexEntryView>, path: Seq<u8>) -> Option<IndexEntryView>
    decreases es.len(),
{
    if es.len() == 0 {
        None
    } else if es[0].path == path && es[0].stage == 0 {
        Some(es[0])
    } else {
        staged(es.drop_first(), path)
    }
}

/// Whether an entry has to go when one with the given path and stage comes:
/// a resolved entry replaces every stage of its path, a conflict entry the
/// resolved one and its own stage.
pub open spec fn replaced(e: IndexEntryView, path: Seq<u8>, stage: u8) -> bool {
    e.path == path && (stage == 0 || e.stage == 0 || e.stage == stage)
}

/// The entries that stay.
pub open spec fn remaining(es: Seq<IndexEntryView>, path: Seq<u8>, stage: u8) -> Seq<IndexEntryView>
    decreases es.len(),
{
    if es.len() == 0 {
        es
    } else if replaced(es.last(), path, stage) {
        remaining(es.drop_last(), path, stage)
    } else {
        remaining(es.drop_last(), path, stage).push(es.last())
    }
}

/// Every entry that stays was there, in the same order.
pub proof fn remaining_facts(es: Seq<IndexEntryView>, path: Seq<u8>, stage: u8)
    ensures
        remaining(es, path, stage).len() <= es.len(),
        forall|e: IndexEntryView| #[trigger]
            remaining(es, path, stage).contains(e) <==> es.contains(e) && !replaced(
                e,
                path,
                stage,
            ),
        ordered(es) ==> ordered(remaining(es, path, stage)),
    decreases es.len(),
{
    if es.len() > 0 {
        let t = es.drop_last();
        let last = es.last();
        remaining_facts(t, path, stage);
        let r = remaining(t, path, stage);
        let all = remaining(es, path, stage);
        assert forall|e: IndexEntryView| es.contains(e) <==> t.contains(e) || e == last by {
            if t.contains(e) {
                let i = choose|i: int| 0 <= i < t.len() && t[i] == e;
                assert(es[i] == e);
            }
            if es.contains(e) {
                let i = choose|i: int| 0 <= i < es.len() && es[i] == e;
                if i < t.len() {
                    assert(t[i] == e);
                }
            }
            assert(es[es.len() - 1] == last);
        }
        if !replaced(last, path, stage) {
            assert forall|e: IndexEntryView| #[trigger] all.contains(e) <==> r.contains(e) || e == last by {
                if r.contains(e) {
                    let i = choose|i: int| 0 <= i < r.len() && r[i] == e;
                    assert(all[i] == e);
                }
                if all.contains(e) {
                    let i = choose|i: int| 0 <= i < all.len() && all[i] == e;
                    if i < r.len() {
                        assert(r[i] == e);
                    }
                }
                assert(all[all.len() - 1] == last);
            }
        }
        if ordered(es) {
            assert(ordered(t)) by {
                assert forall|i: int, j: int| 0 <= i < j < t.len() implies !entry_lt(
                    #[trigger] t[j],
                    #[trigger] t[i],
                ) by {
                    assert(t[i] == es[i] && t[j] == es[j]);
                }
            }
            if !replaced(last, path, stage) {
                assert forall|i: int, j: int| 0 <= i < j < all.len() implies !entry_lt(
                    #[trigger] all[j],
                    #[trigger] all[i],
                ) by {
                    if j == r.len() {
                        assert(all[i] == r[i]);
                        assert(r.contains(r[i]));
                        assert(t.contains(r[i]));
                        let k = choose|k: int| 0 <= k < t.len() && t[k] == r[i];
                        assert(es[k] == r[i]);
                        assert(!entry_lt(es[es.len() - 1], es[k]));
                    } else {
                        assert(all[i] == r[i] && all[j] == r[j]);
                    }
                }
            }
        }
    }
}

impl Index {
    #[verifier::type_invariant]
    closed spec fn inv(&self) -> bool {
        ordered(entries_view(self.entries@))
    }

    /// An empty index.
    pub fn new() -> (r: Index)
        ensures
            r@.entries == Seq::<IndexEntryView>::empty(),
            r@.extensions == Seq::<(Seq<u8>, Seq<u8>)>::empty(),
    {
        let r = Index { entries: Vec::new(), extensions: Vec::new() };
        assert(r@.entries =~= Seq::<IndexEntryView>::empty());
        assert(r@.extensions =~= Seq::<(Seq<u8>, Seq<u8>)>::empty());
        r
    }

    /// The index of ordered entries and extensions.
    fn from_parts(entries: Vec<IndexEntry>, extensions: Vec<(Vec<u8>, Vec<u8>)>) -> (r: Index)
        requires
            ordered(entries_view(entries@)),
        ensures
            r@.entries == entries_view(entries@),
            r@.extensions == extensions_view(extensions@),
    {
        Index { entries, extensions }
    }

    /// The entries, in ascending order of path and stage.
    pub fn entries(&self) -> (r: &Vec<IndexEntry>)
        ensures
            entries_view(r@) == self@.entries,
            ordered(self@.entries),
    {
        proof {
            use_type_invariant(self);
        }
        &self.entries
    }

    /// The extension blocks, as bytes.
    pub fn blocks(&self) -> (r: &Vec<(Vec<u8>, Vec<u8>)>)
        ensures
            extensions_view(r@) == self@.extensions,
    {
        &self.extensions
    }

    /// The extension blocks, with their signatures as text.
    pub fn extensions(&self) -> (r: Vec<(String, Vec<u8>)>)
        ensures
            r@.len() == self@.extensions.len(),
            forall|i: int|
                0 <= i < r@.len() ==> (#[trigger] r@[i]).0@ == text_of(self@.extensions[i].0)
                    && r@[i].1@ == self@.extensions[i].1,
    {
        let ghost v = self@.extensions;
        let mut out: Vec<(String, Vec<u8>)> = Vec::new();
        let mut i: usize = 0;
        while i < self.extensions.len()
            invariant
                i <= self.extensions@.len(),
                v == extensions_view(self.extensions@),
                out@.len() == i,
                forall|j: int|
                    0 <= j < i ==> (#[trigger] out@[j]).0@ == text_of(v[j].0) && out@[j].1@
                        == v[j].1,
            decreases self.extensions.len() - i,
        {
            let x = &self.extensions[i];
            assert(v[i as int] == (x.0@, x.1@));
            out.push((lossy_string(&x.0), to_vec(&x.1)));
            i += 1;
        }
        out
    }

    /// The resolved entry of a path.
    pub fn lookup(&self, path: &[u8]) -> (r: Option<&IndexEntry>)
        ensures
            match r {
                Some(e) => staged(self@.entries, path@) == Some(e@),
                None => staged(self@.entries, path@) is None,
            },
    {
        let mut i: usize = 0;
        let ghost v = self@.entries;
        assert(v.skip(0) =~= v);
        while i < self.entries.len()
            invariant
                i <= self.entries@.len(),
                v == entries_view(self.entries@),
                staged(v.skip(i as int), path@) == staged(v, path@),
                v == self@.entries,
            decreases self.entries.len() - i,
        {
            let e = &self.entries[i];
            proof {
                assert(v.skip(i as int)[0] == e@);
                assert(v.skip(i as int).drop_first() =~= v.skip(i + 1));
            }
            if same_bytes(&e.path, path) && e.stage == 0 {
                return Some(e);
            }
            i += 1;
        }
        None
    }

    /// Takes out the entries that one with the path and stage replaces.
    fn drop_replaced(&mut self, path: &[u8], stage: u8) -> (r: usize)
        ensures
            final(self)@.entries == remaining(old(self)@.entries, path@, stage),
            final(self)@.extensions == old(self)@.extensions,
            r == old(self)@.entries.len() - final(self)@.entries.len(),
            ordered(final(self)@.entries),
    {
        let ghost v = entries_view(self.entries@);
        proof {
            use_type_invariant(&*self);
            remaining_facts(v, path@, stage);
        }
        let mut entries: Vec<IndexEntry> = Vec::new();
        std::mem::swap(&mut self.entries, &mut entries);
        let before: usize = entries.len();
        let mut i: usize = 0;
        let ghost mut seen: int = 0;
        assert(entries_view(entries@) =~= remaining(v.take(0), path@, stage) + v.skip(0));
        while i < entries.len()
            invariant
                0 <= seen <= v.len(),
                i == remaining(v.take(seen), path@, stage).len(),
                entries_view(entries@) == remaining(v.take(seen), path@, stage) + v.skip(seen),
                entries@.len() <= v.len(),
            decreases v.len() - seen,
        {
            let ghost kept = remaining(v.take(seen), path@, stage);
            let ghost now = entries@;
            proof {
                assert(seen < v.len());
                assert(entries_view(now)[i as int] == v[seen]);
                assert(entries_view(now)[i as int] == now[i as int]@);
                assert(v.take(seen + 1).drop_last() =~= v.take(seen));
                assert(v.take(seen + 1).last() == v[seen]);
            }
            let e = &entries[i];
            if same_bytes(&e.path, path) && (stage == 0 || e.stage == 0 || e.stage == stage) {
                entries.remove(i);
                proof {
                    let after = entries_view(entries@);
                    let goal = kept + v.skip(seen + 1);
                    assert(entries@ == now.remove(i as int));
                    assert(entries_view(now).len() == now.len());
                    assert(after.len() == goal.len());
                    assert forall|j: int| 0 <= j < after.len() implies after[j] == goal[j] by {
                        let k = if j < i {
                            j
                        } else {
                            j + 1
                        };
                        assert(after[j] == entries@[j]@);
                        assert(entries@[j] == now[k]);
                        assert(entries_view(now)[k] == now[k]@);
                        assert(entries_view(now)[k] == (kept + v.skip(seen))[k]);
                        if j >= i {
                            assert(goal[j] == v.skip(seen + 1)[j - i]);
                            assert(v.skip(seen)[j + 1 - i] == v[seen + j + 1 - i]);
                        } else {
                            assert(goal[j] == kept[j]);
                        }
                    }
                    assert(after =~= goal);
                }
            } else {
                i += 1;
                assert(entries_view(entries@) =~= kept.push(v[seen]) + v.skip(seen + 1));
            }
            proof {
                seen = seen + 1;
            }
        }
        proof {
            assert(v.skip(seen).len() == 0);
            assert(v.take(seen) =~= v);
            assert(entries_view(entries@) =~= remaining(v, path@, stage));
        }
        let gone: usize = before - entries.len();
        self.entries = entries;
        gone
    }

    /// Stages an entry. A resolved entry replaces every stage of its path;
    /// a conflict entry replaces the resolved one and its own stage.
    pub fn upsert(&mut self, entry: IndexEntry)
        ensures
            final(self)@.entries == insert_ordered(
                remaining(old(self)@.entries, entry.path@, entry.stage),
                entry@,
            ),
            final(self)@.extensions == old(self)@.extensions,
    {
        self.drop_replaced(&entry.path, entry.stage);
        let ghost v = self@.entries;
        let mut entries: Vec<IndexEntry> = Vec::new();
        std::mem::swap(&mut self.entries, &mut entries);
        insert_sorted(&mut entries, entry);
        self.entries = entries;
    }

    /// Unstages a path, all its stages, and says how many entries went.
    pub fn remove(&mut self, path: &[u8]) -> (r: usize)
        ensures
            final(self)@.entries == remaining(old(self)@.entries, path@, 0),
            final(self)@.extensions == old(self)@.extensions,
            r == old(self)@.entries.len() - final(self)@.entries.len(),
    {
        self.drop_replaced(path, 0)
    }

    /// Adds an extension block.
    pub fn push_extension(&mut self, sig: String, data: Vec<u8>)
        ensures
            final(self)@.entries == old(self)@.entries,
            final(self)@.extensions == old(self)@.extensions.push((encode_utf8(sig@), data@)),
    {
        let ghost before = self.extensions@;
        let ghost x = (encode_utf8(sig@), data@);
        proof {
            use_type_invariant(&*self);
        }
        let mut extensions: Vec<(Vec<u8>, Vec<u8>)> = Vec::new();
        std::mem::swap(&mut self.extensions, &mut extensions);
        extensions.push((to_vec(sig.as_str().as_bytes()), data));
        self.extensions = extensions;
        assert(extensions_view(self.extensions@) =~= extensions_view(before).push(x));
    }
}

impl Default for Index {
    fn default() -> (r: Index)
        ensures
            r@.entries == Seq::<IndexEntryView>::empty(),
            r@.extensions == Seq::<(Seq<u8>, Seq<u8>)>::empty(),
    {
        Index::new()
    }
}

} // verus!
