//! Trees: directory listings, their entry modes, order and wire format.

use vstd::prelude::*;
use vstd::utf8::is_ascii_chars;

use super::{ObjectId, ParseError, ParseErrorView};
use crate::bytes::{
    ascii, bytes_lt, find, has_byte, lex_lt, lex_lt_irreflexive, lex_lt_total, lex_lt_transitive,
    push_all, same_bytes, text, to_vec, upto, upto_is, upto_spec, NUL, SLASH, SPACE,
};

verus! {

/// A Git tree: a sequence of named entries, in the order they were met.
/// Serialization sorts and deduplicates.
#[derive(Clone, Debug, PartialEq, Eq)]
pub struct Tree {
    pub entries: Vec<TreeEntry>,
}

/// A single entry of a tree.
#[derive(Clone, Debug, PartialEq, Eq)]
pub struct TreeEntry {
    pub mode: EntryMode,
    /// Entry name: bytes, not necessarily UTF-8.
    pub name: Vec<u8>,
    pub id: ObjectId,
}

/// The entry modes that Git recognizes.
#[derive(Clone, Copy, Debug, PartialEq, Eq, Structural)]
pub enum EntryMode {
    /// Regular file (`100644`).
    Regular,
    /// Executable file (`100755`).
    Executable,
    /// Subtree (`40000`).
    Tree,
    /// Symbolic link (`120000`).
    Symlink,
    /// Submodule commit pointer (`160000`).
    Gitlink,
}

/// What a tree entry holds.
pub struct TreeEntryView {
    pub mode: EntryMode,
    pub name: Seq<u8>,
    pub id: Seq<u8>,
}

impl View for TreeEntry {
    type V = TreeEntryView;

    open spec fn view(&self) -> TreeEntryView {
        TreeEntryView { mode: self.mode, name: self.name@, id: self.id@ }
    }
}

impl View for Tree {
    type V = Seq<TreeEntryView>;

    open spec fn view(&self) -> Seq<TreeEntryView> {
        self.entries@.map_values(|e: TreeEntry| e@)
    }
}

impl Default for Tree {
    fn default() -> (r: Tree)
        ensures
            r@ == Seq::<TreeEntryView>::empty(),
    {
        let r = Tree { entries: Vec::new() };
        assert(r@ =~= Seq::<TreeEntryView>::empty());
        r
    }
}

impl TreeEntry {
    /// An equal entry.
    pub fn duplicate(&self) -> (r: TreeEntry)
        ensures
            r@ == self@,
    {
        TreeEntry { mode: self.mode, name: to_vec(&self.name), id: self.id }
    }
}

// ---------------------------------------------------------------------
// Modes
// ---------------------------------------------------------------------

impl EntryMode {
    /// The canonical octal notation.
    pub open spec fn octal(self) -> Seq<char> {
        match self {
            EntryMode::Regular => "100644"@,
            EntryMode::Executable => "100755"@,
            EntryMode::Tree => "40000"@,
            EntryMode::Symlink => "120000"@,
            EntryMode::Gitlink => "160000"@,
        }
    }

    /// The canonical octal notation, without leading zero.
    pub fn as_octal(self) -> (r: &'static [u8])
        ensures
            r@ == ascii(self.octal()),
    {
        proof {
            octal_facts(self);
        }
        match self {
            EntryMode::Regular => text("100644"),
            EntryMode::Executable => text("100755"),
            EntryMode::Tree => text("40000"),
            EntryMode::Symlink => text("120000"),
            EntryMode::Gitlink => text("160000"),
        }
    }
}

/// The mode that an octal notation denotes; a tree's may have one leading
/// zero.
pub open spec fn mode_of_octal(s: Seq<u8>) -> Option<EntryMode> {
    if s == ascii("100644"@) {
        Some(EntryMode::Regular)
    } else if s == ascii("100755"@) {
        Some(EntryMode::Executable)
    } else if s == ascii("40000"@) || s == ascii("040000"@) {
        Some(EntryMode::Tree)
    } else if s == ascii("120000"@) {
        Some(EntryMode::Symlink)
    } else if s == ascii("160000"@) {
        Some(EntryMode::Gitlink)
    } else {
        None
    }
}

/// Each mode's notation is ASCII without spaces, and denotes the mode.
pub proof fn octal_facts(mode: EntryMode)
    ensures
        is_ascii_chars(mode.octal()),
        is_ascii_chars("040000"@),
        forall|i: int|
            0 <= i < ascii(mode.octal()).len() ==> 48 <= #[trigger] ascii(mode.octal())[i] <= 57,
        mode_of_octal(ascii(mode.octal())) == Some(mode),
        0 < ascii(mode.octal()).len() <= 6,
{
    reveal_strlit("100644");
    reveal_strlit("100755");
    reveal_strlit("40000");
    reveal_strlit("040000");
    reveal_strlit("120000");
    reveal_strlit("160000");
    assert(ascii("100644"@)[3] == 54u8 && ascii("100644"@)[1] == 48u8);
    assert(ascii("100755"@)[3] == 55u8 && ascii("100755"@)[1] == 48u8);
    assert(ascii("120000"@)[1] == 50u8 && ascii("120000"@)[0] == 49u8);
    assert(ascii("160000"@)[1] == 54u8 && ascii("160000"@)[0] == 49u8);
    assert(ascii("040000"@)[0] == 48u8 && ascii("100644"@)[0] == 49u8);
    assert(ascii("100755"@)[0] == 49u8);
}

/// Reads an octal mode.
pub fn parse_mode(s: &[u8]) -> (r: Result<EntryMode, ParseError>)
    ensures
        match r {
            Ok(m) => mode_of_octal(s@) == Some(m),
            Err(e) => mode_of_octal(s@) is None && e@ == ParseErrorView::InvalidMode(s@),
        },
{
    proof {
        octal_facts(EntryMode::Regular);
        octal_facts(EntryMode::Executable);
        octal_facts(EntryMode::Tree);
        octal_facts(EntryMode::Symlink);
        octal_facts(EntryMode::Gitlink);
    }
    if same_bytes(s, text("100644")) {
        Ok(EntryMode::Regular)
    } else if same_bytes(s, text("100755")) {
        Ok(EntryMode::Executable)
    } else if same_bytes(s, text("40000")) || same_bytes(s, text("040000")) {
        Ok(EntryMode::Tree)
    } else if same_bytes(s, text("120000")) {
        Ok(EntryMode::Symlink)
    } else if same_bytes(s, text("160000")) {
        Ok(EntryMode::Gitlink)
    } else {
        Err(ParseError::InvalidMode(to_vec(s)))
    }
}

// ---------------------------------------------------------------------
// Wire format
// ---------------------------------------------------------------------

/// The bytes of one entry: `mode ' ' name NUL id`.
pub open spec fn entry_bytes(e: TreeEntryView) -> Seq<u8> {
    ascii(e.mode.octal()) + seq![SPACE] + e.name + seq![NUL] + e.id
}

/// The bytes of a list of entries, one after the other.
pub open spec fn entries_bytes(es: Seq<TreeEntryView>) -> Seq<u8>
    decreases es.len(),
{
    if es.len() == 0 {
        Seq::empty()
    } else {
        entry_bytes(es[0]) + entries_bytes(es.drop_first())
    }
}

/// The entry at the beginning of a nonempty payload and how many bytes it
/// takes up, or what is wrong with it.
pub open spec fn first_entry(p: Seq<u8>) -> Result<(TreeEntryView, int), ParseErrorView> {
    let sp = upto(p, SPACE);
    let after = p.skip(sp + 1);
    let nul = upto(after, NUL);
    let name = after.take(nul);
    let start = sp + 1 + nul + 1;
    if sp == p.len() {
        Err(ParseErrorView::InvalidTreeEntry)
    } else if mode_of_octal(p.take(sp)) is None {
        Err(ParseErrorView::InvalidMode(p.take(sp)))
    } else if nul == after.len() {
        Err(ParseErrorView::InvalidTreeEntry)
    } else if nul == 0 || name.contains(SLASH) {
        Err(ParseErrorView::InvalidTreeEntry)
    } else if start + 20 > p.len() {
        Err(ParseErrorView::Truncated)
    } else {
        Ok(
            (
                TreeEntryView {
                    mode: mode_of_octal(p.take(sp))->0,
                    name,
                    id: p.subrange(start, start + 20),
                },
                start + 20,
            ),
        )
    }
}

/// An entry takes up at least one byte, and no more than there are.
pub proof fn first_entry_bounds(p: Seq<u8>)
    ensures
        first_entry(p) matches Ok((_, n)) ==> 0 < n <= p.len(),
{
    upto_spec(p, SPACE);
    upto_spec(p.skip(upto(p, SPACE) + 1), NUL);
}

/// The entries of a tree payload in order, or the first thing wrong with
/// it.
pub open spec fn payload_tree(p: Seq<u8>) -> Result<Seq<TreeEntryView>, ParseErrorView>
    decreases p.len(),
{
    if p.len() == 0 {
        Ok(Seq::empty())
    } else {
        match first_entry(p) {
            Err(e) => Err(e),
            Ok((entry, n)) => {
                if n <= 0 || n > p.len() {
                    Err(ParseErrorView::Truncated)
                } else {
                    match payload_tree(p.skip(n)) {
                        Err(e) => Err(e),
                        Ok(rest) => Ok(seq![entry] + rest),
                    }
                }
            },
        }
    }
}

/// Parses a tree payload.
pub fn parse_payload(payload: &[u8]) -> (r: Result<Tree, ParseError>)
    ensures
        match r {
            Ok(t) => payload_tree(payload@) == Ok::<_, ParseErrorView>(t@),
            Err(e) => payload_tree(payload@) == Err::<Seq<TreeEntryView>, _>(e@),
        },
{
    let mut entries: Vec<TreeEntry> = Vec::new();
    let mut cursor: usize = 0;
    let ghost done = entries@.map_values(|e: TreeEntry| e@);
    assert(payload@.skip(0) =~= payload@);
    proof {
        match payload_tree(payload@) {
            Ok(rest) => {
                assert(done + rest =~= rest);
            },
            Err(_) => {},
        }
    }
    while cursor < payload.len()
        invariant
            cursor <= payload@.len(),
            match payload_tree(payload@.skip(cursor as int)) {
                Ok(rest) => payload_tree(payload@) == Ok::<_, ParseErrorView>(
                    entries@.map_values(|e: TreeEntry| e@) + rest,
                ),
                Err(e) => payload_tree(payload@) == Err::<Seq<TreeEntryView>, _>(e),
            },
        decreases payload.len() - cursor,
    {
        let rest = &payload[cursor..payload.len()];
        assert(rest@ =~= payload@.skip(cursor as int));
        proof {
            first_entry_bounds(rest@);
        }
        let sp: usize = find(rest, SPACE);
        if sp == rest.len() {
            return Err(ParseError::InvalidTreeEntry);
        }
        assert(rest@.subrange(0, sp as int) =~= rest@.take(sp as int));
        let mode = match parse_mode(&rest[0..sp]) {
            Ok(m) => m,
            Err(e) => return Err(e),
        };
        let after = &rest[sp + 1..rest.len()];
        assert(after@ =~= rest@.skip(sp + 1));
        let nul: usize = find(after, NUL);
        if nul == after.len() {
            return Err(ParseError::InvalidTreeEntry);
        }
        let name = &after[0..nul];
        assert(name@ =~= after@.take(nul as int));
        if name.len() == 0 {
            return Err(ParseError::InvalidTreeEntry);
        }
        if has_byte(name, SLASH) {
            return Err(ParseError::InvalidTreeEntry);
        }
        let start: usize = sp + 1 + nul + 1;
        if rest.len() - start < 20 {
            return Err(ParseError::Truncated);
        }
        let ghost before = entries@.map_values(|e: TreeEntry| e@);
        let entry = TreeEntry { mode, name: to_vec(name), id: ObjectId::from_slice(rest, start) };
        let ghost entry_view = entry@;
        entries.push(entry);
        proof {
            assert(entries@.map_values(|e: TreeEntry| e@) =~= before.push(entry_view));
            assert(rest@.skip(start + 20) =~= payload@.skip(cursor + start + 20));
            match payload_tree(rest@.skip(start + 20)) {
                Ok(tail) => {
                    assert(before + (seq![entry_view] + tail) =~= before.push(entry_view) + tail);
                },
                Err(_) => {},
            }
        }
        cursor = cursor + start + 20;
    }
    assert(payload@.skip(cursor as int).len() == 0);
    let t = Tree { entries };
    assert(t@ + Seq::<TreeEntryView>::empty() =~= t@);
    Ok(t)
}

// ---------------------------------------------------------------------
// Canonical order
// ---------------------------------------------------------------------

/// The string by which Git orders entries: the name, with a `/` behind it
/// for a subtree.
pub open spec fn sort_key(e: TreeEntryView) -> Seq<u8> {
    if e.mode == EntryMode::Tree {
        e.name.push(SLASH)
    } else {
        e.name
    }
}

/// Whether an entry has the given name.
pub open spec fn has_name(es: Seq<TreeEntryView>, name: Seq<u8>) -> bool {
    exists|i: int| 0 <= i < es.len() && (#[trigger] es[i]).name == name
}

/// `e` put into `es` behind the last entry whose key is not greater.
pub open spec fn insert_entry(es: Seq<TreeEntryView>, e: TreeEntryView) -> Seq<TreeEntryView>
    decreases es.len(),
{
    if es.len() == 0 || !lex_lt(sort_key(e), sort_key(es.last())) {
        es.push(e)
    } else {
        insert_entry(es.drop_last(), e).push(es.last())
    }
}

/// The entries as a tree is written: of each name the first entry only, in
/// the order of the keys.
pub open spec fn canonical(es: Seq<TreeEntryView>) -> Seq<TreeEntryView>
    decreases es.len(),
{
    if es.len() == 0 {
        es
    } else {
        let head = canonical(es.drop_last());
        if has_name(head, es.last().name) {
            head
        } else {
            insert_entry(head, es.last())
        }
    }
}

/// The payload that a tree is written as.
pub open spec fn tree_payload(es: Seq<TreeEntryView>) -> Seq<u8> {
    entries_bytes(canonical(es))
}

/// Where [`insert_entry`] puts the entry.
pub proof fn insert_entry_at(es: Seq<TreeEntryView>, e: TreeEntryView, k: int)
    requires
        0 <= k <= es.len(),
        forall|j: int| k <= j < es.len() ==> lex_lt(sort_key(e), #[trigger] sort_key(es[j])),
        k > 0 ==> !lex_lt(sort_key(e), sort_key(es[k - 1])),
    ensures
        insert_entry(es, e) == es.insert(k, e),
    decreases es.len(),
{
    if k == es.len() {
        assert(es.insert(k, e) =~= es.push(e));
    } else {
        assert(lex_lt(sort_key(e), sort_key(es[es.len() - 1])));
        let t = es.drop_last();
        assert forall|j: int| k <= j < t.len() implies lex_lt(
            sort_key(e),
            #[trigger] sort_key(t[j]),
        ) by {
            assert(t[j] == es[j]);
        }
        insert_entry_at(t, e, k);
        assert(es.insert(k, e) =~= t.insert(k, e).push(es.last()));
    }
}

/// The key of an entry.
fn entry_key(e: &TreeEntry) -> (r: Vec<u8>)
    ensures
        r@ == sort_key(e@),
{
    let mut key = to_vec(&e.name);
    if e.mode == EntryMode::Tree {
        key.push(SLASH);
    }
    key
}

/// Whether an entry of `es` has the given name.
fn name_taken(es: &Vec<TreeEntry>, name: &[u8]) -> (r: bool)
    ensures
        r <==> has_name(es@.map_values(|e: TreeEntry| e@), name@),
{
    let ghost views = es@.map_values(|e: TreeEntry| e@);
    let mut i: usize = 0;
    while i < es.len()
        invariant
            i <= es@.len(),
            views == es@.map_values(|e: TreeEntry| e@),
            forall|j: int| 0 <= j < i ==> (#[trigger] views[j]).name != name@,
        decreases es.len() - i,
    {
        if same_bytes(&es[i].name, name) {
            assert(views[i as int].name == name@);
            return true;
        }
        i += 1;
    }
    false
}

/// The entries in canonical order.
pub fn canonical_entries(tree: &Tree) -> (r: Vec<TreeEntry>)
    ensures
        r@.map_values(|e: TreeEntry| e@) == canonical(tree@),
{
    let mut kept: Vec<TreeEntry> = Vec::new();
    let mut i: usize = 0;
    assert(kept@.map_values(|e: TreeEntry| e@) =~= canonical(tree@.take(0)));
    while i < tree.entries.len()
        invariant
            i <= tree.entries@.len(),
            kept@.map_values(|e: TreeEntry| e@) == canonical(tree@.take(i as int)),
        decreases tree.entries.len() - i,
    {
        let entry = &tree.entries[i];
        let ghost views = kept@.map_values(|e: TreeEntry| e@);
        proof {
            assert(tree@.take(i + 1).drop_last() =~= tree@.take(i as int));
            assert(tree@.take(i + 1).last() == entry@);
        }
        if !name_taken(&kept, &entry.name) {
            let key = entry_key(entry);
            let mut k: usize = kept.len();
            let mut go = k > 0;
            while go
                invariant
                    k <= kept@.len(),
                    views == kept@.map_values(|e: TreeEntry| e@),
                    key@ == sort_key(entry@),
                    go ==> k > 0,
                    !go && k > 0 ==> !lex_lt(key@, sort_key(views[k - 1])),
                    forall|j: int|
                        k <= j < views.len() ==> lex_lt(key@, #[trigger] sort_key(views[j])),
                decreases k, go as int,
            {
                let other = entry_key(&kept[k - 1]);
                assert(other@ == sort_key(views[k - 1]));
                if bytes_lt(&key, &other) {
                    k -= 1;
                    go = k > 0;
                } else {
                    go = false;
                }
            }
            kept.insert(k, entry.duplicate());
            proof {
                insert_entry_at(views, entry@, k as int);
                assert(kept@.map_values(|e: TreeEntry| e@) =~= views.insert(k as int, entry@));
            }
        }
        i += 1;
    }
    assert(tree@.take(i as int) =~= tree@);
    kept
}

/// Serializes a tree payload.
pub fn serialize_payload(tree: &Tree) -> (r: Vec<u8>)
    ensures
        r@ == tree_payload(tree@),
{
    let kept = canonical_entries(tree);
    let ghost views = kept@.map_values(|e: TreeEntry| e@);
    let mut out: Vec<u8> = Vec::new();
    let mut i: usize = 0;
    assert(views.skip(0) =~= views);
    assert(out@ + entries_bytes(views) =~= entries_bytes(views));
    while i < kept.len()
        invariant
            i <= kept@.len(),
            views == kept@.map_values(|e: TreeEntry| e@),
            out@ + entries_bytes(views.skip(i as int)) == entries_bytes(views),
        decreases kept.len() - i,
    {
        let ghost before = out@;
        let entry = &kept[i];
        push_all(&mut out, entry.mode.as_octal());
        out.push(SPACE);
        push_all(&mut out, &entry.name);
        out.push(NUL);
        push_all(&mut out, entry.id.as_bytes());
        proof {
            assert(out@ =~= before + entry_bytes(entry@));
            assert(views.skip(i as int)[0] == entry@);
            assert(views.skip(i as int).drop_first() =~= views.skip(i + 1));
            assert(out@ + entries_bytes(views.skip(i + 1)) =~= before + entries_bytes(
                views.skip(i as int),
            ));
        }
        i += 1;
    }
    assert(out@ + Seq::<u8>::empty() =~= out@);
    out
}

// ---------------------------------------------------------------------
// Laws
// ---------------------------------------------------------------------

/// An entry that the format can carry: a nonempty name without `/` or NUL,
/// and an id of 20 bytes.
pub open spec fn entry_ok(e: TreeEntryView) -> bool {
    &&& e.name.len() > 0
    &&& !e.name.contains(SLASH)
    &&& !e.name.contains(NUL)
    &&& e.id.len() == 20
}

/// Every entry can be carried.
pub open spec fn entries_ok(es: Seq<TreeEntryView>) -> bool {
    forall|i: int| 0 <= i < es.len() ==> entry_ok(#[trigger] es[i])
}

/// No two entries share a name.
pub open spec fn names_unique(es: Seq<TreeEntryView>) -> bool {
    forall|i: int, j: int|
        0 <= i < j < es.len() ==> (#[trigger] es[i]).name != (#[trigger] es[j]).name
}

/// The keys never go down.
pub open spec fn keys_sorted(es: Seq<TreeEntryView>) -> bool {
    forall|i: int, j: int|
        0 <= i < j < es.len() ==> !lex_lt(sort_key(#[trigger] es[j]), sort_key(#[trigger] es[i]))
}

/// An entry read from the front of its own bytes is the entry.
proof fn first_entry_round_trip(e: TreeEntryView, rest: Seq<u8>)
    requires
        entry_ok(e),
    ensures
        first_entry(entry_bytes(e) + rest) == Ok::<_, ParseErrorView>(
            (e, entry_bytes(e).len() as int),
        ),
{
    let p = entry_bytes(e) + rest;
    let octal = ascii(e.mode.octal());
    octal_facts(e.mode);
    assert forall|j: int| 0 <= j < octal.len() implies p[j] != SPACE by {
        assert(p[j] == octal[j]);
    }
    upto_is(p, SPACE, octal.len() as int);
    assert(p.take(octal.len() as int) =~= octal);
    let after = p.skip(octal.len() as int + 1);
    assert(after =~= e.name + seq![NUL] + e.id + rest);
    assert forall|j: int| 0 <= j < e.name.len() implies after[j] != NUL by {
        assert(after[j] == e.name[j]);
        assert(e.name.contains(e.name[j]));
    }
    upto_is(after, NUL, e.name.len() as int);
    assert(after.take(e.name.len() as int) =~= e.name);
    let start = octal.len() as int + 1 + e.name.len() + 1;
    assert(p.subrange(start, start + 20) =~= e.id);
}

/// An entry that was read can be carried by a tree.
pub proof fn first_entry_ok(p: Seq<u8>)
    requires
        first_entry(p) is Ok,
    ensures
        entry_ok(first_entry(p)->Ok_0.0),
{
    let sp = upto(p, SPACE);
    upto_spec(p, SPACE);
    let after = p.skip(sp + 1);
    upto_spec(after, NUL);
    let name = after.take(upto(after, NUL));
    assert forall|i: int| 0 <= i < name.len() implies #[trigger] name[i] != NUL by {
        assert(name[i] == after[i]);
    }
}

/// Law: parsing the bytes of carriable entries gives the entries, in their
/// order.
pub proof fn law_parse_entries(es: Seq<TreeEntryView>)
    requires
        entries_ok(es),
    ensures
        payload_tree(entries_bytes(es)) == Ok::<_, ParseErrorView>(es),
    decreases es.len(),
{
    if es.len() == 0 {
        assert(es =~= Seq::<TreeEntryView>::empty());
    } else {
        let t = es.drop_first();
        assert(entries_ok(t)) by {
            assert forall|i: int| 0 <= i < t.len() implies entry_ok(#[trigger] t[i]) by {
                assert(entry_ok(es[i + 1]));
            }
        }
        law_parse_entries(t);
        assert(entry_ok(es[0]));
        first_entry_round_trip(es[0], entries_bytes(t));
        let p = entries_bytes(es);
        assert(p.skip(entry_bytes(es[0]).len() as int) =~= entries_bytes(t));
        assert(seq![es[0]] + t =~= es);
    }
}

/// Insertion keeps order and adds just the one entry.
proof fn insert_entry_facts(es: Seq<TreeEntryView>, e: TreeEntryView)
    requires
        keys_sorted(es),
    ensures
        keys_sorted(insert_entry(es, e)),
        insert_entry(es, e).to_multiset() == es.to_multiset().insert(e),
        exists|k: int| 0 <= k <= es.len() && insert_entry(es, e) == #[trigger] es.insert(k, e),
    decreases es.len(),
{
    broadcast use vstd::seq_lib::group_to_multiset_ensures;

    if es.len() == 0 || !lex_lt(sort_key(e), sort_key(es.last())) {
        let r = es.push(e);
        assert(r =~= es.insert(es.len() as int, e));
        assert forall|i: int, j: int| 0 <= i < j < r.len() implies !lex_lt(
            sort_key(#[trigger] r[j]),
            sort_key(#[trigger] r[i]),
        ) by {
            if j == es.len() && i < es.len() - 1 {
                let last = es[es.len() - 1];
                assert(!lex_lt(sort_key(last), sort_key(es[i])));
                lex_lt_total(sort_key(last), sort_key(es[i]));
                if lex_lt(sort_key(e), sort_key(es[i])) {
                    if sort_key(last) != sort_key(es[i]) {
                        lex_lt_transitive(sort_key(e), sort_key(es[i]), sort_key(last));
                    }
                }
            } else if j < es.len() {
                assert(r[i] == es[i] && r[j] == es[j]);
            }
        }
    } else {
        let t = es.drop_last();
        let last = es.last();
        assert(keys_sorted(t)) by {
            assert forall|i: int, j: int| 0 <= i < j < t.len() implies !lex_lt(
                sort_key(#[trigger] t[j]),
                sort_key(#[trigger] t[i]),
            ) by {
                assert(t[i] == es[i] && t[j] == es[j]);
            }
        }
        insert_entry_facts(t, e);
        let r0 = insert_entry(t, e);
        let k = choose|k: int| 0 <= k <= t.len() && r0 == #[trigger] t.insert(k, e);
        let r = r0.push(last);
        assert(r =~= es.insert(k, e));
        assert(es =~= t.push(last));
        assert forall|i: int, j: int| 0 <= i < j < r.len() implies !lex_lt(
            sort_key(#[trigger] r[j]),
            sort_key(#[trigger] r[i]),
        ) by {
            if j == r.len() - 1 {
                if i == k {
                    if lex_lt(sort_key(last), sort_key(e)) {
                        lex_lt_transitive(sort_key(last), sort_key(e), sort_key(last));
                        lex_lt_irreflexive(sort_key(last));
                    }
                } else if i < k {
                    assert(r[i] == es[i]);
                } else {
                    assert(r[i] == es[i - 1]);
                }
            } else {
                assert(r[i] == r0[i] && r[j] == r0[j]);
            }
        }
        assert(r.to_multiset() =~= es.to_multiset().insert(e));
    }
}

/// Which names occur once an entry more is there.
proof fn has_name_push(es: Seq<TreeEntryView>, e: TreeEntryView, k: int, name: Seq<u8>)
    requires
        0 <= k <= es.len(),
    ensures
        has_name(es.insert(k, e), name) <==> has_name(es, name) || e.name == name,
{
    let c = es.insert(k, e);
    assert(c[k] == e);
    if has_name(es, name) {
        let h = choose|h: int| 0 <= h < es.len() && (#[trigger] es[h]).name == name;
        let at = if h < k {
            h
        } else {
            h + 1
        };
        assert(c[at].name == name);
    }
    if has_name(c, name) {
        let i = choose|i: int| 0 <= i < c.len() && (#[trigger] c[i]).name == name;
        if i != k {
            let at = if i < k {
                i
            } else {
                i - 1
            };
            assert(c[i] == es[at]);
        }
    }
}

/// Law: written entries are in the order of their keys.
pub proof fn law_canonical_sorted(es: Seq<TreeEntryView>)
    ensures
        keys_sorted(canonical(es)),
    decreases es.len(),
{
    if es.len() > 0 {
        law_canonical_sorted(es.drop_last());
        insert_entry_facts(canonical(es.drop_last()), es.last());
    }
}

/// Law: the names of written entries are the tree's names, each once.
pub proof fn law_canonical_names(es: Seq<TreeEntryView>)
    ensures
        names_unique(canonical(es)),
        forall|name: Seq<u8>| #[trigger] has_name(canonical(es), name) <==> has_name(es, name),
    decreases es.len(),
{
    if es.len() > 0 {
        let t = es.drop_last();
        let e = es.last();
        let head = canonical(t);
        law_canonical_names(t);
        law_canonical_sorted(t);
        insert_entry_facts(head, e);
        assert forall|name: Seq<u8>| #[trigger] has_name(canonical(es), name) <==> has_name(
            es,
            name,
        ) by {
            has_name_push(t, e, t.len() as int, name);
            assert(t.insert(t.len() as int, e) =~= es);
            assert(has_name(head, name) <==> has_name(t, name));
            if !has_name(head, e.name) {
                let k = choose|k: int|
                    0 <= k <= head.len() && insert_entry(head, e) == #[trigger] head.insert(k, e);
                has_name_push(head, e, k, name);
            }
        }
        if !has_name(head, e.name) {
            let k = choose|k: int|
                0 <= k <= head.len() && insert_entry(head, e) == #[trigger] head.insert(k, e);
            let c = head.insert(k, e);
            assert forall|i: int, j: int| 0 <= i < j < c.len() implies (#[trigger] c[i]).name != (
            #[trigger] c[j]).name by {
                let a = if i < k {
                    i
                } else {
                    i - 1
                };
                let b = if j < k {
                    j
                } else {
                    j - 1
                };
                if i == k {
                    assert(c[j] == head[b]);
                } else if j == k {
                    assert(c[i] == head[a]);
                } else {
                    assert(c[i] == head[a] && c[j] == head[b]);
                }
            }
        }
    }
}

/// Law: of each name the tree's first entry is the one that is written,
/// and nothing else is.
pub proof fn law_canonical_first(es: Seq<TreeEntryView>, e: TreeEntryView)
    ensures
        canonical(es).contains(e) <==> exists|i: int|
            0 <= i < es.len() && #[trigger] es[i] == e && !has_name(es.take(i), e.name),
    decreases es.len(),
{
    if es.len() > 0 {
        let t = es.drop_last();
        let last = es.last();
        let head = canonical(t);
        let c = canonical(es);
        law_canonical_first(t, e);
        law_canonical_names(t);
        law_canonical_sorted(t);
        insert_entry_facts(head, last);
        let n = es.len() - 1;
        assert(es.take(n) =~= t);
        assert(has_name(head, last.name) <==> has_name(t, last.name));
        if !has_name(head, last.name) {
            let k = choose|k: int|
                0 <= k <= head.len() && insert_entry(head, last) == #[trigger] head.insert(k, last);
            assert(c == head.insert(k, last));
            assert(c.contains(e) <==> head.contains(e) || e == last) by {
                assert(c[k] == last);
                if head.contains(e) {
                    let h = choose|h: int| 0 <= h < head.len() && head[h] == e;
                    let at = if h < k {
                        h
                    } else {
                        h + 1
                    };
                    assert(c[at] == e);
                }
                if c.contains(e) {
                    let i = choose|i: int| 0 <= i < c.len() && c[i] == e;
                    if i != k {
                        let at = if i < k {
                            i
                        } else {
                            i - 1
                        };
                        assert(head[at] == e);
                    }
                }
            }
        }
        let first_in_t = exists|i: int|
            0 <= i < t.len() && #[trigger] t[i] == e && !has_name(t.take(i), e.name);
        let first_in_es = exists|i: int|
            0 <= i < es.len() && #[trigger] es[i] == e && !has_name(es.take(i), e.name);
        if first_in_t {
            let i = choose|i: int|
                0 <= i < t.len() && #[trigger] t[i] == e && !has_name(t.take(i), e.name);
            assert(es.take(i) =~= t.take(i));
            assert(es[i] == e);
        }
        if first_in_es {
            let i = choose|i: int|
                0 <= i < es.len() && #[trigger] es[i] == e && !has_name(es.take(i), e.name);
            if i < n {
                assert(es.take(i) =~= t.take(i));
                assert(t[i] == e);
            }
        }
        if e == last && !has_name(t, last.name) {
            assert(es[n] == e);
        }
    }
}

/// Law: parsing a written tree gives its entries in canonical order.
pub proof fn law_tree_round_trip(es: Seq<TreeEntryView>)
    requires
        entries_ok(es),
    ensures
        payload_tree(tree_payload(es)) == Ok::<_, ParseErrorView>(canonical(es)),
{
    let c = canonical(es);
    assert forall|i: int| 0 <= i < c.len() implies entry_ok(#[trigger] c[i]) by {
        law_canonical_first(es, c[i]);
    }
    law_parse_entries(c);
}

/// Entries in order with distinct names are canonical as they are.
pub proof fn canonical_fixed(es: Seq<TreeEntryView>)
    requires
        keys_sorted(es),
        names_unique(es),
    ensures
        canonical(es) == es,
    decreases es.len(),
{
    if es.len() > 0 {
        let t = es.drop_last();
        assert forall|i: int, j: int| 0 <= i < j < t.len() implies !lex_lt(
            sort_key(#[trigger] t[j]),
            sort_key(#[trigger] t[i]),
        ) && t[i].name != t[j].name by {
            assert(t[i] == es[i] && t[j] == es[j]);
        }
        canonical_fixed(t);
        if has_name(t, es.last().name) {
            let i = choose|i: int| 0 <= i < t.len() && (#[trigger] t[i]).name == es.last().name;
            assert(es[i].name != es[es.len() - 1].name);
        }
        if t.len() > 0 {
            assert(t.last() == es[es.len() - 2]);
            assert(!lex_lt(sort_key(es[es.len() - 1]), sort_key(es[es.len() - 2])));
        }
        assert(es =~= t.push(es.last()));
    }
}

/// Law: writing a tree that was read back from its own bytes gives the
/// same bytes.
pub proof fn law_tree_stable(es: Seq<TreeEntryView>)
    ensures
        canonical(canonical(es)) == canonical(es),
        tree_payload(canonical(es)) == tree_payload(es),
{
    law_canonical_sorted(es);
    law_canonical_names(es);
    canonical_fixed(canonical(es));
}

} // verus!
