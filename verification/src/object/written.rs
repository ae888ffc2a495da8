//! How objects are written.

use vstd::prelude::*;

use super::commit::commit_payload;
use super::headers::{header_line, headers_bytes};
use super::tag::tag_payload;
use super::tree::{canonical, entry_bytes, law_canonical_sorted, tree_payload};
use super::{CommitView, EntryMode, ObjectKind, ObjectView, TagView, TreeEntryView};
use crate::bytes::{ascii, lex_lt, lex_lt_at};
use crate::notation::{decimal, hex};

verus! {

// ---------------------------------------------------------------------
// Trees
// ---------------------------------------------------------------------

/// Law: one byte string comes before another if they agree up to where it ends
/// or has the smaller byte.
pub proof fn law_lex_lt(a: Seq<u8>, b: Seq<u8>)
    ensures
        lex_lt(a, b) <==> exists|k: int|
            0 <= k < b.len() && a.len() >= k && #[trigger] a.take(k) == b.take(k) && (a.len() == k
                || a[k] < b[k]),
{
    if lex_lt(a, b) {
        let k = choose|k: int| lex_lt_at(a, b, k);
        assert(a.take(k) =~= b.take(k));
    }
    if exists|k: int|
        0 <= k < b.len() && a.len() >= k && #[trigger] a.take(k) == b.take(k) && (a.len() == k
            || a[k] < b[k]) {
        let k = choose|k: int|
            0 <= k < b.len() && a.len() >= k && #[trigger] a.take(k) == b.take(k) && (a.len() == k
                || a[k] < b[k]);
        assert forall|j: int| 0 <= j < k implies a[j] == b[j] by {
            assert(a.take(k)[j] == b.take(k)[j]);
        }
        assert(lex_lt_at(a, b, k));
    }
}

/// What an entry is ordered by: its name, with a slash behind it for a subtree.
pub open spec fn ordered_by(e: TreeEntryView) -> Seq<u8> {
    e.name + if e.mode == EntryMode::Tree {
        seq![47u8]
    } else {
        Seq::<u8>::empty()
    }
}

/// Law: the entries of a written tree stand by name, where that of a subtree
/// counts with a slash behind it.
pub proof fn law_tree_order(es: Seq<TreeEntryView>, i: int, j: int)
    requires
        0 <= i < j < canonical(es).len(),
    ensures
        !lex_lt(ordered_by(canonical(es)[j]), ordered_by(canonical(es)[i])),
{
    law_canonical_sorted(es);
    let (a, b) = (canonical(es)[i], canonical(es)[j]);
    assert(ordered_by(a) =~= super::tree::sort_key(a));
    assert(ordered_by(b) =~= super::tree::sort_key(b));
}

/// Law: an entry is written as its mode in octal digits, a space, its name, a
/// NUL and its id.
pub proof fn law_entry_bytes(name: Seq<u8>, id: Seq<u8>)
    ensures
        entry_bytes(TreeEntryView { mode: EntryMode::Regular, name, id }) == ascii("100644 "@)
            + name + seq![0u8] + id,
        entry_bytes(TreeEntryView { mode: EntryMode::Executable, name, id }) == ascii("100755 "@)
            + name + seq![0u8] + id,
        entry_bytes(TreeEntryView { mode: EntryMode::Symlink, name, id }) == ascii("120000 "@)
            + name + seq![0u8] + id,
        entry_bytes(TreeEntryView { mode: EntryMode::Gitlink, name, id }) == ascii("160000 "@)
            + name + seq![0u8] + id,
        entry_bytes(TreeEntryView { mode: EntryMode::Tree, name, id }) == ascii("40000 "@) + name
            + seq![0u8] + id,
{
    reveal_strlit("100644");
    reveal_strlit("100755");
    reveal_strlit("120000");
    reveal_strlit("160000");
    reveal_strlit("40000");
    reveal_strlit("100644 ");
    reveal_strlit("100755 ");
    reveal_strlit("120000 ");
    reveal_strlit("160000 ");
    reveal_strlit("40000 ");
    assert(ascii("100644"@) + seq![32u8] =~= ascii("100644 "@));
    assert(ascii("100755"@) + seq![32u8] =~= ascii("100755 "@));
    assert(ascii("120000"@) + seq![32u8] =~= ascii("120000 "@));
    assert(ascii("160000"@) + seq![32u8] =~= ascii("160000 "@));
    assert(ascii("40000"@) + seq![32u8] =~= ascii("40000 "@));
}

// ---------------------------------------------------------------------
// Commits and tags
// ---------------------------------------------------------------------

/// The line of a header.
pub open spec fn line_of(key: Seq<u8>, value: Seq<u8>) -> Seq<u8> {
    key + seq![32u8] + value + seq![10u8]
}

/// The lines of some headers.
pub open spec fn lines_of(hs: Seq<(Seq<u8>, Seq<u8>)>) -> Seq<u8>
    decreases hs.len(),
{
    if hs.len() == 0 {
        Seq::empty()
    } else {
        line_of(hs[0].0, hs[0].1) + lines_of(hs.skip(1))
    }
}

/// The lines of some parents.
pub open spec fn parent_lines(ids: Seq<Seq<u8>>) -> Seq<u8>
    decreases ids.len(),
{
    if ids.len() == 0 {
        Seq::empty()
    } else {
        line_of(ascii("parent"@), hex(ids[0])) + parent_lines(ids.skip(1))
    }
}

/// The bytes of two lists of headers one after the other.
proof fn headers_joined(a: Seq<(Seq<u8>, Seq<u8>)>, b: Seq<(Seq<u8>, Seq<u8>)>)
    ensures
        headers_bytes(a + b) == headers_bytes(a) + headers_bytes(b),
    decreases b.len(),
{
    if b.len() == 0 {
        assert(a + b =~= a);
        assert(headers_bytes(a) + headers_bytes(b) =~= headers_bytes(a));
    } else {
        headers_joined(a, b.drop_last());
        assert((a + b).drop_last() =~= a + b.drop_last());
        assert((a + b).last() == b.last());
        assert(headers_bytes(a + b) =~= headers_bytes(a) + headers_bytes(b));
    }
}

/// The bytes of one header.
proof fn header_alone(h: (Seq<u8>, Seq<u8>))
    ensures
        headers_bytes(seq![h]) == line_of(h.0, h.1),
{
    let s = seq![h];
    assert(s.drop_last() =~= Seq::<(Seq<u8>, Seq<u8>)>::empty());
    assert(headers_bytes(s.drop_last()).len() == 0);
    assert(header_line(h) + seq![10u8] =~= line_of(h.0, h.1));
    assert(headers_bytes(s) =~= line_of(h.0, h.1));
}

/// The bytes of headers are their lines.
proof fn headers_are_lines(hs: Seq<(Seq<u8>, Seq<u8>)>)
    ensures
        headers_bytes(hs) == lines_of(hs),
    decreases hs.len(),
{
    if hs.len() > 0 {
        headers_are_lines(hs.skip(1));
        headers_joined(seq![hs[0]], hs.skip(1));
        header_alone(hs[0]);
        assert(seq![hs[0]] + hs.skip(1) =~= hs);
    }
}

/// The bytes of the parents' headers are their lines.
proof fn parents_are_lines(ids: Seq<Seq<u8>>)
    ensures
        headers_bytes(super::commit::parent_headers(ids)) == parent_lines(ids),
    decreases ids.len(),
{
    let hs = super::commit::parent_headers(ids);
    if ids.len() > 0 {
        parents_are_lines(ids.skip(1));
        let h = (ascii("parent"@), hex(ids[0]));
        header_alone(h);
        headers_joined(seq![h], super::commit::parent_headers(ids.skip(1)));
        assert(hs =~= seq![h] + super::commit::parent_headers(ids.skip(1)));
    } else {
        assert(hs.len() == 0);
    }
}

/// Law: a commit is written as the lines of its tree, its parents in order, its
/// author, its committer and its other headers in order, an empty line and its
/// message.
pub proof fn law_commit_payload(c: CommitView)
    ensures
        commit_payload(c) == line_of(ascii("tree"@), hex(c.tree)) + parent_lines(c.parents)
            + line_of(ascii("author"@), c.author.raw) + line_of(
            ascii("committer"@),
            c.committer.raw,
        ) + lines_of(c.extra_headers) + seq![10u8] + c.message,
{
    let t = (ascii("tree"@), hex(c.tree));
    let a = (ascii("author"@), c.author.raw);
    let m = (ascii("committer"@), c.committer.raw);
    let ps = super::commit::parent_headers(c.parents);
    let front = seq![t] + ps;
    let two = seq![a, m];
    headers_joined(front + two, c.extra_headers);
    headers_joined(front, two);
    headers_joined(seq![t], ps);
    headers_joined(seq![a], seq![m]);
    assert(seq![a] + seq![m] =~= two);
    header_alone(t);
    header_alone(a);
    header_alone(m);
    parents_are_lines(c.parents);
    headers_are_lines(c.extra_headers);
    assert(commit_payload(c) =~= line_of(ascii("tree"@), hex(c.tree)) + parent_lines(c.parents)
        + line_of(ascii("author"@), c.author.raw) + line_of(ascii("committer"@), c.committer.raw)
        + lines_of(c.extra_headers) + seq![10u8] + c.message);
}

/// Law: a tag is written as the lines of its object, the object's kind, its
/// name, its tagger and its other headers in order, an empty line and its
/// message.
pub proof fn law_tag_payload(t: TagView)
    ensures
        tag_payload(t) == line_of(ascii("object"@), hex(t.object)) + line_of(
            ascii("type"@),
            ascii(
                match t.object_kind {
                    ObjectKind::Blob => "blob"@,
                    ObjectKind::Tree => "tree"@,
                    ObjectKind::Commit => "commit"@,
                    ObjectKind::Tag => "tag"@,
                },
            ),
        ) + line_of(ascii("tag"@), t.name) + line_of(ascii("tagger"@), t.tagger.raw) + lines_of(
            t.extra_headers,
        ) + seq![10u8] + t.message,
{
    let a = (ascii("object"@), hex(t.object));
    let b = (ascii("type"@), ascii(t.object_kind.token()));
    let c = (ascii("tag"@), t.name);
    let d = (ascii("tagger"@), t.tagger.raw);
    let own = seq![a, b, c, d];
    headers_joined(own, t.extra_headers);
    headers_are_lines(t.extra_headers);
    headers_joined(seq![a, b], seq![c, d]);
    headers_joined(seq![a], seq![b]);
    headers_joined(seq![c], seq![d]);
    assert(seq![a] + seq![b] =~= seq![a, b]);
    assert(seq![c] + seq![d] =~= seq![c, d]);
    assert(seq![a, b] + seq![c, d] =~= own);
    header_alone(a);
    header_alone(b);
    header_alone(c);
    header_alone(d);
    let w = line_of(a.0, a.1) + line_of(b.0, b.1) + line_of(c.0, c.1) + line_of(d.0, d.1);
    assert(headers_bytes(own) =~= w);
    assert(tag_payload(t) =~= w + lines_of(t.extra_headers) + seq![10u8] + t.message);
}

/// Law: the frame of an object is the word for its kind, a space, the payload's
/// length, a NUL and the payload: a blob's bytes, or what a tree, commit or tag
/// is written as.
pub proof fn law_framed(o: ObjectView)
    ensures
        o.framed() == ascii(
            match o {
                ObjectView::Blob(_) => "blob"@,
                ObjectView::Tree(_) => "tree"@,
                ObjectView::Commit(_) => "commit"@,
                ObjectView::Tag(_) => "tag"@,
            },
        ) + seq![32u8] + decimal(o.payload().len()) + seq![0u8] + o.payload(),
        o.payload() == match o {
            ObjectView::Blob(data) => data,
            ObjectView::Tree(es) => tree_payload(es),
            ObjectView::Commit(c) => commit_payload(c),
            ObjectView::Tag(t) => tag_payload(t),
        },
{
}

/// Law: a word stands for a kind, and digits for a mode, just where the kind or
/// mode is written so; a tree's digits may have a zero before them.
pub proof fn law_words(w: Seq<u8>, kind: ObjectKind, mode: EntryMode)
    ensures
        super::kind_of_token(w) == Some(kind) <==> w == ascii(
            match kind {
                ObjectKind::Blob => "blob"@,
                ObjectKind::Tree => "tree"@,
                ObjectKind::Commit => "commit"@,
                ObjectKind::Tag => "tag"@,
            },
        ),
        super::tree::mode_of_octal(w) == Some(mode) <==> w == ascii(
            match mode {
                EntryMode::Regular => "100644"@,
                EntryMode::Executable => "100755"@,
                EntryMode::Tree => "40000"@,
                EntryMode::Symlink => "120000"@,
                EntryMode::Gitlink => "160000"@,
            },
        ) || (mode == EntryMode::Tree && w == ascii("040000"@)),
{
    reveal_strlit("blob");
    reveal_strlit("tree");
    reveal_strlit("commit");
    reveal_strlit("tag");
    reveal_strlit("100644");
    reveal_strlit("100755");
    reveal_strlit("40000");
    reveal_strlit("040000");
    reveal_strlit("120000");
    reveal_strlit("160000");
    if w == ascii("blob"@) {
        assert(w[0] == 98);
    }
    if w == ascii("tree"@) {
        assert(w[0] == 116 && w.len() == 4);
    }
    if w == ascii("commit"@) {
        assert(w[0] == 99);
    }
    if w == ascii("tag"@) {
        assert(w.len() == 3);
    }
    if w == ascii("100644"@) {
        assert(w[0] == 49 && w[1] == 48 && w[3] == 54);
    }
    if w == ascii("100755"@) {
        assert(w[0] == 49 && w[1] == 48 && w[3] == 55);
    }
    if w == ascii("40000"@) {
        assert(w.len() == 5);
    }
    if w == ascii("040000"@) {
        assert(w[0] == 48);
    }
    if w == ascii("120000"@) {
        assert(w[0] == 49 && w[1] == 50);
    }
    if w == ascii("160000"@) {
        assert(w[0] == 49 && w[1] == 54);
    }
}

} // verus!
