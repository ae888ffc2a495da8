//! What is read from bytes in canonical form is written as the same bytes.

use vstd::prelude::*;

use super::commit::{
    commit_headers, commit_keys, commit_payload, extra_of, first_fault, line_fault, parent_ids,
    payload_commit, push_line,
};
use super::headers::{
    blank_line, blank_line_spec, first_value, has_separator, header_line, header_lines,
    headers_bytes, headers_bytes_first, key_of, line_end, line_end_spec, line_ends_at,
    line_is_header_line, logical_lines, value_of,
};
use super::tag::{
    payload_tag, push_tag_line, tag_extra_of, tag_first_fault, tag_headers, tag_keys,
    tag_line_fault, tag_payload,
};
use super::tree::{
    canonical_fixed, entries_bytes, entry_bytes, first_entry, first_entry_bounds, keys_sorted,
    names_unique, payload_tree, tree_payload,
};
use super::{id_from_hex, law_frame_unframe, loose_object, unframe, ObjectKind};
use crate::bytes::{ascii, upto, upto_spec, LF, NUL, SPACE};
use crate::notation::{all_hex, hex, nibble_digit, nibble_value, unhex};

verus! {

/// A header block that ends in a line feed is made of its logical lines.
proof fn block_is_its_lines(h: Seq<u8>, hs: Seq<(Seq<u8>, Seq<u8>)>)
    requires
        h.len() > 0 ==> h.last() == LF,
        logical_lines(h) == header_lines(hs),
    ensures
        headers_bytes(hs) == h,
    decreases h.len(),
{
    let lines = logical_lines(h);
    if h.len() == 0 {
        assert(hs.len() == header_lines(hs).len());
        assert(headers_bytes(hs) =~= h);
    } else {
        line_end_spec(h);
        let e = line_end(h);
        let n = h.len() as int;
        if e == n {
            assert(!line_ends_at(h, n - 1));
        }
        let rest = h.skip(e + 1);
        let tail = hs.drop_first();
        assert(lines[0] == h.take(e));
        assert(hs.len() == lines.len());
        assert(header_lines(hs)[0] == header_line(hs[0]));
        assert(logical_lines(rest) =~= lines.drop_first());
        assert(header_lines(tail) =~= lines.drop_first()) by {
            assert forall|i: int| 0 <= i < tail.len() implies header_lines(tail)[i]
                == lines.drop_first()[i] by {
                assert(header_lines(hs)[i + 1] == header_line(hs[i + 1]));
            }
        }
        if rest.len() > 0 {
            assert(rest.last() == h.last());
        }
        block_is_its_lines(rest, tail);
        headers_bytes_first(hs);
        assert(h =~= h.take(e) + seq![LF] + rest);
    }
}

/// Law: a commit whose header lines are those it is written with is written
/// as the bytes that it was read from.
pub proof fn law_commit_bytes(p: Seq<u8>)
    requires
        payload_commit(p) is Ok,
        logical_lines(p.take(blank_line(p)->0 + 1)) == header_lines(
            commit_headers(payload_commit(p)->Ok_0),
        ),
    ensures
        commit_payload(payload_commit(p)->Ok_0) == p,
{
    let i = blank_line(p)->0;
    blank_line_spec(p);
    let h = p.take(i + 1);
    assert(h.last() == p[i]);
    block_is_its_lines(h, commit_headers(payload_commit(p)->Ok_0));
    assert(p =~= h + seq![LF] + p.skip(i + 2));
}

/// Law: a tag whose header lines are those it is written with is written as
/// the bytes that it was read from.
pub proof fn law_tag_bytes(p: Seq<u8>)
    requires
        payload_tag(p) is Ok,
        logical_lines(p.take(blank_line(p)->0 + 1)) == header_lines(
            tag_headers(payload_tag(p)->Ok_0),
        ),
    ensures
        tag_payload(payload_tag(p)->Ok_0) == p,
{
    let i = blank_line(p)->0;
    blank_line_spec(p);
    let h = p.take(i + 1);
    assert(h.last() == p[i]);
    block_is_its_lines(h, tag_headers(payload_tag(p)->Ok_0));
    assert(p =~= h + seq![LF] + p.skip(i + 2));
}

// ---------------------------------------------------------------------
// Headers in order
// ---------------------------------------------------------------------

/// No byte is an uppercase hexadecimal digit.
pub open spec fn no_upper_hex(s: Seq<u8>) -> bool {
    forall|i: int| 0 <= i < s.len() ==> !(65 <= #[trigger] s[i] <= 70)
}

/// Lowercase hexadecimal digits are the notation of the id they denote.
proof fn lower_hex_is_notation(s: Seq<u8>)
    requires
        id_from_hex(s) is Some,
        no_upper_hex(s),
    ensures
        hex(id_from_hex(s)->0) == s,
{
    let u = unhex(s);
    assert(all_hex(s));
    assert forall|i: int| 0 <= i < s.len() implies #[trigger] hex(u)[i] == s[i] by {
        let j = i / 2;
        assert(nibble_value(s[2 * j]) is Some && nibble_value(s[2 * j + 1]) is Some);
        let a = nibble_value(s[2 * j])->0 as int;
        let b = nibble_value(s[2 * j + 1])->0 as int;
        assert(0 <= a < 16 && 0 <= b < 16);
        assert(u[j] as int == a * 16 + b);
        assert((a * 16 + b) / 16 == a && (a * 16 + b) % 16 == b);
        assert(nibble_digit(a) == s[2 * j] && nibble_digit(b) == s[2 * j + 1]);
    }
    assert(hex(u) =~= s);
}

/// The header lines of a commit in the order in which they are written:
/// the tree, `n` parents, author, committer, then what is no parent; ids in
/// lowercase.
pub open spec fn commit_in_order(lines: Seq<Seq<u8>>, n: int) -> bool {
    &&& 0 <= n
    &&& n + 3 <= lines.len()
    &&& key_of(lines[0]) == ascii("tree"@)
    &&& forall|i: int| 1 <= i <= n ==> key_of(#[trigger] lines[i]) == ascii("parent"@)
    &&& key_of(lines[n + 1]) == ascii("author"@)
    &&& key_of(lines[n + 2]) == ascii("committer"@)
    &&& forall|i: int| n + 2 < i < lines.len() ==> key_of(#[trigger] lines[i]) != ascii("parent"@)
    &&& forall|i: int| 0 <= i <= n ==> no_upper_hex(value_of(#[trigger] lines[i]))
}

/// Where no line is faulty, each one alone is not.
proof fn lines_faultless(lines: Seq<Seq<u8>>)
    requires
        first_fault(lines) is None,
    ensures
        forall|i: int| 0 <= i < lines.len() ==> line_fault(#[trigger] lines[i]) is None,
    decreases lines.len(),
{
    if lines.len() > 0 {
        let t = lines.drop_last();
        lines_faultless(t);
        assert forall|i: int| 0 <= i < lines.len() implies line_fault(
            #[trigger] lines[i],
        ) is None by {
            if i < t.len() {
                assert(t[i] == lines[i]);
            }
        }
    }
}

/// What ordered lines up to the `k`-th parent hold.
proof fn ordered_parents(lines: Seq<Seq<u8>>, n: int, k: int)
    requires
        commit_in_order(lines, n),
        first_fault(lines) is None,
        0 <= k <= n,
    ensures
        ({
            let part = lines.take(1 + k);
            &&& first_value(part, ascii("tree"@)) == Some(value_of(lines[0]))
            &&& first_value(part, ascii("author"@)) is None
            &&& first_value(part, ascii("committer"@)) is None
            &&& parent_ids(part).len() == k
            &&& forall|i: int|
                0 <= i < k ==> hex(#[trigger] parent_ids(part)[i]) == value_of(lines[i + 1])
            &&& extra_of(part).len() == 0
        }),
    decreases k,
{
    commit_keys();
    lines_faultless(lines);
    let part = lines.take(1 + k);
    if k == 0 {
        assert(part =~= Seq::<Seq<u8>>::empty().push(lines[0]));
        push_line(Seq::empty(), lines[0]);
    } else {
        ordered_parents(lines, n, k - 1);
        assert(part =~= lines.take(k).push(lines[k]));
        push_line(lines.take(k), lines[k]);
        lower_hex_is_notation(value_of(lines[k]));
    }
}

/// What ordered lines up to the `k`-th extra header hold.
proof fn ordered_extras(lines: Seq<Seq<u8>>, n: int, k: int)
    requires
        commit_in_order(lines, n),
        first_fault(lines) is None,
        0 <= k <= lines.len() - n - 3,
    ensures
        ({
            let part = lines.take(3 + n + k);
            &&& first_value(part, ascii("tree"@)) == Some(value_of(lines[0]))
            &&& first_value(part, ascii("author"@)) == Some(value_of(lines[n + 1]))
            &&& first_value(part, ascii("committer"@)) == Some(value_of(lines[n + 2]))
            &&& parent_ids(part).len() == n
            &&& forall|i: int|
                0 <= i < n ==> hex(#[trigger] parent_ids(part)[i]) == value_of(lines[i + 1])
            &&& extra_of(part).len() == k
            &&& forall|i: int|
                0 <= i < k ==> #[trigger] extra_of(part)[i] == (
                    key_of(lines[n + 3 + i]),
                    value_of(lines[n + 3 + i]),
                )
        }),
    decreases k,
{
    commit_keys();
    let part = lines.take(3 + n + k);
    if k == 0 {
        ordered_parents(lines, n, n);
        assert(lines.take(2 + n) =~= lines.take(1 + n).push(lines[n + 1]));
        push_line(lines.take(1 + n), lines[n + 1]);
        assert(part =~= lines.take(2 + n).push(lines[n + 2]));
        push_line(lines.take(2 + n), lines[n + 2]);
    } else {
        ordered_extras(lines, n, k - 1);
        assert(part =~= lines.take(2 + n + k).push(lines[2 + n + k]));
        push_line(lines.take(2 + n + k), lines[2 + n + k]);
    }
}

/// Law: a commit with its headers in order (the tree, parents, author,
/// committer, others) and its ids in lowercase is written as the bytes that
/// it was read from.
pub proof fn law_ordered_commit_bytes(p: Seq<u8>, parents: int)
    requires
        payload_commit(p) is Ok,
        commit_in_order(logical_lines(p.take(blank_line(p)->0 + 1)), parents),
    ensures
        commit_payload(payload_commit(p)->Ok_0) == p,
{
    let n = parents;
    let lines = logical_lines(p.take(blank_line(p)->0 + 1));
    let c = payload_commit(p)->Ok_0;
    let hs = commit_headers(c);
    commit_keys();
    ordered_extras(lines, n, lines.len() - n - 3);
    assert(lines.take(lines.len() as int) =~= lines);
    lines_faultless(lines);
    lower_hex_is_notation(value_of(lines[0]));
    assert forall|i: int| 0 <= i < lines.len() implies #[trigger] header_lines(hs)[i]
        == lines[i] by {
        assert(line_fault(lines[i]) is None);
        line_is_header_line(lines[i]);
        if 1 <= i <= n {
            assert(hs[i] == (ascii("parent"@), hex(c.parents[i - 1])));
        } else if i > n + 2 {
            assert(hs[i] == c.extra_headers[i - n - 3]);
        }
        assert(hs[i] == (key_of(lines[i]), value_of(lines[i])));
    }
    assert(header_lines(hs) =~= lines);
    law_commit_bytes(p);
}

/// The header lines of a tag in the order in which they are written: the
/// object with its id in lowercase, its type, the tag's name, the tagger,
/// then the others.
pub open spec fn tag_in_order(lines: Seq<Seq<u8>>) -> bool {
    &&& 4 <= lines.len()
    &&& key_of(lines[0]) == ascii("object"@)
    &&& no_upper_hex(value_of(lines[0]))
    &&& key_of(lines[1]) == ascii("type"@)
    &&& key_of(lines[2]) == ascii("tag"@)
    &&& key_of(lines[3]) == ascii("tagger"@)
}

/// Where no line is faulty, each one has a separator.
proof fn tag_lines_separated(lines: Seq<Seq<u8>>)
    requires
        tag_first_fault(lines) is None,
    ensures
        forall|i: int| 0 <= i < lines.len() ==> has_separator(#[trigger] lines[i]),
    decreases lines.len(),
{
    if lines.len() > 0 {
        let t = lines.drop_last();
        tag_lines_separated(t);
        assert(tag_line_fault(t, lines.last()) is None);
        assert forall|i: int| 0 <= i < lines.len() implies has_separator(#[trigger] lines[i]) by {
            if i < t.len() {
                assert(t[i] == lines[i]);
            }
        }
    }
}

/// What ordered lines up to the `k`-th extra header hold.
proof fn ordered_tag(lines: Seq<Seq<u8>>, k: int)
    requires
        tag_in_order(lines),
        0 <= k <= lines.len() - 4,
    ensures
        ({
            let part = lines.take(4 + k);
            &&& first_value(part, ascii("object"@)) == Some(value_of(lines[0]))
            &&& first_value(part, ascii("type"@)) == Some(value_of(lines[1]))
            &&& first_value(part, ascii("tag"@)) == Some(value_of(lines[2]))
            &&& first_value(part, ascii("tagger"@)) == Some(value_of(lines[3]))
            &&& tag_extra_of(part).len() == k
            &&& forall|i: int|
                0 <= i < k ==> #[trigger] tag_extra_of(part)[i] == (
                    key_of(lines[4 + i]),
                    value_of(lines[4 + i]),
                )
        }),
    decreases k,
{
    tag_keys();
    let part = lines.take(4 + k);
    if k == 0 {
        let e = Seq::<Seq<u8>>::empty();
        let l1 = e.push(lines[0]);
        let l2 = l1.push(lines[1]);
        let l3 = l2.push(lines[2]);
        assert(part =~= l3.push(lines[3]));
        push_tag_line(e, lines[0]);
        push_tag_line(l1, lines[1]);
        push_tag_line(l2, lines[2]);
        push_tag_line(l3, lines[3]);
    } else {
        ordered_tag(lines, k - 1);
        assert(part =~= lines.take(3 + k).push(lines[3 + k]));
        push_tag_line(lines.take(3 + k), lines[3 + k]);
    }
}

/// Law: a tag with its headers in order (object, type, tag, tagger, others)
/// and its object's id in lowercase is written as the bytes that it was read
/// from.
pub proof fn law_ordered_tag_bytes(p: Seq<u8>)
    requires
        payload_tag(p) is Ok,
        tag_in_order(logical_lines(p.take(blank_line(p)->0 + 1))),
    ensures
        tag_payload(payload_tag(p)->Ok_0) == p,
{
    let lines = logical_lines(p.take(blank_line(p)->0 + 1));
    let t = payload_tag(p)->Ok_0;
    let hs = tag_headers(t);
    tag_keys();
    ordered_tag(lines, lines.len() - 4);
    assert(lines.take(lines.len() as int) =~= lines);
    tag_lines_separated(lines);
    super::tag::tag_faultless_fields(lines);
    lower_hex_is_notation(value_of(lines[0]));
    assert forall|i: int| 0 <= i < lines.len() implies #[trigger] header_lines(hs)[i]
        == lines[i] by {
        line_is_header_line(lines[i]);
        if i >= 4 {
            assert(hs[i] == t.extra_headers[i - 4]);
        }
        assert(hs[i] == (key_of(lines[i]), value_of(lines[i])));
    }
    assert(header_lines(hs) =~= lines);
    law_tag_bytes(p);
}

// ---------------------------------------------------------------------
// Trees
// ---------------------------------------------------------------------

/// No entry of the payload has its mode written with a leading zero.
pub open spec fn modes_plain(p: Seq<u8>) -> bool
    decreases p.len(),
{
    match first_entry(p) {
        Ok((_, n)) => p.len() > 0 && 0 < n <= p.len() ==> p.take(upto(p, SPACE)) != ascii(
            "040000"@,
        ) && modes_plain(p.skip(n)),
        Err(_) => true,
    }
}

/// Law: a tree payload in which no mode has a leading zero is made of the
/// entries read from it.
pub proof fn law_entries_bytes(p: Seq<u8>)
    requires
        payload_tree(p) is Ok,
        modes_plain(p),
    ensures
        entries_bytes(payload_tree(p)->Ok_0) == p,
    decreases p.len(),
{
    if p.len() == 0 {
        assert(entries_bytes(payload_tree(p)->Ok_0) =~= p);
    } else {
        first_entry_bounds(p);
        let (e, n) = first_entry(p)->Ok_0;
        law_entries_bytes(p.skip(n));
        let es = payload_tree(p)->Ok_0;
        let sp = upto(p, SPACE);
        upto_spec(p, SPACE);
        let after = p.skip(sp + 1);
        let nul = upto(after, NUL);
        upto_spec(after, NUL);
        assert(ascii(e.mode.octal()) == p.take(sp));
        assert(entry_bytes(e) =~= p.take(n)) by {
            assert(p[sp] == SPACE);
            assert(after[nul] == NUL);
        }
        assert(es.drop_first() =~= payload_tree(p.skip(n))->Ok_0);
        assert(p =~= p.take(n) + p.skip(n));
    }
}

/// Law: a tree whose entries stand in order with distinct names, none of
/// them with a leading zero in its mode, is written as the bytes that it was
/// read from.
pub proof fn law_tree_bytes(p: Seq<u8>)
    requires
        payload_tree(p) is Ok,
        modes_plain(p),
        keys_sorted(payload_tree(p)->Ok_0),
        names_unique(payload_tree(p)->Ok_0),
    ensures
        tree_payload(payload_tree(p)->Ok_0) == p,
{
    law_entries_bytes(p);
    canonical_fixed(payload_tree(p)->Ok_0);
}

// ---------------------------------------------------------------------
// Frames
// ---------------------------------------------------------------------

/// A payload in the form in which objects of its kind are written: any
/// blob; a tree with sorted, distinct and plainly written entries; a commit
/// or a tag with its headers in order.
pub open spec fn payload_in_order(kind: ObjectKind, p: Seq<u8>) -> bool {
    match kind {
        ObjectKind::Blob => true,
        ObjectKind::Tree => modes_plain(p) && keys_sorted(payload_tree(p)->Ok_0) && names_unique(
            payload_tree(p)->Ok_0,
        ),
        ObjectKind::Commit => exists|parents: int|
            #[trigger]
            commit_in_order(logical_lines(p.take(blank_line(p)->0 + 1)), parents),
        ObjectKind::Tag => tag_in_order(logical_lines(p.take(blank_line(p)->0 + 1))),
    }
}

/// Law: an object whose payload has the form in which such objects are
/// written is framed as the very bytes that it was read from.
pub proof fn law_object_bytes(f: Seq<u8>)
    requires
        loose_object(f) is Ok,
        payload_in_order(unframe(f)->Ok_0.0, unframe(f)->Ok_0.1),
    ensures
        loose_object(f)->Ok_0.framed() == f,
{
    law_frame_unframe(f);
    let (kind, p) = unframe(f)->Ok_0;
    match kind {
        ObjectKind::Blob => {},
        ObjectKind::Tree => law_tree_bytes(p),
        ObjectKind::Commit => {
            let n = choose|parents: int|
                #[trigger]
                commit_in_order(logical_lines(p.take(blank_line(p)->0 + 1)), parents);
            law_ordered_commit_bytes(p, n);
        },
        ObjectKind::Tag => law_ordered_tag_bytes(p),
    }
}

} // verus!
