//! What the headers of commits and tags say, in whatever order they stand.

use vstd::prelude::*;

use super::commit::{extra_of, first_fault, line_fault, parent_ids, payload_commit};
use super::headers::{
    first_value, headed_payload, header_line, header_line_splits, header_lines, header_ok,
    headers_ok, law_blank_line, law_logical_lines,
};
use super::signature::signature_of;
use super::tag::{payload_tag, tag_extra_of, tag_first_fault};
use super::{id_from_hex, kind_of_token};
use crate::bytes::ascii;

verus! {

/// The values of the headers with a key, in order.
pub open spec fn values_of(hs: Seq<(Seq<u8>, Seq<u8>)>, key: Seq<u8>) -> Seq<Seq<u8>>
    decreases hs.len(),
{
    if hs.len() == 0 {
        Seq::empty()
    } else if hs.last().0 == key {
        values_of(hs.drop_last(), key).push(hs.last().1)
    } else {
        values_of(hs.drop_last(), key)
    }
}

/// Whether a commit takes one header of this key only.
pub open spec fn single(key: Seq<u8>) -> bool {
    key == ascii("tree"@) || key == ascii("author"@) || key == ascii("committer"@)
}

/// The headers that are neither parents nor the first tree, author or
/// committer, in order.
pub open spec fn others_of(hs: Seq<(Seq<u8>, Seq<u8>)>) -> Seq<(Seq<u8>, Seq<u8>)>
    decreases hs.len(),
{
    if hs.len() == 0 {
        Seq::empty()
    } else if hs.last().0 == ascii("parent"@) || (single(hs.last().0) && values_of(
        hs.drop_last(),
        hs.last().0,
    ).len() == 0) {
        others_of(hs.drop_last())
    } else {
        others_of(hs.drop_last()).push(hs.last())
    }
}

/// Whether a header of a commit can be read.
pub open spec fn readable_header(h: (Seq<u8>, Seq<u8>)) -> bool {
    &&& h.0 == ascii("tree"@) || h.0 == ascii("parent"@) ==> id_from_hex(h.1) is Some
    &&& h.0 == ascii("author"@) || h.0 == ascii("committer"@) ==> signature_of(h.1) is Some
}

/// What the lines of headers say.
proof fn lines_say(hs: Seq<(Seq<u8>, Seq<u8>)>, key: Seq<u8>)
    requires
        headers_ok(hs),
    ensures
        first_value(header_lines(hs), key) == if values_of(hs, key).len() > 0 {
            Some(values_of(hs, key)[0])
        } else {
            None
        },
        parent_ids(header_lines(hs)).len() == values_of(hs, ascii("parent"@)).len(),
        forall|i: int|
            0 <= i < parent_ids(header_lines(hs)).len() ==> #[trigger] parent_ids(
                header_lines(hs),
            )[i] == id_from_hex(values_of(hs, ascii("parent"@))[i])->0,
        extra_of(header_lines(hs)) == others_of(hs),
        first_fault(header_lines(hs)) is None <==> forall|i: int|
            0 <= i < hs.len() ==> readable_header(#[trigger] hs[i]),
    decreases hs.len(),
{
    let ls = header_lines(hs);
    if hs.len() > 0 {
        let t = hs.drop_last();
        let h = hs.last();
        assert(header_ok(hs[hs.len() - 1]));
        assert forall|i: int| 0 <= i < t.len() implies header_ok(#[trigger] t[i]) by {
            assert(t[i] == hs[i]);
        }
        lines_say(t, key);
        lines_say(t, h.0);
        assert(ls.drop_last() =~= header_lines(t));
        assert(ls.last() == header_line(h));
        header_line_splits(h);
        super::commit::commit_keys();
        line_readable(h);
        if first_fault(ls) is None {
            assert forall|i: int| 0 <= i < hs.len() implies readable_header(#[trigger] hs[i]) by {
                if i < t.len() {
                    assert(hs[i] == t[i]);
                }
            }
        }
        if forall|i: int| 0 <= i < hs.len() ==> readable_header(#[trigger] hs[i]) {
            assert(readable_header(hs[hs.len() - 1]));
            assert forall|i: int| 0 <= i < t.len() implies readable_header(#[trigger] t[i]) by {
                assert(t[i] == hs[i]);
            }
        }
        assert(extra_of(ls) =~= others_of(hs));
    } else {
        assert(ls.len() == 0);
        assert(extra_of(ls) =~= others_of(hs));
    }
}

/// A header's line has a fault just where it cannot be read.
proof fn line_readable(h: (Seq<u8>, Seq<u8>))
    requires
        header_ok(h),
    ensures
        line_fault(header_line(h)) is None <==> readable_header(h),
{
    reveal_strlit("tree");
    reveal_strlit("parent");
    reveal_strlit("author");
    reveal_strlit("committer");
    header_line_splits(h);
    let (t, p, a, c) = (
        ascii("tree"@),
        ascii("parent"@),
        ascii("author"@),
        ascii("committer"@),
    );
    assert(t.len() == 4 && p.len() == 6 && a.len() == 6 && c.len() == 9);
    assert(p[0] == 112 && a[0] == 97);
}

/// Law: a commit is read from its headers, in whatever order they stand, if and
/// only if there are a tree, an author and a committer and all these and the
/// parents can be read. Of each key the first counts; the parents are all of
/// theirs in order, and every other header is kept, in order, with the message.
pub proof fn law_commit_read(hs: Seq<(Seq<u8>, Seq<u8>)>, message: Seq<u8>)
    requires
        headers_ok(hs),
        hs.len() > 0,
    ensures
        ({
            let r = payload_commit(headed_payload(hs, message));
            let trees = values_of(hs, ascii("tree"@));
            let parents = values_of(hs, ascii("parent"@));
            let authors = values_of(hs, ascii("author"@));
            let committers = values_of(hs, ascii("committer"@));
            &&& r is Ok <==> trees.len() > 0 && authors.len() > 0 && committers.len() > 0 && forall|
                i: int,
            |
                0 <= i < hs.len() ==> readable_header(#[trigger] hs[i])
            &&& r matches Ok(c) ==> {
                &&& id_from_hex(trees[0])->0 == c.tree
                &&& c.parents.len() == parents.len()
                &&& forall|i: int|
                    0 <= i < parents.len() ==> #[trigger] c.parents[i] == id_from_hex(
                        parents[i],
                    )->0
                &&& signature_of(authors[0])->0 == c.author
                &&& signature_of(committers[0])->0 == c.committer
                &&& c.extra_headers == others_of(hs)
                &&& c.message == message
            }
        }),
{
    law_logical_lines(hs);
    law_blank_line(hs, message);
    lines_say(hs, ascii("tree"@));
    lines_say(hs, ascii("author"@));
    lines_say(hs, ascii("committer"@));
    let p = headed_payload(hs, message);
    let i = super::headers::blank_line(p)->0;
    assert(p.take(i + 1) == super::headers::headers_bytes(hs));
    assert(p.skip(i + 2) == message);
    assert(payload_commit(p) == super::commit::lines_commit(header_lines(hs), message));
}

// ---------------------------------------------------------------------
// Tags
// ---------------------------------------------------------------------

/// Whether a key is one of a tag's own.
pub open spec fn tag_own(key: Seq<u8>) -> bool {
    key == ascii("object"@) || key == ascii("type"@) || key == ascii("tag"@) || key == ascii(
        "tagger"@,
    )
}

/// The headers that are not the first of one of a tag's own keys, in order.
pub open spec fn tag_others_of(hs: Seq<(Seq<u8>, Seq<u8>)>) -> Seq<(Seq<u8>, Seq<u8>)>
    decreases hs.len(),
{
    if hs.len() == 0 {
        Seq::empty()
    } else if tag_own(hs.last().0) && values_of(hs.drop_last(), hs.last().0).len() == 0 {
        tag_others_of(hs.drop_last())
    } else {
        tag_others_of(hs.drop_last()).push(hs.last())
    }
}

/// What the lines of a tag's headers say.
proof fn tag_lines_say(hs: Seq<(Seq<u8>, Seq<u8>)>)
    requires
        headers_ok(hs),
    ensures
        tag_extra_of(header_lines(hs)) == tag_others_of(hs),
        tag_first_fault(header_lines(hs)) is None <==> {
            let objects = values_of(hs, ascii("object"@));
            let kinds = values_of(hs, ascii("type"@));
            let taggers = values_of(hs, ascii("tagger"@));
            &&& objects.len() > 0 ==> id_from_hex(objects[0]) is Some
            &&& kinds.len() > 0 ==> kind_of_token(kinds[0]) is Some
            &&& taggers.len() > 0 ==> signature_of(taggers[0]) is Some
        },
    decreases hs.len(),
{
    let ls = header_lines(hs);
    if hs.len() > 0 {
        let t = hs.drop_last();
        let h = hs.last();
        assert(header_ok(hs[hs.len() - 1]));
        assert forall|i: int| 0 <= i < t.len() implies header_ok(#[trigger] t[i]) by {
            assert(t[i] == hs[i]);
        }
        tag_lines_say(t);
        lines_say(t, h.0);
        assert(ls.drop_last() =~= header_lines(t));
        assert(ls.last() == header_line(h));
        header_line_splits(h);
        assert(tag_extra_of(ls) =~= tag_others_of(hs));
        tag_keys_differ();
    } else {
        assert(ls.len() == 0);
        assert(tag_extra_of(ls) =~= tag_others_of(hs));
    }
}

/// The keys of a tag differ.
proof fn tag_keys_differ()
    ensures
        ascii("object"@) != ascii("type"@),
        ascii("object"@) != ascii("tagger"@),
        ascii("type"@) != ascii("tagger"@),
        ascii("tag"@) != ascii("object"@),
        ascii("tag"@) != ascii("type"@),
        ascii("tag"@) != ascii("tagger"@),
{
    reveal_strlit("object");
    reveal_strlit("type");
    reveal_strlit("tag");
    reveal_strlit("tagger");
    assert(ascii("tag"@).len() == 3 && ascii("type"@).len() == 4);
    assert(ascii("object"@)[0] == 111 && ascii("tagger"@)[0] == 116);
    assert(ascii("object"@).len() == 6 && ascii("tagger"@).len() == 6);
}

/// Law: a tag is read from its headers, in whatever order they stand, if and
/// only if there are an object, a kind, a name and a tagger and the first of
/// each can be read. Every other header is kept, in order, with the message.
pub proof fn law_tag_read(hs: Seq<(Seq<u8>, Seq<u8>)>, message: Seq<u8>)
    requires
        headers_ok(hs),
        hs.len() > 0,
    ensures
        ({
            let r = payload_tag(headed_payload(hs, message));
            let objects = values_of(hs, ascii("object"@));
            let kinds = values_of(hs, ascii("type"@));
            let names = values_of(hs, ascii("tag"@));
            let taggers = values_of(hs, ascii("tagger"@));
            &&& r is Ok <==> objects.len() > 0 && kinds.len() > 0 && names.len() > 0
                && taggers.len() > 0 && id_from_hex(objects[0]) is Some && kind_of_token(kinds[0])
                is Some && signature_of(taggers[0]) is Some
            &&& r matches Ok(t) ==> {
                &&& id_from_hex(objects[0]) == Some(t.object)
                &&& kind_of_token(kinds[0]) == Some(t.object_kind)
                &&& t.name == names[0]
                &&& signature_of(taggers[0]) == Some(t.tagger)
                &&& t.extra_headers == tag_others_of(hs)
                &&& t.message == message
            }
        }),
{
    law_logical_lines(hs);
    law_blank_line(hs, message);
    lines_say(hs, ascii("object"@));
    lines_say(hs, ascii("type"@));
    lines_say(hs, ascii("tag"@));
    lines_say(hs, ascii("tagger"@));
    tag_lines_say(hs);
    let p = headed_payload(hs, message);
    let i = super::headers::blank_line(p)->0;
    assert(p.take(i + 1) == super::headers::headers_bytes(hs));
    assert(p.skip(i + 2) == message);
    assert(payload_tag(p) == super::tag::lines_tag(header_lines(hs), message));
}

} // verus!
