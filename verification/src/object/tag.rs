//! Annotated tags: parsing and writing.

use vstd::prelude::*;

use super::commit::{
    headers_bytes_push, headers_view, hex_header_ok, id_field, opt_id, opt_sig, push_header,
    sig_field,
};
use super::headers::{
    blank_at, blank_line, blank_line_spec, find_blank_line, find_logical_header_end, first_value,
    has_separator, headed_payload, header_line, header_line_splits, header_lines, header_ok,
    headers_bytes, headers_ok, key_of, law_blank_line, law_logical_lines, line_is_header_line,
    line_ok, logical_lines, read_lines_ok, value_of,
};
use super::signature::{opt_view, parse_signature, signature_of, Signature, SignatureView};
use super::{
    id_from_hex, kind_of_token, kind_token_facts, parse_kind_token, ObjectId, ObjectKind,
    ParseError, ParseErrorView,
};
use crate::bytes::{ascii, find, push_all, same_bytes, text, to_vec, upto_spec, LF, SPACE};
use crate::notation::{hex, hex_round_trip};

verus! {

/// A Git annotated tag.
#[derive(Clone, Debug, PartialEq, Eq)]
pub struct Tag {
    /// The object this tag points to.
    pub object: ObjectId,
    /// The kind of the object pointed to.
    pub object_kind: ObjectKind,
    /// The tag name: bytes, not necessarily UTF-8.
    pub name: Vec<u8>,
    pub tagger: Signature,
    /// The other headers and repeated ones, as they are and in order.
    pub extra_headers: Vec<(Vec<u8>, Vec<u8>)>,
    /// The message, inline signatures included.
    pub message: Vec<u8>,
}

/// What a tag holds.
pub struct TagView {
    pub object: Seq<u8>,
    pub object_kind: ObjectKind,
    pub name: Seq<u8>,
    pub tagger: SignatureView,
    pub extra_headers: Seq<(Seq<u8>, Seq<u8>)>,
    pub message: Seq<u8>,
}

impl View for Tag {
    type V = TagView;

    open spec fn view(&self) -> TagView {
        TagView {
            object: self.object@,
            object_kind: self.object_kind,
            name: self.name@,
            tagger: self.tagger@,
            extra_headers: headers_view(self.extra_headers@),
            message: self.message@,
        }
    }
}

/// The kind that the first `type` line names.
pub open spec fn kind_field(lines: Seq<Seq<u8>>) -> Option<ObjectKind> {
    match first_value(lines, ascii("type"@)) {
        Some(v) => kind_of_token(v),
        None => None,
    }
}

/// What is wrong with the header line behind `before`, if anything. A
/// repeated header is not looked at.
pub open spec fn tag_line_fault(before: Seq<Seq<u8>>, line: Seq<u8>) -> Option<ParseErrorView> {
    let key = key_of(line);
    let value = value_of(line);
    if !has_separator(line) {
        Some(ParseErrorView::MissingHeader("header value separator"@))
    } else if first_value(before, key) is Some {
        None
    } else if key == ascii("object"@) && id_from_hex(value) is None {
        Some(ParseErrorView::InvalidHex)
    } else if key == ascii("type"@) && kind_of_token(value) is None {
        Some(ParseErrorView::UnknownKind(value))
    } else if key == ascii("tagger"@) && signature_of(value) is None {
        Some(ParseErrorView::InvalidSignature)
    } else {
        None
    }
}

/// Whether the header behind `before` is kept as an extra one: it is none of
/// the tag's own headers, or repeats one.
pub open spec fn tag_is_extra(before: Seq<Seq<u8>>, line: Seq<u8>) -> bool {
    let key = key_of(line);
    (key == ascii("object"@) || key == ascii("type"@) || key == ascii("tag"@) || key == ascii(
        "tagger"@,
    )) ==> first_value(before, key) is Some
}

/// The extra headers, in order.
pub open spec fn tag_extra_of(lines: Seq<Seq<u8>>) -> Seq<(Seq<u8>, Seq<u8>)>
    decreases lines.len(),
{
    if lines.len() == 0 {
        Seq::empty()
    } else if tag_is_extra(lines.drop_last(), lines.last()) {
        tag_extra_of(lines.drop_last()).push((key_of(lines.last()), value_of(lines.last())))
    } else {
        tag_extra_of(lines.drop_last())
    }
}

/// What is wrong with the first faulty line.
pub open spec fn tag_first_fault(lines: Seq<Seq<u8>>) -> Option<ParseErrorView>
    decreases lines.len(),
{
    if lines.len() == 0 {
        None
    } else if tag_first_fault(lines.drop_last()) is Some {
        tag_first_fault(lines.drop_last())
    } else {
        tag_line_fault(lines.drop_last(), lines.last())
    }
}

/// The tag that header lines and a message make.
pub open spec fn lines_tag(lines: Seq<Seq<u8>>, message: Seq<u8>) -> Result<
    TagView,
    ParseErrorView,
> {
    if tag_first_fault(lines) is Some {
        Err(tag_first_fault(lines)->0)
    } else if first_value(lines, ascii("object"@)) is None {
        Err(ParseErrorView::MissingHeader("object"@))
    } else if first_value(lines, ascii("type"@)) is None {
        Err(ParseErrorView::MissingHeader("type"@))
    } else if first_value(lines, ascii("tag"@)) is None {
        Err(ParseErrorView::MissingHeader("tag"@))
    } else if first_value(lines, ascii("tagger"@)) is None {
        Err(ParseErrorView::MissingHeader("tagger"@))
    } else {
        Ok(
            TagView {
                object: id_from_hex(first_value(lines, ascii("object"@))->0)->0,
                object_kind: kind_of_token(first_value(lines, ascii("type"@))->0)->0,
                name: first_value(lines, ascii("tag"@))->0,
                tagger: signature_of(first_value(lines, ascii("tagger"@))->0)->0,
                extra_headers: tag_extra_of(lines),
                message,
            },
        )
    }
}

/// The tag that a payload holds, or why it holds none.
pub open spec fn payload_tag(p: Seq<u8>) -> Result<TagView, ParseErrorView> {
    match blank_line(p) {
        None => Err(ParseErrorView::MissingHeader("blank line"@)),
        Some(i) => lines_tag(logical_lines(p.take(i + 1)), p.skip(i + 2)),
    }
}

/// A fault among the first lines is the first fault.
proof fn tag_first_fault_concat(a: Seq<Seq<u8>>, b: Seq<Seq<u8>>)
    requires
        tag_first_fault(a) is Some,
    ensures
        tag_first_fault(a + b) == tag_first_fault(a),
    decreases b.len(),
{
    if b.len() == 0 {
        assert(a + b =~= a);
    } else {
        assert((a + b).drop_last() =~= a + b.drop_last());
        tag_first_fault_concat(a, b.drop_last());
    }
}

/// The header keys of a tag are ASCII, without spaces, and distinct.
pub proof fn tag_keys()
    ensures
        vstd::utf8::is_ascii_chars("object"@),
        vstd::utf8::is_ascii_chars("type"@),
        vstd::utf8::is_ascii_chars("tag"@),
        vstd::utf8::is_ascii_chars("tagger"@),
        ascii("object"@)[0] == 111 && ascii("object"@).len() == 6,
        ascii("type"@)[0] == 116 && ascii("type"@).len() == 4,
        ascii("tag"@)[0] == 116 && ascii("tag"@).len() == 3,
        ascii("tagger"@)[0] == 116 && ascii("tagger"@).len() == 6,
        forall|i: int| 0 <= i < ascii("object"@).len() ==> #[trigger] ascii("object"@)[i] >= 97,
        forall|i: int| 0 <= i < ascii("type"@).len() ==> #[trigger] ascii("type"@)[i] >= 97,
        forall|i: int| 0 <= i < ascii("tag"@).len() ==> #[trigger] ascii("tag"@)[i] >= 97,
        forall|i: int| 0 <= i < ascii("tagger"@).len() ==> #[trigger] ascii("tagger"@)[i] >= 97,
{
    reveal_strlit("object");
    reveal_strlit("type");
    reveal_strlit("tag");
    reveal_strlit("tagger");
}

/// Lines without fault have readable first values.
pub proof fn tag_faultless_fields(lines: Seq<Seq<u8>>)
    requires
        tag_first_fault(lines) is None,
    ensures
        first_value(lines, ascii("object"@)) matches Some(v) ==> id_from_hex(v) is Some,
        first_value(lines, ascii("type"@)) matches Some(v) ==> kind_of_token(v) is Some,
        first_value(lines, ascii("tagger"@)) matches Some(v) ==> signature_of(v) is Some,
    decreases lines.len(),
{
    tag_keys();
    if lines.len() > 0 {
        tag_faultless_fields(lines.drop_last());
    }
}

/// Parses a tag payload.
#[verifier::rlimit(40)]
pub fn parse_payload(payload: &[u8]) -> (r: Result<Tag, ParseError>)
    ensures
        match r {
            Ok(t) => payload_tag(payload@) == Ok::<_, ParseErrorView>(t@),
            Err(e) => payload_tag(payload@) == Err::<TagView, _>(e@),
        },
{
    let blank: usize = match find_blank_line(payload) {
        Some(i) => i,
        None => return Err(ParseError::MissingHeader("blank line")),
    };
    assert(payload.len() == payload@.len());
    let h = &payload[0..blank + 1];
    assert(h@ =~= payload@.take(blank + 1));
    let message = to_vec(&payload[blank + 2..payload.len()]);
    assert(message@ =~= payload@.skip(blank + 2));
    let ghost lines = logical_lines(h@);
    let mut object: Option<ObjectId> = None;
    let mut object_kind: Option<ObjectKind> = None;
    let mut name: Option<Vec<u8>> = None;
    let mut tagger: Option<Signature> = None;
    let mut extra_headers: Vec<(Vec<u8>, Vec<u8>)> = Vec::new();
    let ghost mut done: Seq<Seq<u8>> = Seq::empty();
    let mut cursor: usize = 0;
    proof {
        tag_keys();
        assert(h@.skip(0) =~= h@);
        assert(done + lines =~= lines);
        assert(headers_view(extra_headers@) =~= Seq::<(Seq<u8>, Seq<u8>)>::empty());
    }
    while cursor < h.len()
        invariant
            cursor <= h@.len(),
            lines == logical_lines(h@),
            payload_tag(payload@) == lines_tag(lines, message@),
            done + logical_lines(h@.skip(cursor as int)) == lines,
            tag_first_fault(done) is None,
            opt_id(object) == id_field(done, ascii("object"@)),
            object is Some <==> first_value(done, ascii("object"@)) is Some,
            object_kind == kind_field(done),
            object_kind is Some <==> first_value(done, ascii("type"@)) is Some,
            opt_view(name) == first_value(done, ascii("tag"@)),
            opt_sig(tagger) == sig_field(done, ascii("tagger"@)),
            tagger is Some <==> first_value(done, ascii("tagger"@)) is Some,
            headers_view(extra_headers@) == tag_extra_of(done),
        decreases h.len() - cursor,
    {
        proof {
            tag_keys();
            super::commit::next_line(h@, cursor as int, done);
        }
        let end: usize = find_logical_header_end(h, cursor);
        let line = &h[cursor..end];
        let ghost prev = done;
        proof {
            done = done.push(line@);
            assert(done.last() == line@);
            upto_spec(line@, SPACE);
            if tag_first_fault(done) is Some {
                let rest = logical_lines(h@.skip(if end < h@.len() { end + 1 } else { h@.len() as int }));
                tag_first_fault_concat(done, rest);
            }
        }
        let sp: usize = find(line, SPACE);
        if sp == line.len() {
            return Err(ParseError::MissingHeader("header value separator"));
        }
        let key = &line[0..sp];
        let value = &line[sp + 1..line.len()];
        assert(key@ =~= key_of(line@));
        assert(value@ =~= value_of(line@));
        let ghost extra_before = extra_headers@;
        let mut keep = false;
        if same_bytes(key, text("object")) && object.is_none() {
            match ObjectId::from_hex_bytes(value) {
                Ok(id) => object = Some(id),
                Err(_) => return Err(ParseError::InvalidHex),
            }
        } else if same_bytes(key, text("type")) && object_kind.is_none() {
            match parse_kind_token(value) {
                Ok(k) => object_kind = Some(k),
                Err(e) => return Err(e),
            }
        } else if same_bytes(key, text("tag")) && name.is_none() {
            name = Some(to_vec(value));
        } else if same_bytes(key, text("tagger")) && tagger.is_none() {
            match parse_signature(value) {
                Ok(s) => tagger = Some(s),
                Err(e) => return Err(e),
            }
        } else {
            keep = true;
        }
        assert(keep <==> tag_is_extra(prev, line@));
        if keep {
            extra_headers.push((to_vec(key), to_vec(value)));
            assert(headers_view(extra_headers@) =~= headers_view(extra_before).push(
                (key@, value@),
            ));
        }
        cursor = if end < h.len() {
            end + 1
        } else {
            h.len()
        };
    }
    proof {
        assert(h@.skip(cursor as int).len() == 0);
        assert(done =~= lines);
        tag_faultless_fields(lines);
    }
    let object = match object {
        Some(o) => o,
        None => return Err(ParseError::MissingHeader("object")),
    };
    let object_kind = match object_kind {
        Some(k) => k,
        None => return Err(ParseError::MissingHeader("type")),
    };
    let name = match name {
        Some(n) => n,
        None => return Err(ParseError::MissingHeader("tag")),
    };
    let tagger = match tagger {
        Some(t) => t,
        None => return Err(ParseError::MissingHeader("tagger")),
    };
    Ok(Tag { object, object_kind, name, tagger, extra_headers, message })
}

/// The headers of a tag in their canonical order.
pub open spec fn tag_headers(t: TagView) -> Seq<(Seq<u8>, Seq<u8>)> {
    seq![
        (ascii("object"@), hex(t.object)),
        (ascii("type"@), ascii(t.object_kind.token())),
        (ascii("tag"@), t.name),
        (ascii("tagger"@), t.tagger.raw),
    ] + t.extra_headers
}

/// The payload that a tag is written as.
pub open spec fn tag_payload(t: TagView) -> Seq<u8> {
    headed_payload(tag_headers(t), t.message)
}

/// Serializes a tag payload.
pub fn serialize_payload(tag: &Tag) -> (r: Vec<u8>)
    ensures
        r@ == tag_payload(tag@),
{
    proof {
        tag_keys();
        kind_token_facts(tag.object_kind);
    }
    let ghost hs = tag_headers(tag@);
    let mut out: Vec<u8> = Vec::new();
    let object_hex = tag.object.to_hex_bytes();
    push_header(&mut out, text("object"), &object_hex);
    push_header(&mut out, text("type"), text(tag.object_kind.as_str()));
    push_header(&mut out, text("tag"), &tag.name);
    push_header(&mut out, text("tagger"), &tag.tagger.raw);
    proof {
        reveal_with_fuel(headers_bytes, 5);
        let own = hs.take(4);
        assert(own.drop_last().drop_last().drop_last().drop_last() =~= Seq::<
            (Seq<u8>, Seq<u8>),
        >::empty());
        assert(out@ =~= headers_bytes(own));
    }
    let mut i: usize = 0;
    while i < tag.extra_headers.len()
        invariant
            i <= tag.extra_headers@.len(),
            hs == tag_headers(tag@),
            out@ == headers_bytes(hs.take(4 + i)),
        decreases tag.extra_headers.len() - i,
    {
        let header = &tag.extra_headers[i];
        proof {
            assert(hs[4 + i] == (header.0@, header.1@));
            headers_bytes_push(hs.take(4 + i), hs[4 + i]);
            assert(hs.take(4 + i).push(hs[4 + i]) =~= hs.take(5 + i));
        }
        push_header(&mut out, &header.0, &header.1);
        i += 1;
    }
    assert(hs.take(4 + i) =~= hs);
    out.push(LF);
    push_all(&mut out, &tag.message);
    assert(out@ =~= tag_payload(tag@));
    out
}

/// A tag that the format can carry.
pub open spec fn tag_ok(t: TagView) -> bool {
    &&& t.object.len() == 20
    &&& signature_of(t.tagger.raw) == Some(t.tagger)
    &&& header_ok((ascii("tag"@), t.name))
    &&& header_ok((ascii("tagger"@), t.tagger.raw))
    &&& forall|i: int| 0 <= i < t.extra_headers.len() ==> header_ok(#[trigger] t.extra_headers[i])
}

/// The canonical headers can be carried.
proof fn tag_headers_ok(t: TagView)
    requires
        tag_ok(t),
    ensures
        headers_ok(tag_headers(t)),
{
    tag_keys();
    let hs = tag_headers(t);
    hex_header_ok(ascii("object"@), t.object);
    kind_token_facts(t.object_kind);
    let type_line = header_line(hs[1]);
    assert(header_ok(hs[1])) by {
        assert forall|i: int| #![trigger type_line[i]] 0 <= i < type_line.len() implies type_line[i]
            != LF by {
            if i < 4 {
                assert(type_line[i] == ascii("type"@)[i]);
            } else if i > 4 {
                assert(type_line[i] == ascii(t.object_kind.token())[i - 5]);
            }
        }
        assert(type_line[0] == ascii("type"@)[0]);
    }
    assert forall|i: int| 0 <= i < hs.len() implies header_ok(#[trigger] hs[i]) by {
        if i >= 4 {
            assert(hs[i] == t.extra_headers[i - 4]);
        }
    }
}

/// What one more line adds to the reading of the lines before it.
pub proof fn push_tag_line(lines: Seq<Seq<u8>>, line: Seq<u8>)
    ensures
        tag_first_fault(lines) is None ==> tag_first_fault(lines.push(line)) == tag_line_fault(
            lines,
            line,
        ),
        forall|key: Seq<u8>| #[trigger]
            first_value(lines.push(line), key) == if first_value(lines, key) is Some {
                first_value(lines, key)
            } else if key_of(line) == key {
                Some(value_of(line))
            } else {
                None
            },
        tag_extra_of(lines.push(line)) == if tag_is_extra(lines, line) {
            tag_extra_of(lines).push((key_of(line), value_of(line)))
        } else {
            tag_extra_of(lines)
        },
{
    assert(lines.push(line).drop_last() =~= lines);
    assert(lines.push(line).last() == line);
}

/// What the lines of the canonical headers up to the `k`-th extra header
/// hold.
proof fn canonical_tag_lines(t: TagView, k: int)
    requires
        tag_ok(t),
        0 <= k <= t.extra_headers.len(),
    ensures
        ({
            let lines = header_lines(tag_headers(t)).take(4 + k);
            &&& tag_first_fault(lines) is None
            &&& first_value(lines, ascii("object"@)) == Some(hex(t.object))
            &&& first_value(lines, ascii("type"@)) == Some(ascii(t.object_kind.token()))
            &&& first_value(lines, ascii("tag"@)) == Some(t.name)
            &&& first_value(lines, ascii("tagger"@)) == Some(t.tagger.raw)
            &&& tag_extra_of(lines) == t.extra_headers.take(k)
        }),
    decreases k,
{
    tag_keys();
    tag_headers_ok(t);
    let hs = tag_headers(t);
    let all = header_lines(hs);
    let lines = all.take(4 + k);
    if k == 0 {
        hex_round_trip(t.object);
        kind_token_facts(t.object_kind);
        let e = Seq::<Seq<u8>>::empty();
        let l1 = e.push(header_line(hs[0]));
        let l2 = l1.push(header_line(hs[1]));
        let l3 = l2.push(header_line(hs[2]));
        assert(lines =~= l3.push(header_line(hs[3])));
        header_line_splits(hs[0]);
        header_line_splits(hs[1]);
        header_line_splits(hs[2]);
        header_line_splits(hs[3]);
        push_tag_line(e, header_line(hs[0]));
        push_tag_line(l1, header_line(hs[1]));
        push_tag_line(l2, header_line(hs[2]));
        push_tag_line(l3, header_line(hs[3]));
        assert(t.extra_headers.take(0) =~= Seq::<(Seq<u8>, Seq<u8>)>::empty());
    } else {
        canonical_tag_lines(t, k - 1);
        let h = t.extra_headers[k - 1];
        assert(hs[3 + k] == h);
        assert(header_ok(hs[3 + k]));
        header_line_splits(h);
        push_tag_line(all.take(3 + k), header_line(h));
        assert(lines =~= all.take(3 + k).push(header_line(h)));
        assert(t.extra_headers.take(k) =~= t.extra_headers.take(k - 1).push(h));
    }
}

/// Law: parsing a written tag gives the tag.
pub proof fn law_tag_round_trip(t: TagView)
    requires
        tag_ok(t),
    ensures
        payload_tag(tag_payload(t)) == Ok::<_, ParseErrorView>(t),
{
    let hs = tag_headers(t);
    tag_headers_ok(t);
    law_logical_lines(hs);
    law_blank_line(hs, t.message);
    let n = t.extra_headers.len() as int;
    canonical_tag_lines(t, n);
    let all = header_lines(hs);
    assert(all.take(4 + n) =~= all);
    assert(t.extra_headers.take(n) =~= t.extra_headers);
    hex_round_trip(t.object);
    kind_token_facts(t.object_kind);
    let p = tag_payload(t);
    let i = blank_line(p)->0;
    assert(p.take(i + 1) == headers_bytes(hs));
    assert(p.skip(i + 2) == t.message);
    assert(payload_tag(p) == lines_tag(all, t.message));
}

/// What the reading of carriable, faultless lines can be written as.
proof fn tag_fields_ok(lines: Seq<Seq<u8>>)
    requires
        tag_first_fault(lines) is None,
        forall|i: int| 0 <= i < lines.len() ==> line_ok(#[trigger] lines[i]),
    ensures
        forall|key: Seq<u8>| #[trigger]
            first_value(lines, key) is Some ==> header_ok((key, first_value(lines, key)->0)),
        forall|i: int|
            0 <= i < tag_extra_of(lines).len() ==> header_ok(#[trigger] tag_extra_of(lines)[i]),
    decreases lines.len(),
{
    if lines.len() > 0 {
        let t = lines.drop_last();
        let line = lines.last();
        assert forall|i: int| 0 <= i < t.len() implies line_ok(#[trigger] t[i]) by {
            assert(line_ok(lines[i]));
        }
        tag_fields_ok(t);
        assert(line_ok(lines[lines.len() - 1]));
        line_is_header_line(line);
        assert(header_ok((key_of(line), value_of(line))));
        assert forall|key: Seq<u8>| #[trigger] first_value(lines, key) is Some implies header_ok(
            (key, first_value(lines, key)->0),
        ) by {
            assert(first_value(t, key) is Some ==> header_ok((key, first_value(t, key)->0)));
        }
        let extra = tag_extra_of(lines);
        assert forall|i: int| 0 <= i < extra.len() implies header_ok(#[trigger] extra[i]) by {
            if i < tag_extra_of(t).len() {
                assert(extra[i] == tag_extra_of(t)[i]);
            }
        }
    }
}

/// Law: a tag that was read, written and read again is the same tag. A
/// payload that begins with a space or a line feed is left out: its first
/// line would be written behind another one and become part of it.
pub proof fn law_tag_stable(p: Seq<u8>)
    requires
        payload_tag(p) is Ok,
        p[0] != SPACE,
        p[0] != LF,
    ensures
        tag_ok(payload_tag(p)->Ok_0),
        payload_tag(tag_payload(payload_tag(p)->Ok_0)) == payload_tag(p),
{
    let i = blank_line(p)->0;
    blank_line_spec(p);
    let h = p.take(i + 1);
    assert forall|j: int| !#[trigger] blank_at(h, j) by {
        if blank_at(h, j) {
            assert(h[j] == p[j] && h[j + 1] == p[j + 1]);
            assert(blank_at(p, j));
        }
    }
    assert(h.last() == p[i]);
    read_lines_ok(h);
    let lines = logical_lines(h);
    tag_fields_ok(lines);
    tag_faultless_fields(lines);
    law_tag_round_trip(payload_tag(p)->Ok_0);
}

} // verus!
