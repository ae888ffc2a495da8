//! Commits: parsing and writing.

use vstd::prelude::*;

use super::headers::{
    blank_at, blank_line, blank_line_spec, find_blank_line, find_logical_header_end, first_value,
    has_separator, headed_payload, header_line, header_line_splits, header_lines, header_ok,
    headers_bytes, headers_ok, key_of, law_blank_line, law_logical_lines, line_end, line_end_spec,
    line_is_header_line, line_ok, logical_lines, read_lines_ok, value_of,
};
use super::signature::{parse_signature, signature_of, Signature, SignatureView};
use super::{id_from_hex, ObjectId, ParseError, ParseErrorView};
use crate::bytes::{ascii, find, push_all, same_bytes, text, to_vec, upto_spec, LF, SPACE};
use crate::notation::{hex, hex_round_trip};

verus! {

/// A Git commit object.
#[derive(Clone, Debug, PartialEq, Eq)]
pub struct Commit {
    pub tree: ObjectId,
    pub parents: Vec<ObjectId>,
    pub author: Signature,
    pub committer: Signature,
    /// Headers other than `tree`, `parent`, `author` and `committer`, and
    /// repeated ones, in the order they were met.
    pub extra_headers: Vec<(Vec<u8>, Vec<u8>)>,
    /// The message, byte for byte.
    pub message: Vec<u8>,
}

/// What a commit holds.
pub struct CommitView {
    pub tree: Seq<u8>,
    pub parents: Seq<Seq<u8>>,
    pub author: SignatureView,
    pub committer: SignatureView,
    pub extra_headers: Seq<(Seq<u8>, Seq<u8>)>,
    pub message: Seq<u8>,
}

/// The ids of a list.
pub open spec fn ids_view(ids: Seq<ObjectId>) -> Seq<Seq<u8>> {
    ids.map_values(|id: ObjectId| id@)
}

/// The keys and values of a list of headers.
pub open spec fn headers_view(hs: Seq<(Vec<u8>, Vec<u8>)>) -> Seq<(Seq<u8>, Seq<u8>)> {
    hs.map_values(|h: (Vec<u8>, Vec<u8>)| (h.0@, h.1@))
}

impl View for Commit {
    type V = CommitView;

    open spec fn view(&self) -> CommitView {
        CommitView {
            tree: self.tree@,
            parents: ids_view(self.parents@),
            author: self.author@,
            committer: self.committer@,
            extra_headers: headers_view(self.extra_headers@),
            message: self.message@,
        }
    }
}

// ---------------------------------------------------------------------
// Reading
// ---------------------------------------------------------------------

/// What is wrong with a header line of a commit, if anything.
pub open spec fn line_fault(line: Seq<u8>) -> Option<ParseErrorView> {
    let key = key_of(line);
    let value = value_of(line);
    if !has_separator(line) {
        Some(ParseErrorView::MissingHeader("header value separator"@))
    } else if (key == ascii("tree"@) || key == ascii("parent"@)) && id_from_hex(value) is None {
        Some(ParseErrorView::InvalidHex)
    } else if (key == ascii("author"@) || key == ascii("committer"@)) && signature_of(
        value,
    ) is None {
        Some(ParseErrorView::InvalidSignature)
    } else {
        None
    }
}

/// What is wrong with the first faulty line.
pub open spec fn first_fault(lines: Seq<Seq<u8>>) -> Option<ParseErrorView>
    decreases lines.len(),
{
    if lines.len() == 0 {
        None
    } else if first_fault(lines.drop_last()) is Some {
        first_fault(lines.drop_last())
    } else {
        line_fault(lines.last())
    }
}

/// The parent ids, in order.
pub open spec fn parent_ids(lines: Seq<Seq<u8>>) -> Seq<Seq<u8>>
    decreases lines.len(),
{
    if lines.len() == 0 {
        Seq::empty()
    } else if key_of(lines.last()) == ascii("parent"@) {
        parent_ids(lines.drop_last()).push(id_from_hex(value_of(lines.last()))->0)
    } else {
        parent_ids(lines.drop_last())
    }
}

/// Whether the header behind `before` is kept as an extra one: it is no
/// parent, and not the first tree, author or committer.
pub open spec fn is_extra(before: Seq<Seq<u8>>, line: Seq<u8>) -> bool {
    let key = key_of(line);
    &&& key != ascii("parent"@)
    &&& (key == ascii("tree"@) || key == ascii("author"@) || key == ascii("committer"@))
        ==> first_value(before, key) is Some
}

/// The extra headers, in order.
pub open spec fn extra_of(lines: Seq<Seq<u8>>) -> Seq<(Seq<u8>, Seq<u8>)>
    decreases lines.len(),
{
    if lines.len() == 0 {
        Seq::empty()
    } else if is_extra(lines.drop_last(), lines.last()) {
        extra_of(lines.drop_last()).push((key_of(lines.last()), value_of(lines.last())))
    } else {
        extra_of(lines.drop_last())
    }
}

/// The commit that header lines and a message make.
pub open spec fn lines_commit(lines: Seq<Seq<u8>>, message: Seq<u8>) -> Result<
    CommitView,
    ParseErrorView,
> {
    if first_fault(lines) is Some {
        Err(first_fault(lines)->0)
    } else if first_value(lines, ascii("tree"@)) is None {
        Err(ParseErrorView::MissingHeader("tree"@))
    } else if first_value(lines, ascii("author"@)) is None {
        Err(ParseErrorView::MissingHeader("author"@))
    } else if first_value(lines, ascii("committer"@)) is None {
        Err(ParseErrorView::MissingHeader("committer"@))
    } else {
        Ok(
            CommitView {
                tree: id_from_hex(first_value(lines, ascii("tree"@))->0)->0,
                parents: parent_ids(lines),
                author: signature_of(first_value(lines, ascii("author"@))->0)->0,
                committer: signature_of(first_value(lines, ascii("committer"@))->0)->0,
                extra_headers: extra_of(lines),
                message,
            },
        )
    }
}

/// The commit that a payload holds, or why it holds none.
pub open spec fn payload_commit(p: Seq<u8>) -> Result<CommitView, ParseErrorView> {
    match blank_line(p) {
        None => Err(ParseErrorView::MissingHeader("blank line"@)),
        Some(i) => lines_commit(logical_lines(p.take(i + 1)), p.skip(i + 2)),
    }
}

/// A fault among the first lines is the first fault.
pub proof fn first_fault_concat(a: Seq<Seq<u8>>, b: Seq<Seq<u8>>)
    requires
        first_fault(a) is Some,
    ensures
        first_fault(a + b) == first_fault(a),
    decreases b.len(),
{
    if b.len() == 0 {
        assert(a + b =~= a);
    } else {
        assert((a + b).drop_last() =~= a + b.drop_last());
        first_fault_concat(a, b.drop_last());
    }
}

/// The header keys of a commit are ASCII, without spaces, and distinct.
pub proof fn commit_keys()
    ensures
        vstd::utf8::is_ascii_chars("tree"@),
        vstd::utf8::is_ascii_chars("parent"@),
        vstd::utf8::is_ascii_chars("author"@),
        vstd::utf8::is_ascii_chars("committer"@),
        ascii("tree"@) != ascii("parent"@),
        ascii("tree"@) != ascii("author"@),
        ascii("tree"@) != ascii("committer"@),
        ascii("parent"@) != ascii("author"@),
        ascii("parent"@) != ascii("committer"@),
        ascii("author"@) != ascii("committer"@),
        ascii("tree"@)[0] == 116 && ascii("tree"@).len() == 4,
        ascii("parent"@)[0] == 112 && ascii("parent"@).len() == 6,
        ascii("author"@)[0] == 97 && ascii("author"@).len() == 6,
        ascii("committer"@)[0] == 99 && ascii("committer"@).len() == 9,
        forall|i: int| 0 <= i < ascii("tree"@).len() ==> #[trigger] ascii("tree"@)[i] >= 97,
        forall|i: int| 0 <= i < ascii("parent"@).len() ==> #[trigger] ascii("parent"@)[i] >= 97,
        forall|i: int| 0 <= i < ascii("author"@).len() ==> #[trigger] ascii("author"@)[i] >= 97,
        forall|i: int|
            0 <= i < ascii("committer"@).len() ==> #[trigger] ascii("committer"@)[i] >= 97,
{
    reveal_strlit("tree");
    reveal_strlit("parent");
    reveal_strlit("author");
    reveal_strlit("committer");
    assert(ascii("parent"@)[0] == 112u8);
    assert(ascii("author"@)[0] == 97u8);
}

/// The optional id as bytes.
pub open spec fn opt_id(id: Option<ObjectId>) -> Option<Seq<u8>> {
    match id {
        Some(i) => Some(i@),
        None => None,
    }
}

/// The optional signature's contents.
pub open spec fn opt_sig(s: Option<Signature>) -> Option<SignatureView> {
    match s {
        Some(i) => Some(i@),
        None => None,
    }
}

/// The id that the first line with the key holds.
pub open spec fn id_field(lines: Seq<Seq<u8>>, key: Seq<u8>) -> Option<Seq<u8>> {
    match first_value(lines, key) {
        Some(v) => id_from_hex(v),
        None => None,
    }
}

/// The signature that the first line with the key holds.
pub open spec fn sig_field(lines: Seq<Seq<u8>>, key: Seq<u8>) -> Option<SignatureView> {
    match first_value(lines, key) {
        Some(v) => signature_of(v),
        None => None,
    }
}

/// Lines without fault have readable values where the key asks for them.
pub proof fn faultless_fields(lines: Seq<Seq<u8>>)
    requires
        first_fault(lines) is None,
    ensures
        first_value(lines, ascii("tree"@)) matches Some(v) ==> id_from_hex(v) is Some,
        first_value(lines, ascii("author"@)) matches Some(v) ==> signature_of(v) is Some,
        first_value(lines, ascii("committer"@)) matches Some(v) ==> signature_of(v) is Some,
    decreases lines.len(),
{
    if lines.len() > 0 {
        faultless_fields(lines.drop_last());
    }
}

/// One step of the walk over the lines: `line` is the next one.
pub proof fn next_line(h: Seq<u8>, cursor: int, done: Seq<Seq<u8>>)
    requires
        0 <= cursor < h.len(),
        done + logical_lines(h.skip(cursor)) == logical_lines(h),
    ensures
        ({
            let e = cursor + line_end(h.skip(cursor));
            let line = h.subrange(cursor, e);
            let next = if e < h.len() { e + 1 } else { h.len() as int };
            &&& cursor <= e <= h.len()
            &&& done.push(line) + logical_lines(h.skip(next)) == logical_lines(h)
            &&& done.push(line).drop_last() == done
        }),
{
    let t = h.skip(cursor);
    line_end_spec(t);
    let e = line_end(t);
    let line = h.subrange(cursor, cursor + e);
    assert(done.push(line).drop_last() =~= done);
    if e < t.len() {
        assert(t.take(e) =~= line);
        assert(t.skip(e + 1) =~= h.skip(cursor + e + 1));
        assert(done.push(line) + logical_lines(t.skip(e + 1)) =~= done + (seq![line]
            + logical_lines(t.skip(e + 1))));
    } else {
        assert(line =~= t);
        assert(h.skip(h.len() as int).len() == 0);
        assert(done.push(line) + Seq::<Seq<u8>>::empty() =~= done + seq![t]);
    }
}

/// Parses a commit payload.
#[verifier::rlimit(40)]
pub fn parse_payload(payload: &[u8]) -> (r: Result<Commit, ParseError>)
    ensures
        match r {
            Ok(c) => payload_commit(payload@) == Ok::<_, ParseErrorView>(c@),
            Err(e) => payload_commit(payload@) == Err::<CommitView, _>(e@),
        },
{
    let blank: usize = match find_blank_line(payload) {
        Some(i) => i,
        None => return Err(ParseError::MissingHeader("blank line")),
    };
    assert(payload.len() == payload@.len());
    let h = &payload[0..blank + 1];
    assert(h@ =~= payload@.take(blank + 1));
    let message = to_vec(&payload[blank + 2..payload.len()]);
    assert(message@ =~= payload@.skip(blank + 2));
    let ghost lines = logical_lines(h@);
    let mut tree: Option<ObjectId> = None;
    let mut parents: Vec<ObjectId> = Vec::new();
    let mut author: Option<Signature> = None;
    let mut committer: Option<Signature> = None;
    let mut extra_headers: Vec<(Vec<u8>, Vec<u8>)> = Vec::new();
    let ghost mut done: Seq<Seq<u8>> = Seq::empty();
    let mut cursor: usize = 0;
    proof {
        commit_keys();
        assert(h@.skip(0) =~= h@);
        assert(done + lines =~= lines);
        assert(ids_view(parents@) =~= Seq::<Seq<u8>>::empty());
        assert(headers_view(extra_headers@) =~= Seq::<(Seq<u8>, Seq<u8>)>::empty());
    }
    while cursor < h.len()
        invariant
            cursor <= h@.len(),
            lines == logical_lines(h@),
            payload_commit(payload@) == lines_commit(lines, message@),
            done + logical_lines(h@.skip(cursor as int)) == lines,
            first_fault(done) is None,
            opt_id(tree) == id_field(done, ascii("tree"@)),
            tree is Some <==> first_value(done, ascii("tree"@)) is Some,
            opt_sig(author) == sig_field(done, ascii("author"@)),
            author is Some <==> first_value(done, ascii("author"@)) is Some,
            opt_sig(committer) == sig_field(done, ascii("committer"@)),
            committer is Some <==> first_value(done, ascii("committer"@)) is Some,
            ids_view(parents@) == parent_ids(done),
            headers_view(extra_headers@) == extra_of(done),
        decreases h.len() - cursor,
    {
        proof {
            commit_keys();
            next_line(h@, cursor as int, done);
        }
        let end: usize = find_logical_header_end(h, cursor);
        let line = &h[cursor..end];
        let ghost prev = done;
        proof {
            done = done.push(line@);
            assert(done.last() == line@);
            upto_spec(line@, SPACE);
            if first_fault(done) is Some {
                let rest = logical_lines(h@.skip(if end < h@.len() { end + 1 } else { h@.len() as int }));
                first_fault_concat(done, rest);
            }
        }
        let sp: usize = find(line, SPACE);
        if sp == line.len() {
            return Err(ParseError::MissingHeader("header value separator"));
        }
        let key = &line[0..sp];
        let value = &line[sp + 1..line.len()];
        assert(key@ =~= key_of(line@));
        assert(value@ =~= value_of(line@));
        let ghost parents_before = parents@;
        let ghost extra_before = extra_headers@;
        let mut keep = false;
        if same_bytes(key, text("tree")) {
            let id = match ObjectId::from_hex_bytes(value) {
                Ok(id) => id,
                Err(_) => return Err(ParseError::InvalidHex),
            };
            if tree.is_none() {
                tree = Some(id);
            } else {
                keep = true;
            }
        } else if same_bytes(key, text("parent")) {
            let id = match ObjectId::from_hex_bytes(value) {
                Ok(id) => id,
                Err(_) => return Err(ParseError::InvalidHex),
            };
            parents.push(id);
            assert(ids_view(parents@) =~= ids_view(parents_before).push(id@));
        } else if same_bytes(key, text("author")) {
            let sig = match parse_signature(value) {
                Ok(s) => s,
                Err(e) => return Err(e),
            };
            if author.is_none() {
                author = Some(sig);
            } else {
                keep = true;
            }
        } else if same_bytes(key, text("committer")) {
            let sig = match parse_signature(value) {
                Ok(s) => s,
                Err(e) => return Err(e),
            };
            if committer.is_none() {
                committer = Some(sig);
            } else {
                keep = true;
            }
        } else {
            keep = true;
        }
        assert(keep <==> is_extra(prev, line@));
        if keep {
            extra_headers.push((to_vec(key), to_vec(value)));
            assert(headers_view(extra_headers@) =~= headers_view(extra_before).push(
                (key@, value@),
            ));
        }
        cursor = if end < h.len() {
            end + 1
        } else {
            h.len()
        };
    }
    proof {
        assert(h@.skip(cursor as int).len() == 0);
        assert(done =~= lines);
        faultless_fields(lines);
    }
    let tree = match tree {
        Some(t) => t,
        None => return Err(ParseError::MissingHeader("tree")),
    };
    let author = match author {
        Some(a) => a,
        None => return Err(ParseError::MissingHeader("author")),
    };
    let committer = match committer {
        Some(c) => c,
        None => return Err(ParseError::MissingHeader("committer")),
    };
    Ok(Commit { tree, parents, author, committer, extra_headers, message })
}

// ---------------------------------------------------------------------
// Writing
// ---------------------------------------------------------------------

/// The headers of the parents.
pub open spec fn parent_headers(parents: Seq<Seq<u8>>) -> Seq<(Seq<u8>, Seq<u8>)> {
    parents.map_values(|p: Seq<u8>| (ascii("parent"@), hex(p)))
}

/// The headers of a commit in their canonical order.
pub open spec fn commit_headers(c: CommitView) -> Seq<(Seq<u8>, Seq<u8>)> {
    seq![(ascii("tree"@), hex(c.tree))] + parent_headers(c.parents) + seq![
        (ascii("author"@), c.author.raw),
        (ascii("committer"@), c.committer.raw),
    ] + c.extra_headers
}

/// The payload that a commit is written as.
pub open spec fn commit_payload(c: CommitView) -> Seq<u8> {
    headed_payload(commit_headers(c), c.message)
}

/// Appends a header line.
pub fn push_header(out: &mut Vec<u8>, key: &[u8], value: &[u8])
    ensures
        final(out)@ == old(out)@ + header_line((key@, value@)) + seq![LF],
{
    push_all(out, key);
    out.push(SPACE);
    push_all(out, value);
    out.push(LF);
    assert(out@ =~= old(out)@ + header_line((key@, value@)) + seq![LF]);
}

/// One more header at the end.
pub proof fn headers_bytes_push(hs: Seq<(Seq<u8>, Seq<u8>)>, h: (Seq<u8>, Seq<u8>))
    ensures
        headers_bytes(hs.push(h)) == headers_bytes(hs) + header_line(h) + seq![LF],
{
    assert(hs.push(h).drop_last() =~= hs);
}

/// Serializes a commit payload.
pub fn serialize_payload(commit: &Commit) -> (r: Vec<u8>)
    ensures
        r@ == commit_payload(commit@),
{
    proof {
        commit_keys();
    }
    let ghost all = commit_headers(commit@);
    let ghost n = commit.parents@.len() as int;
    let mut out: Vec<u8> = Vec::new();
    let tree_hex = commit.tree.to_hex_bytes();
    proof {
        headers_bytes_push(all.take(0), all[0]);
        assert(all.take(0).push(all[0]) =~= all.take(1));
        assert(all.take(0) =~= Seq::<(Seq<u8>, Seq<u8>)>::empty());
    }
    push_header(&mut out, text("tree"), &tree_hex);
    assert(out@ =~= headers_bytes(all.take(1)));
    let mut i: usize = 0;
    while i < commit.parents.len()
        invariant
            i <= n,
            n == commit.parents@.len(),
            all == commit_headers(commit@),
            out@ == headers_bytes(all.take(1 + i)),
        decreases n - i,
    {
        proof {
            commit_keys();
            assert(all[1 + i] == (ascii("parent"@), hex(commit.parents@[i as int]@)));
            headers_bytes_push(all.take(1 + i), all[1 + i]);
            assert(all.take(1 + i).push(all[1 + i]) =~= all.take(2 + i));
        }
        let parent_hex = commit.parents[i].to_hex_bytes();
        push_header(&mut out, text("parent"), &parent_hex);
        i += 1;
    }
    proof {
        assert(all[1 + n] == (ascii("author"@), commit.author.raw@));
        headers_bytes_push(all.take(1 + n), all[1 + n]);
        assert(all.take(1 + n).push(all[1 + n]) =~= all.take(2 + n));
        assert(all[2 + n] == (ascii("committer"@), commit.committer.raw@));
        headers_bytes_push(all.take(2 + n), all[2 + n]);
        assert(all.take(2 + n).push(all[2 + n]) =~= all.take(3 + n));
    }
    push_header(&mut out, text("author"), &commit.author.raw);
    push_header(&mut out, text("committer"), &commit.committer.raw);
    let mut i: usize = 0;
    while i < commit.extra_headers.len()
        invariant
            i <= commit.extra_headers@.len(),
            n == commit.parents@.len(),
            all == commit_headers(commit@),
            out@ == headers_bytes(all.take(3 + n + i)),
        decreases commit.extra_headers.len() - i,
    {
        let header = &commit.extra_headers[i];
        proof {
            assert(all[3 + n + i] == (header.0@, header.1@));
            headers_bytes_push(all.take(3 + n + i), all[3 + n + i]);
            assert(all.take(3 + n + i).push(all[3 + n + i]) =~= all.take(4 + n + i));
        }
        push_header(&mut out, &header.0, &header.1);
        i += 1;
    }
    assert(all.take(3 + n + i) =~= all);
    out.push(LF);
    push_all(&mut out, &commit.message);
    assert(out@ =~= commit_payload(commit@));
    out
}

// ---------------------------------------------------------------------
// Laws
// ---------------------------------------------------------------------

/// A commit that the format can carry: ids of 20 bytes, signatures that
/// are the reading of their raw bytes, and extra headers that read as
/// themselves.
pub open spec fn commit_ok(c: CommitView) -> bool {
    &&& c.tree.len() == 20
    &&& forall|i: int| 0 <= i < c.parents.len() ==> (#[trigger] c.parents[i]).len() == 20
    &&& signature_of(c.author.raw) == Some(c.author)
    &&& signature_of(c.committer.raw) == Some(c.committer)
    &&& header_ok((ascii("author"@), c.author.raw))
    &&& header_ok((ascii("committer"@), c.committer.raw))
    &&& forall|i: int| 0 <= i < c.extra_headers.len() ==> extra_ok(#[trigger] c.extra_headers[i])
}

/// An extra header that reads as itself behind the canonical headers.
pub open spec fn extra_ok(h: (Seq<u8>, Seq<u8>)) -> bool {
    &&& header_ok(h)
    &&& h.0 != ascii("parent"@)
    &&& h.0 == ascii("tree"@) ==> id_from_hex(h.1) is Some
    &&& h.0 == ascii("author"@) || h.0 == ascii("committer"@) ==> signature_of(h.1) is Some
}

/// A key and hexadecimal digits make a header that can be carried.
pub proof fn hex_header_ok(key: Seq<u8>, id: Seq<u8>)
    requires
        key.len() > 0,
        forall|i: int| 0 <= i < key.len() ==> #[trigger] key[i] >= 97,
    ensures
        header_ok((key, hex(id))),
{
    hex_round_trip(id);
    let line = header_line((key, hex(id)));
    assert forall|i: int| #![trigger line[i]] 0 <= i < line.len() implies line[i] != LF by {
        if i < key.len() {
            assert(line[i] == key[i]);
        } else if i > key.len() {
            assert(line[i] == hex(id)[i - key.len() - 1]);
            assert(crate::notation::nibble_value(hex(id)[i - key.len() - 1]) is Some);
        }
    }
    assert(line[0] == key[0]);
}

/// What one more line adds to the reading of the lines before it.
pub proof fn push_line(lines: Seq<Seq<u8>>, line: Seq<u8>)
    ensures
        first_fault(lines) is None ==> first_fault(lines.push(line)) == line_fault(line),
        forall|key: Seq<u8>| #[trigger]
            first_value(lines.push(line), key) == if first_value(lines, key) is Some {
                first_value(lines, key)
            } else if key_of(line) == key {
                Some(value_of(line))
            } else {
                None
            },
        parent_ids(lines.push(line)) == if key_of(line) == ascii("parent"@) {
            parent_ids(lines).push(id_from_hex(value_of(line))->0)
        } else {
            parent_ids(lines)
        },
        extra_of(lines.push(line)) == if is_extra(lines, line) {
            extra_of(lines).push((key_of(line), value_of(line)))
        } else {
            extra_of(lines)
        },
{
    assert(lines.push(line).drop_last() =~= lines);
    assert(lines.push(line).last() == line);
}

/// What the lines of the canonical headers up to the `k`-th parent hold.
proof fn canonical_parents(c: CommitView, k: int)
    requires
        commit_ok(c),
        0 <= k <= c.parents.len(),
    ensures
        ({
            let lines = header_lines(commit_headers(c)).take(1 + k);
            &&& first_fault(lines) is None
            &&& first_value(lines, ascii("tree"@)) == Some(hex(c.tree))
            &&& first_value(lines, ascii("author"@)) is None
            &&& first_value(lines, ascii("committer"@)) is None
            &&& parent_ids(lines) == c.parents.take(k)
            &&& extra_of(lines) == Seq::<(Seq<u8>, Seq<u8>)>::empty()
        }),
    decreases k,
{
    commit_keys();
    let hs = commit_headers(c);
    let all = header_lines(hs);
    let lines = all.take(1 + k);
    hex_round_trip(c.tree);
    if k == 0 {
        hex_header_ok(ascii("tree"@), c.tree);
        assert(hs[0] == (ascii("tree"@), hex(c.tree)));
        header_line_splits(hs[0]);
        assert(lines =~= Seq::<Seq<u8>>::empty().push(header_line(hs[0])));
        push_line(Seq::empty(), header_line(hs[0]));
        assert(parent_ids(lines) =~= c.parents.take(0));
    } else {
        canonical_parents(c, k - 1);
        let p = c.parents[k - 1];
        hex_header_ok(ascii("parent"@), p);
        hex_round_trip(p);
        assert(hs[k] == (ascii("parent"@), hex(p)));
        header_line_splits(hs[k]);
        push_line(all.take(k), header_line(hs[k]));
        assert(lines =~= all.take(k).push(header_line(hs[k])));
        assert(parent_ids(lines) =~= c.parents.take(k));
    }
}

/// What the lines of the canonical headers up to the `k`-th extra header
/// hold.
proof fn canonical_extras(c: CommitView, k: int)
    requires
        commit_ok(c),
        0 <= k <= c.extra_headers.len(),
    ensures
        ({
            let lines = header_lines(commit_headers(c)).take(3 + c.parents.len() as int + k);
            &&& first_fault(lines) is None
            &&& first_value(lines, ascii("tree"@)) == Some(hex(c.tree))
            &&& first_value(lines, ascii("author"@)) == Some(c.author.raw)
            &&& first_value(lines, ascii("committer"@)) == Some(c.committer.raw)
            &&& parent_ids(lines) == c.parents
            &&& extra_of(lines) == c.extra_headers.take(k)
        }),
    decreases k,
{
    commit_keys();
    let hs = commit_headers(c);
    let all = header_lines(hs);
    let n = c.parents.len() as int;
    let lines = all.take(3 + n + k);
    if k == 0 {
        canonical_parents(c, n);
        assert(c.parents.take(n) =~= c.parents);
        assert(hs[1 + n] == (ascii("author"@), c.author.raw));
        header_line_splits(hs[1 + n]);
        push_line(all.take(1 + n), header_line(hs[1 + n]));
        assert(all.take(2 + n) =~= all.take(1 + n).push(header_line(hs[1 + n])));
        assert(hs[2 + n] == (ascii("committer"@), c.committer.raw));
        header_line_splits(hs[2 + n]);
        push_line(all.take(2 + n), header_line(hs[2 + n]));
        assert(lines =~= all.take(2 + n).push(header_line(hs[2 + n])));
        assert(c.extra_headers.take(0) =~= Seq::<(Seq<u8>, Seq<u8>)>::empty());
    } else {
        canonical_extras(c, k - 1);
        let h = c.extra_headers[k - 1];
        assert(extra_ok(h));
        assert(hs[2 + n + k] == h);
        header_line_splits(h);
        push_line(all.take(2 + n + k), header_line(h));
        assert(lines =~= all.take(2 + n + k).push(header_line(h)));
        assert(c.extra_headers.take(k) =~= c.extra_headers.take(k - 1).push(h));
    }
}

/// The canonical headers can be carried.
proof fn commit_headers_ok(c: CommitView)
    requires
        commit_ok(c),
    ensures
        headers_ok(commit_headers(c)),
{
    commit_keys();
    let hs = commit_headers(c);
    let n = c.parents.len() as int;
    assert forall|i: int| 0 <= i < hs.len() implies header_ok(#[trigger] hs[i]) by {
        if i == 0 {
            hex_header_ok(ascii("tree"@), c.tree);
        } else if i <= n {
            hex_header_ok(ascii("parent"@), c.parents[i - 1]);
            assert(hs[i] == (ascii("parent"@), hex(c.parents[i - 1])));
        } else if i > n + 2 {
            assert(hs[i] == c.extra_headers[i - n - 3]);
            assert(extra_ok(c.extra_headers[i - n - 3]));
        }
    }
}

/// Law: parsing a written commit gives the commit.
pub proof fn law_commit_round_trip(c: CommitView)
    requires
        commit_ok(c),
    ensures
        payload_commit(commit_payload(c)) == Ok::<_, ParseErrorView>(c),
{
    let hs = commit_headers(c);
    commit_headers_ok(c);
    law_logical_lines(hs);
    law_blank_line(hs, c.message);
    canonical_extras(c, c.extra_headers.len() as int);
    let all = header_lines(hs);
    assert(all.take(3 + c.parents.len() as int + c.extra_headers.len() as int) =~= all);
    assert(c.extra_headers.take(c.extra_headers.len() as int) =~= c.extra_headers);
    hex_round_trip(c.tree);
    let p = commit_payload(c);
    let i = blank_line(p)->0;
    assert(p.take(i + 1) == headers_bytes(hs));
    assert(p.skip(i + 2) == c.message);
    assert(payload_commit(p) == lines_commit(all, c.message));
}

/// What the reading of carriable, faultless lines can be written as.
proof fn lines_fields_ok(lines: Seq<Seq<u8>>)
    requires
        first_fault(lines) is None,
        forall|i: int| 0 <= i < lines.len() ==> line_ok(#[trigger] lines[i]),
    ensures
        forall|i: int|
            0 <= i < parent_ids(lines).len() ==> (#[trigger] parent_ids(lines)[i]).len() == 20,
        forall|i: int| 0 <= i < extra_of(lines).len() ==> extra_ok(#[trigger] extra_of(lines)[i]),
        first_value(lines, ascii("author"@)) matches Some(v) ==> header_ok((ascii("author"@), v)),
        first_value(lines, ascii("committer"@)) matches Some(v) ==> header_ok(
            (ascii("committer"@), v),
        ),
    decreases lines.len(),
{
    if lines.len() > 0 {
        let t = lines.drop_last();
        let line = lines.last();
        assert forall|i: int| 0 <= i < t.len() implies line_ok(#[trigger] t[i]) by {
            assert(line_ok(lines[i]));
        }
        lines_fields_ok(t);
        assert(line_ok(lines[lines.len() - 1]));
        line_is_header_line(line);
        assert(header_ok((key_of(line), value_of(line))));
        assert forall|i: int| 0 <= i < parent_ids(lines).len() implies (#[trigger] parent_ids(
            lines,
        )[i]).len() == 20 by {
            if i < parent_ids(t).len() {
                assert(parent_ids(lines)[i] == parent_ids(t)[i]);
            }
        }
        assert forall|i: int| 0 <= i < extra_of(lines).len() implies extra_ok(
            #[trigger] extra_of(lines)[i],
        ) by {
            if i < extra_of(t).len() {
                assert(extra_of(lines)[i] == extra_of(t)[i]);
            } else {
                assert(is_extra(t, line));
                assert(extra_of(lines)[i] == (key_of(line), value_of(line)));
            }
        }
    }
}

/// Law: a commit that was read, written and read again is the same commit.
/// A payload that begins with a space or a line feed is left out: its first
/// line would be written behind another one and become part of it.
pub proof fn law_commit_stable(p: Seq<u8>)
    requires
        payload_commit(p) is Ok,
        p[0] != SPACE,
        p[0] != LF,
    ensures
        commit_ok(payload_commit(p)->Ok_0),
        payload_commit(commit_payload(payload_commit(p)->Ok_0)) == payload_commit(p),
{
    let i = blank_line(p)->0;
    blank_line_spec(p);
    let h = p.take(i + 1);
    assert forall|j: int| !#[trigger] blank_at(h, j) by {
        if blank_at(h, j) {
            assert(h[j] == p[j] && h[j + 1] == p[j + 1]);
            assert(blank_at(p, j));
        }
    }
    assert(h.last() == p[i]);
    read_lines_ok(h);
    let lines = logical_lines(h);
    lines_fields_ok(lines);
    faultless_fields(lines);
    law_commit_round_trip(payload_commit(p)->Ok_0);
}

} // verus!
