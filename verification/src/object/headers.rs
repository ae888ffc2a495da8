//! The header block that commits and tags share: logical lines with
//! continuations, up to a blank line.

use vstd::prelude::*;

use crate::bytes::{upto, upto_is, upto_spec, LF, SPACE};

verus! {

/// The position of the first of two adjacent line feeds.
pub open spec fn blank_line(p: Seq<u8>) -> Option<int>
    decreases p.len(),
{
    if p.len() < 2 {
        None
    } else if p[0] == LF && p[1] == LF {
        Some(0)
    } else {
        match blank_line(p.drop_first()) {
            Some(i) => Some(i + 1),
            None => None,
        }
    }
}

/// Two line feeds stand at `i` and behind it.
pub open spec fn blank_at(p: Seq<u8>, i: int) -> bool {
    0 <= i && i + 1 < p.len() && p[i] == LF && p[i + 1] == LF
}

/// What [`blank_line`] is: the first place where two line feeds stand.
pub proof fn blank_line_spec(p: Seq<u8>)
    ensures
        match blank_line(p) {
            Some(k) => blank_at(p, k) && forall|j: int| 0 <= j < k ==> !#[trigger] blank_at(p, j),
            None => forall|j: int| !#[trigger] blank_at(p, j),
        },
    decreases p.len(),
{
    if p.len() < 2 {
    } else if p[0] == LF && p[1] == LF {
    } else {
        let t = p.drop_first();
        blank_line_spec(t);
        assert forall|j: int| #[trigger] blank_at(p, j) implies j > 0 && blank_at(t, j - 1) by {
            if j > 0 {
                assert(t[j - 1] == p[j] && t[j] == p[j + 1]);
            }
        }
        if let Some(k) = blank_line(t) {
            assert(t[k] == p[k + 1] && t[k + 1] == p[k + 2]);
        }
    }
}

/// A header line goes on where a line feed is followed by a space.
pub open spec fn line_ends_at(h: Seq<u8>, i: int) -> bool {
    h[i] == LF && !(i + 1 < h.len() && h[i + 1] == SPACE)
}

/// Where the first logical line of `h` ends: at the first line feed that
/// no space follows, or at the end.
pub open spec fn line_end(h: Seq<u8>) -> int
    decreases h.len(),
{
    if h.len() == 0 || line_ends_at(h, 0) {
        0
    } else {
        1 + line_end(h.drop_first())
    }
}

/// [`line_end`] is the only such position.
pub proof fn line_end_is(h: Seq<u8>, k: int)
    requires
        0 <= k <= h.len(),
        forall|j: int| 0 <= j < k ==> !#[trigger] line_ends_at(h, j),
        k < h.len() ==> line_ends_at(h, k),
    ensures
        line_end(h) == k,
    decreases h.len(),
{
    if k > 0 {
        assert(!line_ends_at(h, 0));
        let t = h.drop_first();
        assert forall|j: int| 0 <= j < t.len() implies #[trigger] line_ends_at(t, j)
            == line_ends_at(h, j + 1) by {}
        line_end_is(t, k - 1);
    }
}

/// What [`line_end`] is.
pub proof fn line_end_spec(h: Seq<u8>)
    ensures
        0 <= line_end(h) <= h.len(),
        forall|j: int| 0 <= j < line_end(h) ==> !#[trigger] line_ends_at(h, j),
        line_end(h) < h.len() ==> line_ends_at(h, line_end(h)),
    decreases h.len(),
{
    if h.len() == 0 || line_ends_at(h, 0) {
    } else {
        let t = h.drop_first();
        line_end_spec(t);
        assert forall|j: int| 0 <= j < line_end(h) implies !#[trigger] line_ends_at(h, j) by {
            if j > 0 {
                assert(!line_ends_at(t, j - 1));
            }
        }
    }
}

/// The logical lines of a header block, without their final line feeds.
pub open spec fn logical_lines(h: Seq<u8>) -> Seq<Seq<u8>>
    decreases h.len(),
{
    if h.len() == 0 {
        Seq::empty()
    } else {
        let e = line_end(h);
        if e < 0 || e >= h.len() {
            seq![h]
        } else {
            seq![h.take(e)] + logical_lines(h.skip(e + 1))
        }
    }
}

/// Whether a line has a space between key and value.
pub open spec fn has_separator(line: Seq<u8>) -> bool {
    upto(line, SPACE) < line.len()
}

/// The key of a header line: what stands before the first space.
pub open spec fn key_of(line: Seq<u8>) -> Seq<u8> {
    line.take(upto(line, SPACE))
}

/// The value of a header line: what stands behind the first space.
pub open spec fn value_of(line: Seq<u8>) -> Seq<u8> {
    line.skip(upto(line, SPACE) + 1)
}

/// The value of the first line with the given key.
pub open spec fn first_value(lines: Seq<Seq<u8>>, key: Seq<u8>) -> Option<Seq<u8>>
    decreases lines.len(),
{
    if lines.len() == 0 {
        None
    } else if first_value(lines.drop_last(), key) is Some {
        first_value(lines.drop_last(), key)
    } else if key_of(lines.last()) == key {
        Some(value_of(lines.last()))
    } else {
        None
    }
}

/// Finds the blank line: the position of the first of its two line feeds.
pub fn find_blank_line(payload: &[u8]) -> (r: Option<usize>)
    ensures
        match r {
            Some(i) => blank_line(payload@) == Some(i as int) && i + 1 < payload@.len()
                && payload@[i as int] == LF,
            None => blank_line(payload@) is None,
        },
{
    proof {
        blank_line_spec(payload@);
    }
    if payload.len() < 2 {
        return None;
    }
    let mut i: usize = 0;
    while i < payload.len() - 1
        invariant
            payload@.len() >= 2,
            i <= payload@.len() - 1,
            forall|j: int| 0 <= j < i ==> !#[trigger] blank_at(payload@, j),
            match blank_line(payload@) {
                Some(k) => blank_at(payload@, k) && forall|j: int|
                    0 <= j < k ==> !#[trigger] blank_at(payload@, j),
                None => forall|j: int| !#[trigger] blank_at(payload@, j),
            },
        decreases payload.len() - i,
    {
        if payload[i] == LF && payload[i + 1] == LF {
            assert(blank_at(payload@, i as int));
            return Some(i);
        }
        assert(!blank_at(payload@, i as int));
        i += 1;
    }
    None
}

/// Where the logical line that begins at `start` ends.
pub fn find_logical_header_end(h: &[u8], start: usize) -> (r: usize)
    requires
        start < h@.len(),
    ensures
        start <= r <= h@.len(),
        r == start + line_end(h@.skip(start as int)),
{
    let mut i: usize = start;
    let ghost t = h@.skip(start as int);
    while i < h.len() && !(h[i] == LF && !(i + 1 < h.len() && h[i + 1] == SPACE))
        invariant
            start <= i <= h@.len(),
            t == h@.skip(start as int),
            forall|j: int| 0 <= j < i - start ==> !#[trigger] line_ends_at(t, j),
        decreases h.len() - i,
    {
        assert(!line_ends_at(t, i - start));
        i += 1;
    }
    proof {
        line_end_is(t, i - start);
    }
    i
}

// ---------------------------------------------------------------------
// Writing headers
// ---------------------------------------------------------------------

/// The logical line of a header: `key ' ' value`.
pub open spec fn header_line(h: (Seq<u8>, Seq<u8>)) -> Seq<u8> {
    h.0 + seq![SPACE] + h.1
}

/// The bytes of a list of headers, each ended by a line feed.
pub open spec fn headers_bytes(hs: Seq<(Seq<u8>, Seq<u8>)>) -> Seq<u8>
    decreases hs.len(),
{
    if hs.len() == 0 {
        Seq::empty()
    } else {
        headers_bytes(hs.drop_last()) + header_line(hs.last()) + seq![LF]
    }
}

/// The logical lines of a list of headers.
pub open spec fn header_lines(hs: Seq<(Seq<u8>, Seq<u8>)>) -> Seq<Seq<u8>> {
    hs.map_values(|h: (Seq<u8>, Seq<u8>)| header_line(h))
}

/// The payload with the given headers and message.
pub open spec fn headed_payload(hs: Seq<(Seq<u8>, Seq<u8>)>, message: Seq<u8>) -> Seq<u8> {
    headers_bytes(hs) + seq![LF] + message
}

/// A line that the header block can carry: it begins with neither space nor
/// line feed, and a space follows each line feed in it.
pub open spec fn line_ok(line: Seq<u8>) -> bool {
    &&& line.len() > 0
    &&& line[0] != SPACE
    &&& line[0] != LF
    &&& forall|i: int| #![trigger line[i]]
        0 <= i < line.len() && line[i] == LF ==> i + 1 < line.len() && line[i + 1] == SPACE
}

/// A header that the header block can carry.
pub open spec fn header_ok(h: (Seq<u8>, Seq<u8>)) -> bool {
    !h.0.contains(SPACE) && line_ok(header_line(h))
}

/// Every header can be carried.
pub open spec fn headers_ok(hs: Seq<(Seq<u8>, Seq<u8>)>) -> bool {
    forall|i: int| 0 <= i < hs.len() ==> header_ok(#[trigger] hs[i])
}

/// A header's line splits into its key and value again.
pub proof fn header_line_splits(h: (Seq<u8>, Seq<u8>))
    requires
        !h.0.contains(SPACE),
    ensures
        has_separator(header_line(h)),
        key_of(header_line(h)) == h.0,
        value_of(header_line(h)) == h.1,
{
    let line = header_line(h);
    assert forall|j: int| 0 <= j < h.0.len() implies line[j] != SPACE by {
        assert(line[j] == h.0[j]);
        assert(h.0.contains(h.0[j]));
    }
    upto_is(line, SPACE, h.0.len() as int);
    assert(key_of(line) =~= h.0);
    assert(value_of(line) =~= h.1);
}

/// A line with a separator is the line of its key and value.
pub proof fn line_is_header_line(line: Seq<u8>)
    requires
        has_separator(line),
    ensures
        header_line((key_of(line), value_of(line))) == line,
        !key_of(line).contains(SPACE),
{
    upto_spec(line, SPACE);
    assert(header_line((key_of(line), value_of(line))) =~= line);
}

/// The lines behind the first one, where the first ends at `e`.
proof fn logical_lines_step(h: Seq<u8>, line: Seq<u8>, rest: Seq<u8>)
    requires
        h == line + seq![LF] + rest,
        line_ok(line),
        rest.len() > 0 ==> rest[0] != SPACE,
    ensures
        logical_lines(h) == seq![line] + logical_lines(rest),
{
    let e = line.len() as int;
    assert forall|j: int| 0 <= j < e implies !#[trigger] line_ends_at(h, j) by {
        assert(h[j] == line[j]);
        if line[j] == LF {
            assert(h[j + 1] == line[j + 1]);
        }
    }
    assert(line_ends_at(h, e)) by {
        if e + 1 < h.len() {
            assert(h[e + 1] == rest[0]);
        }
    }
    line_end_is(h, e);
    assert(h.take(e) =~= line);
    assert(h.skip(e + 1) =~= rest);
}

/// Header bytes with the first header split off.
pub proof fn headers_bytes_first(hs: Seq<(Seq<u8>, Seq<u8>)>)
    requires
        hs.len() > 0,
    ensures
        headers_bytes(hs) == header_line(hs[0]) + seq![LF] + headers_bytes(hs.drop_first()),
    decreases hs.len(),
{
    if hs.len() == 1 {
        assert(hs.drop_last() =~= Seq::<(Seq<u8>, Seq<u8>)>::empty());
        assert(hs.drop_first() =~= Seq::<(Seq<u8>, Seq<u8>)>::empty());
        assert(headers_bytes(hs.drop_last()) =~= Seq::<u8>::empty());
        assert(headers_bytes(hs.drop_first()) =~= Seq::<u8>::empty());
        assert(headers_bytes(hs) =~= header_line(hs[0]) + seq![LF] + headers_bytes(
            hs.drop_first(),
        ));
    } else {
        let t = hs.drop_last();
        headers_bytes_first(t);
        assert(t.drop_first() =~= hs.drop_first().drop_last());
        assert(hs.drop_first().last() == hs.last());
        assert(headers_bytes(hs) =~= header_line(hs[0]) + seq![LF] + headers_bytes(
            hs.drop_first(),
        ));
    }
}

/// Law: the logical lines of written headers are the headers' lines.
pub proof fn law_logical_lines(hs: Seq<(Seq<u8>, Seq<u8>)>)
    requires
        headers_ok(hs),
    ensures
        logical_lines(headers_bytes(hs)) == header_lines(hs),
    decreases hs.len(),
{
    if hs.len() == 0 {
        assert(header_lines(hs) =~= Seq::<Seq<u8>>::empty());
    } else {
        let t = hs.drop_first();
        assert forall|i: int| 0 <= i < t.len() implies header_ok(#[trigger] t[i]) by {
            assert(header_ok(hs[i + 1]));
        }
        law_logical_lines(t);
        headers_bytes_first(hs);
        assert(header_ok(hs[0]));
        if t.len() > 0 {
            headers_bytes_first(t);
            assert(header_ok(t[0]));
            assert(headers_bytes(t)[0] == header_line(t[0])[0]);
        }
        logical_lines_step(headers_bytes(hs), header_line(hs[0]), headers_bytes(t));
        assert(header_lines(hs) =~= seq![header_line(hs[0])] + header_lines(t));
    }
}

/// Written headers end in a line feed, begin with none, and have no two
/// adjacent ones.
proof fn headers_bytes_shape(hs: Seq<(Seq<u8>, Seq<u8>)>)
    requires
        headers_ok(hs),
        hs.len() > 0,
    ensures
        headers_bytes(hs).len() > 0,
        headers_bytes(hs).last() == LF,
        forall|j: int| !#[trigger] blank_at(headers_bytes(hs), j),
    decreases hs.len(),
{
    let t = hs.drop_last();
    let line = header_line(hs.last());
    let head = headers_bytes(t);
    let all = headers_bytes(hs);
    assert(header_ok(hs[hs.len() - 1]));
    assert forall|i: int| 0 <= i < t.len() implies header_ok(#[trigger] t[i]) by {
        assert(header_ok(hs[i]));
    }
    if t.len() > 0 {
        headers_bytes_shape(t);
    }
    assert forall|j: int| !#[trigger] blank_at(all, j) by {
        if blank_at(all, j) {
            if j + 1 < head.len() {
                assert(all[j] == head[j] && all[j + 1] == head[j + 1]);
                assert(blank_at(head, j));
            } else if j + 1 == head.len() {
                assert(all[j + 1] == line[0]);
            } else {
                let i = j - head.len();
                assert(all[j] == line[i]);
                assert(line[i] == LF);
                assert(all[j + 1] == line[i + 1]);
            }
        }
    }
}

/// Law: the blank line of a written payload stands right behind its
/// headers.
pub proof fn law_blank_line(hs: Seq<(Seq<u8>, Seq<u8>)>, message: Seq<u8>)
    requires
        headers_ok(hs),
        hs.len() > 0,
    ensures
        blank_line(headed_payload(hs, message)) == Some(headers_bytes(hs).len() - 1),
        headed_payload(hs, message).take(headers_bytes(hs).len() as int) == headers_bytes(hs),
        headed_payload(hs, message).skip(headers_bytes(hs).len() as int + 1) == message,
{
    let h = headers_bytes(hs);
    let p = headed_payload(hs, message);
    headers_bytes_shape(hs);
    blank_line_spec(p);
    let k = h.len() - 1;
    assert(p[k] == h[k]);
    assert(blank_at(p, k));
    assert forall|j: int| 0 <= j < k implies !#[trigger] blank_at(p, j) by {
        assert(p[j] == h[j] && p[j + 1] == h[j + 1]);
        assert(!blank_at(h, j));
    }
    assert(p.take(h.len() as int) =~= h);
    assert(p.skip(h.len() as int + 1) =~= message);
}

/// The lines of a header block can be carried again, except that the first
/// one may begin with a space or a line feed.
pub proof fn read_lines_ok(h: Seq<u8>)
    requires
        h.len() > 0 ==> h.last() == LF && h[0] != SPACE && h[0] != LF,
        forall|j: int| !#[trigger] blank_at(h, j),
    ensures
        forall|i: int| 0 <= i < logical_lines(h).len() ==> line_ok(#[trigger] logical_lines(h)[i]),
    decreases h.len(),
{
    if h.len() > 0 {
        line_end_spec(h);
        let e = line_end(h);
        let n = h.len() as int;
        if e == n {
            assert(!line_ends_at(h, n - 1));
        }
        let line = h.take(e);
        let rest = h.skip(e + 1);
        assert(line_ok(line)) by {
            assert(e > 0);
            assert forall|i: int| #![trigger line[i]]
                0 <= i < line.len() && line[i] == LF implies i + 1 < line.len() && line[i + 1]
                == SPACE by {
                assert(!line_ends_at(h, i));
                assert(h[i + 1] == SPACE);
                assert(h[e] == LF);
            }
        }
        assert forall|j: int| !#[trigger] blank_at(rest, j) by {
            if blank_at(rest, j) {
                assert(rest[j] == h[e + 1 + j] && rest[j + 1] == h[e + 2 + j]);
                assert(blank_at(h, e + 1 + j));
            }
        }
        if rest.len() > 0 {
            assert(rest[0] == h[e + 1]);
            assert(rest.last() == h.last());
            assert(!blank_at(h, e));
        }
        read_lines_ok(rest);
        let all = logical_lines(h);
        assert forall|i: int| 0 <= i < all.len() implies line_ok(#[trigger] all[i]) by {
            if i > 0 {
                assert(all[i] == logical_lines(rest)[i - 1]);
            }
        }
    }
}

} // verus!
