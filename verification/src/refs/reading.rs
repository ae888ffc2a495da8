//! Which names refs may have, and what their files and `packed-refs` say.

use vstd::prelude::*;
use vstd::utf8::valid_utf8;

use super::{
    bare_line, chomp, delete_fault, ends_with, has_pair, head_value, packed_line, packed_map,
    packed_refs_of, ref_content, ref_pairs, ref_target, ref_value, ref_written, valid_name,
    HeadView, RefContent, RefErrorView,
};
use crate::bytemap::{lists_keys, lists_keys_len, sorted_keys, sorted_keys_lists};
use crate::bytes::{ascii, upto_is};
use crate::diff::lines;
use crate::dir::DirView;
use crate::files::IoError;
use crate::notation::{hex, hex_round_trip, text_of};
use crate::object::id_from_hex;
use crate::odb::RepoView;

verus! {

// ---------------------------------------------------------------------
// Names
// ---------------------------------------------------------------------

/// Whether a name holds some bytes side by side.
pub open spec fn holds(n: Seq<u8>, x: Seq<u8>) -> bool {
    exists|a: Seq<u8>, b: Seq<u8>| n == #[trigger] joined3(a, x, b)
}

/// Three byte strings side by side.
pub open spec fn joined3(a: Seq<u8>, x: Seq<u8>, b: Seq<u8>) -> Seq<u8> {
    a + x + b
}

/// A pair of bytes stands in a name.
proof fn pair_held(n: Seq<u8>, a: u8, b: u8)
    ensures
        has_pair(n, a, b) <==> holds(n, seq![a, b]),
{
    if has_pair(n, a, b) {
        let i = choose|i: int| 0 <= i && i + 1 < n.len() && #[trigger] n[i] == a && n[i + 1] == b;
        assert(n =~= joined3(n.take(i), seq![a, b], n.skip(i + 2)));
    }
    if holds(n, seq![a, b]) {
        let p = seq![a, b];
        let (x, y) = choose|x: Seq<u8>, y: Seq<u8>| n == #[trigger] joined3(x, p, y);
        assert(n[x.len() as int] == a && n[x.len() as int + 1] == b);
    }
}

/// The bytes that no ref's name may hold: control characters and the space,
/// DEL, and the bytes of `~^:?*[\`.
pub open spec fn forbidden(b: u8) -> bool {
    b <= 32 || b == 127 || b == 126 || b == 94 || b == 58 || b == 63 || b == 42 || b == 91 || b
        == 92
}

/// Law: `HEAD` is a valid name. Another name is one unless it is empty, begins
/// with `-`, `.` or `/`, ends with `/` or `.lock`, or holds `..`, `//` or a
/// forbidden byte.
pub proof fn law_valid_name(n: Seq<u8>)
    requires
        n != seq![72u8, 69u8, 65u8, 68u8],
    ensures
        valid_name(seq![72u8, 69u8, 65u8, 68u8]),
        valid_name(n) <==> {
            &&& n.len() > 0
            &&& n[0] != 45 && n[0] != 46 && n[0] != 47
            &&& n.last() != 47
            &&& !(n.len() >= 5 && n.skip(n.len() - 5) == seq![46u8, 108u8, 111u8, 99u8, 107u8])
            &&& !holds(n, seq![46u8, 46u8])
            &&& !holds(n, seq![47u8, 47u8])
            &&& forall|i: int| 0 <= i < n.len() ==> !forbidden(#[trigger] n[i])
        },
{
    reveal_strlit("HEAD");
    reveal_strlit(".lock");
    assert(ascii("HEAD"@) =~= seq![72u8, 69u8, 65u8, 68u8]);
    assert(ascii(".lock"@) =~= seq![46u8, 108u8, 111u8, 99u8, 107u8]);
    pair_held(n, 46, 46);
    pair_held(n, 47, 47);
    assert(ends_with(n, ascii(".lock"@)) <==> n.len() >= 5 && n.skip(n.len() - 5) == ascii(
        ".lock"@,
    ));
    assert((forall|i: int| 0 <= i < n.len() ==> super::name_byte_ok(#[trigger] n[i])) <==> (forall|
        i: int,
    |
        0 <= i < n.len() ==> !forbidden(#[trigger] n[i])));
}

// ---------------------------------------------------------------------
// Files
// ---------------------------------------------------------------------

/// The beginning of a symbolic ref: `ref: `.
pub open spec fn symbolic_mark() -> Seq<u8> {
    seq![114u8, 101u8, 102u8, 58u8, 32u8]
}

/// The mark is what the text says.
proof fn mark_is()
    ensures
        ascii("ref: "@) == symbolic_mark(),
{
    reveal_strlit("ref: ");
    assert(ascii("ref: "@) =~= symbolic_mark());
}

/// A line with the mark is read.
proof fn symbolic_line(t: Seq<u8>)
    requires
        t.len() == 0 || t.last() != 10,
    ensures
        ref_content(symbolic_mark() + t) == RefContent::Symbolic(t),
        ref_content((symbolic_mark() + t).push(10)) == RefContent::Symbolic(t),
{
    let m = symbolic_mark();
    mark_is();
    let l = m + t;
    assert(l.last() != 10) by {
        if t.len() > 0 {
            assert(l.last() == t.last());
        } else {
            assert(l.last() == m[4]);
        }
    }
    assert(chomp(l) == l);
    assert(l.push(10).drop_last() =~= l);
    assert(chomp(l.push(10)) == l);
    assert(m =~= l.take(5));
    assert(m.is_prefix_of(l));
    assert(l.skip(5) =~= t);
}

/// Only such a line is read so.
proof fn symbolic_only(c: Seq<u8>, t: Seq<u8>)
    requires
        ref_content(c) == RefContent::Symbolic(t),
    ensures
        c == symbolic_mark() + t || c == (symbolic_mark() + t).push(10),
{
    let m = symbolic_mark();
    mark_is();
    let u = chomp(c);
    assert(m.is_prefix_of(u) && t == u.skip(5));
    assert(m.len() == 5 && u.take(5) == m);
    assert(u =~= u.take(5) + u.skip(5));
    if c.len() > 0 && c.last() == 10 {
        assert(c =~= u.push(10));
    }
}

/// Law: a ref's file with `ref: ` and a name is a symbolic ref to that name; no
/// other file is one. A line feed at the end makes no difference.
pub proof fn law_symbolic(c: Seq<u8>, t: Seq<u8>)
    requires
        t.len() == 0 || t.last() != 10,
    ensures
        ref_content(symbolic_mark() + t) == RefContent::Symbolic(t),
        ref_content((symbolic_mark() + t).push(10)) == RefContent::Symbolic(t),
        ref_content(c) == RefContent::Symbolic(t) ==> c == symbolic_mark() + t || c == (
        symbolic_mark() + t).push(10),
{
    symbolic_line(t);
    if ref_content(c) == RefContent::Symbolic(t) {
        symbolic_only(c, t);
    }
}

/// Law: a ref's file with an id's 40 digits leads to the id. A line feed at the
/// end makes no difference.
pub proof fn law_id_file(id: Seq<u8>)
    requires
        id.len() == 20,
    ensures
        ref_content(hex(id)) == RefContent::Id(id),
        ref_content(hex(id).push(10)) == RefContent::Id(id),
{
    super::laws::id_line_reads(id);
    hex_round_trip(id);
    let h = hex(id);
    assert(h.push(10).drop_last() =~= h);
    if h.last() == 10 {
        assert(crate::notation::nibble_value(h[h.len() - 1]) is Some);
    }
}

/// Law: only a file with 40 hexadecimal digits and at most a line feed behind
/// them leads to an id.
pub proof fn law_id_file_only(c: Seq<u8>)
    ensures
        ref_content(c) is Id ==> c.len() == 40 || (c.len() == 41 && c[40] == 10),
        ref_content(c) matches RefContent::Id(id) ==> id_from_hex(c.take(40)) == Some(id),
{
    if ref_content(c) is Id {
        assert(c.take(40) =~= chomp(c));
    }
}

/// Whether the file of a ref points at another ref.
pub open spec fn points_at(git: DirView<Seq<u8>>, name: Seq<u8>, target: Seq<u8>) -> bool {
    &&& git.read(name) matches Ok(c) && valid_utf8(c) && (c == symbolic_mark() + target || c == (
    symbolic_mark() + target).push(10))
    &&& valid_name(target)
}

/// The last byte of a name is no line feed.
proof fn name_end(n: Seq<u8>)
    requires
        valid_name(n),
    ensures
        n.len() > 0,
        n.last() != 10,
{
    reveal_strlit("HEAD");
    if n == ascii("HEAD"@) {
        assert(n.last() == 68);
    } else {
        assert(super::name_byte_ok(n[n.len() - 1]));
    }
}

/// A chain of symbolic refs is followed, to its end or to the limit.
proof fn chain_followed(
    git: DirView<Seq<u8>>,
    packed: Map<Seq<u8>, Seq<u8>>,
    names: Seq<Seq<u8>>,
    depth: nat,
)
    requires
        names.len() > 0,
        forall|i: int|
            0 <= i < names.len() - 1 ==> points_at(git, #[trigger] names[i], names[i + 1]),
        depth <= 6,
    ensures
        depth + names.len() <= 6 ==> ref_target(git, packed, names[0], depth) == ref_target(
            git,
            packed,
            names.last(),
            (depth + names.len() - 1) as nat,
        ),
        depth + names.len() > 6 ==> ref_target(git, packed, names[0], depth) == Err::<Seq<u8>, _>(
            RefErrorView::SymRefLoop(5),
        ),
    decreases names.len(),
{
    if depth < 6 && names.len() > 1 {
        let t = names.drop_first();
        let i: int = 0;
        assert(points_at(git, names[i], names[i + 1]));
        assert forall|i: int| 0 <= i < t.len() - 1 implies points_at(
            git,
            #[trigger] t[i],
            t[i + 1],
        ) by {
            assert(points_at(git, names[i + 1], names[i + 1 + 1]));
        }
        name_end(names[1]);
        law_symbolic(git.read(names[0])->Ok_0, names[1]);
        chain_followed(git, packed, t, depth + 1);
    }
}

/// Law: a ref leads where its chain of symbolic refs ends: to the id in the
/// file of the last name, or to the packed id where that name has no file.
/// Chains of more than five steps are refused.
pub proof fn law_ref_chain(repo: RepoView, names: Seq<Seq<u8>>, id: Seq<u8>)
    requires
        names.len() > 0,
        valid_name(names[0]),
        forall|i: int|
            0 <= i < names.len() - 1 ==> points_at(repo.git, #[trigger] names[i], names[i + 1]),
    ensures
        names.len() > 6 ==> ref_value(repo, names[0]) == Err::<Seq<u8>, _>(
            RefErrorView::SymRefLoop(5),
        ),
        names.len() <= 6 && id.len() == 20 && (repo.git.read(names.last()) == Ok::<_, IoError>(
            hex(id),
        ) || repo.git.read(names.last()) == Ok::<_, IoError>(hex(id).push(10))) ==> ref_value(
            repo,
            names[0],
        ) == Ok::<_, RefErrorView>(id),
        names.len() <= 6 && repo.git.read(names.last()) == Err::<Seq<u8>, _>(IoError::NotFound)
            ==> ref_value(repo, names[0]) == if repo.packed_refs.contains_key(names.last()) {
            Ok::<_, RefErrorView>(repo.packed_refs[names.last()])
        } else {
            Err(RefErrorView::RefNotFound(text_of(names.last())))
        },
{
    chain_followed(repo.git, repo.packed_refs, names, 0);
    if id.len() == 20 {
        law_id_file(id);
        super::laws::id_line_reads(id);
        hex_round_trip(id);
        crate::notation::ascii_bytes_encode(hex(id));
    }
}

/// Law: HEAD is a symbolic ref where its file says so, and detached where its
/// file holds an id.
pub proof fn law_head_value(git: DirView<Seq<u8>>, t: Seq<u8>, id: Seq<u8>)
    ensures
        ({
            let head = seq![72u8, 69u8, 65u8, 68u8];
            &&& t.len() > 0 && t.last() != 10 && valid_utf8((symbolic_mark() + t).push(10))
                && git.read(head) == Ok::<_, IoError>((symbolic_mark() + t).push(10)) ==> head_value(
                git,
            ) == Ok::<_, RefErrorView>(HeadView::Symbolic(text_of(t)))
            &&& id.len() == 20 && git.read(head) == Ok::<_, IoError>(hex(id).push(10))
                ==> head_value(git) == Ok::<_, RefErrorView>(HeadView::Detached(id))
        }),
{
    reveal_strlit("HEAD");
    assert(ascii("HEAD"@) =~= seq![72u8, 69u8, 65u8, 68u8]);
    if t.len() > 0 && t.last() != 10 {
        law_symbolic(Seq::empty(), t);
    }
    if id.len() == 20 {
        super::laws::id_line_reads(id);
    }
}

// ---------------------------------------------------------------------
// Packed refs
// ---------------------------------------------------------------------

/// How a line ends.
pub open spec fn ending(e: Seq<u8>) -> bool {
    e == Seq::<u8>::empty() || e == seq![10u8] || e == seq![13u8, 10u8]
}

/// What is left of a line without its end.
proof fn bare_line_is(s: Seq<u8>, e: Seq<u8>)
    requires
        ending(e),
        s.len() == 0 || (s.last() != 10 && s.last() != 13),
    ensures
        bare_line(s + e) == s,
{
    let l = s + e;
    if e.len() == 0 {
        assert(l =~= s);
    } else if e.len() == 1 {
        assert(l.last() == 10);
        assert(l.drop_last() =~= s);
    } else {
        assert(l.last() == 10);
        assert(l.drop_last() =~= s.push(13));
        assert(l.drop_last().drop_last() =~= s);
    }
}

/// Law: a line of `packed-refs` with an id's digits, a space and a valid name
/// states that ref; a comment, the line of a peeled tag, and a blank line
/// state none.
pub proof fn law_packed_line(id: Seq<u8>, name: Seq<u8>, e: Seq<u8>, x: Seq<u8>)
    requires
        ending(e),
    ensures
        id.len() == 20 && valid_name(name) ==> packed_line(hex(id) + seq![32u8] + name + e)
            == Some((name, id)),
        packed_line(e) is None,
        x.len() == 0 || (x.last() != 10 && x.last() != 13) ==> packed_line(seq![35u8] + x + e)
            is None && packed_line(seq![94u8] + x + e) is None,
{
    assert(Seq::<u8>::empty() + e =~= e);
    bare_line_is(Seq::empty(), e);
    if x.len() == 0 || (x.last() != 10 && x.last() != 13) {
        let (p, q) = (seq![35u8] + x, seq![94u8] + x);
        assert(p.last() == 35 || p.last() == x.last());
        assert(q.last() == 94 || q.last() == x.last());
        bare_line_is(p, e);
        bare_line_is(q, e);
    }
    if id.len() == 20 && valid_name(name) {
        hex_round_trip(id);
        let h = hex(id);
        let l = h + seq![32u8] + name;
        name_bytes(name);
        assert(l.last() == name.last());
        bare_line_is(l, e);
        assert forall|j: int| 0 <= j < 40 implies l[j] != 32 by {
            assert(l[j] == h[j]);
            assert(crate::notation::nibble_value(h[j]) is Some);
        }
        assert(l[40] == 32);
        upto_is(l, 32, 40);
        assert(l.take(40) =~= h);
        assert(l.skip(41) =~= name);
        assert(l[0] == h[0]);
        assert(crate::notation::nibble_value(h[0]) is Some);
    }
}

/// A valid name ends with no line end.
proof fn name_bytes(n: Seq<u8>)
    requires
        valid_name(n),
    ensures
        n.len() > 0,
        n.last() != 10,
        n.last() != 13,
{
    reveal_strlit("HEAD");
    if n == ascii("HEAD"@) {
        assert(n.last() == 68);
    } else {
        assert(super::name_byte_ok(n[n.len() - 1]));
    }
}

/// Law: a line of `packed-refs` states a ref only if it holds an id's digits, a
/// space and a valid name.
pub proof fn law_packed_line_only(l: Seq<u8>)
    ensures
        packed_line(l) matches Some((name, id)) ==> valid_name(name) && l.len() > 41 && l[40] == 32
            && id_from_hex(l.take(40)) == Some(id) && name.is_prefix_of(l.skip(41)),
{
    if packed_line(l) is Some {
        let t = bare_line(l);
        crate::bytes::upto_spec(t, 32);
        assert(crate::bytes::upto(t, 32) == 40);
        assert(t.is_prefix_of(l)) by {
            assert(t =~= l.take(t.len() as int));
        }
        assert(l.take(40) =~= t.take(40));
        name_bytes(t.skip(41));
        assert(t.skip(41) =~= l.skip(41).take(t.len() - 41));
    }
}

/// Law: the refs of `packed-refs` are those of its lines, the later ones over
/// the earlier ones.
pub proof fn law_packed_map(a: Seq<Seq<u8>>, b: Seq<Seq<u8>>, l: Seq<u8>)
    ensures
        packed_map(a + b) == packed_map(a).union_prefer_right(packed_map(b)),
        packed_line(l) is None ==> packed_map(seq![l]) == Map::<Seq<u8>, Seq<u8>>::empty(),
        packed_line(l) matches Some((name, id)) ==> packed_map(seq![l]) == Map::<
            Seq<u8>,
            Seq<u8>,
        >::empty().insert(name, id),
    decreases b.len(),
{
    reveal_with_fuel(packed_map, 2);
    assert(seq![l].drop_last() =~= Seq::<Seq<u8>>::empty());
    if b.len() == 0 {
        assert(a + b =~= a);
        assert(packed_map(a).union_prefer_right(packed_map(b)) =~= packed_map(a));
    } else {
        law_packed_map(a, b.drop_last(), l);
        assert((a + b).drop_last() =~= a + b.drop_last());
        assert((a + b).last() == b.last());
        assert(packed_map(a + b) =~= packed_map(a).union_prefer_right(packed_map(b)));
    }
}

/// Law: the packed refs are those that the lines of `packed-refs` state; there
/// are none where there is no such file.
pub proof fn law_packed_refs(git: DirView<Seq<u8>>)
    ensures
        ({
            let f = git.read(ascii("packed-refs"@));
            &&& f matches Ok(c) ==> valid_utf8(c) ==> packed_refs_of(git) == Ok::<_, IoError>(
                packed_map(lines(c)),
            )
            &&& f matches Ok(c) ==> !valid_utf8(c) ==> packed_refs_of(git) == Err::<
                Map<Seq<u8>, Seq<u8>>,
                _,
            >(IoError::InvalidData)
            &&& f == Err::<Seq<u8>, _>(IoError::NotFound) ==> packed_refs_of(git) == Ok::<
                _,
                IoError,
            >(Map::<Seq<u8>, Seq<u8>>::empty())
        }),
{
}

/// Law: a listing names each ref once, by ascending name.
pub proof fn law_ref_pairs(m: Map<Seq<u8>, Seq<u8>>, n: Seq<u8>)
    requires
        m.dom().finite(),
    ensures
        ref_pairs(m).len() == m.dom().len(),
        m.contains_key(n) ==> ref_pairs(m).contains((text_of(n), m[n])),
        exists|names: Seq<Seq<u8>>| #[trigger]
            lists_keys(names, m.dom()) && names.len() == ref_pairs(m).len() && forall|i: int|
                0 <= i < names.len() ==> #[trigger] ref_pairs(m)[i] == (
                    text_of(names[i]),
                    m[names[i]],
                ),
{
    sorted_keys_lists(m.dom());
    let names = sorted_keys(m.dom());
    lists_keys_len(names, m.dom());
    let ps = ref_pairs(m);
    assert(lists_keys(names, m.dom()));
    if m.contains_key(n) {
        assert(names.contains(n));
        let i = choose|i: int| 0 <= i < names.len() && names[i] == n;
        assert(ps[i] == (text_of(n), m[n]));
        assert(ps.contains(ps[i]));
    }
}

/// Law: a ref can be deleted if and only if it is a valid name other than `HEAD`
/// with a file of its own. One that only `packed-refs` has is refused as such,
/// and one that nothing has is not found.
pub proof fn law_delete_fault(repo: RepoView, name: Seq<u8>)
    ensures
        ({
            let head = name == seq![72u8, 69u8, 65u8, 68u8];
            let file = repo.git.files.contains_key(name);
            let absent = repo.git.read(name) == Err::<Seq<u8>, _>(IoError::NotFound);
            &&& delete_fault(repo, name) is None <==> !head && valid_name(name) && file
            &&& delete_fault(repo, name) == Some(RefErrorView::CannotDeleteHead) <==> head
            &&& !head && valid_name(name) && absent ==> delete_fault(repo, name) == Some(
                if repo.packed_refs.contains_key(name) {
                    RefErrorView::CannotDeletePackedOnly(text_of(name))
                } else {
                    RefErrorView::RefNotFound(text_of(name))
                },
            )
        }),
{
    reveal_strlit("HEAD");
    assert(ascii("HEAD"@) =~= seq![72u8, 69u8, 65u8, 68u8]);
}

/// Law: a ref is written if and only if its name is valid and nothing is in the
/// way of its file; then the file holds the line, and else nothing changes.
pub proof fn law_ref_written(repo: RepoView, name: Seq<u8>, line: Seq<u8>)
    ensures
        ref_written(repo, name, line).1 is None <==> valid_name(name) && repo.git.write_fault(name)
            is None,
        ref_written(repo, name, line).1 is None ==> ref_written(repo, name, line).0.git.read(name)
            == Ok::<_, IoError>(line),
        ref_written(repo, name, line).1 is Some ==> ref_written(repo, name, line).0 == repo,
{
}

} // verus!
