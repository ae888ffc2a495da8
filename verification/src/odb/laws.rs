//! What the object database promises.

use vstd::prelude::*;

use super::setup::laid_out;
use super::{
    after_store, declared_len, frame_parts, loose_frame, loose_path, object_stored, packed_object,
    store_fault, OdbErrorView, Store,
};
use crate::bytes::{ascii, upto, upto_is, upto_spec, NUL, SLASH, SPACE};
use crate::codec::{sha1_digest, zlib_deflated};
use crate::dir::{dirs_above, is_above, DirView};
use crate::notation::{decimal, decimal_round_trip, hex, hex_round_trip, unsigned_text};
use crate::object::laws::{canonical_object, law_object_round_trip, object_ok};
use crate::object::{
    frame, kind_token_facts, law_frame_unframe, law_unframe_frame, object_id, payload_object,
    unframe, ObjectKind, ObjectView,
};
use crate::pack::PackView;

verus! {

/// The path of a loose object has 49 bytes.
pub proof fn loose_path_len(id: Seq<u8>)
    requires
        id.len() == 20,
    ensures
        loose_path(id).len() == 49,
{
    reveal_strlit("objects/");
    hex_round_trip(id);
}

/// Law: no two ids have the same loose file.
pub proof fn law_loose_paths_differ(a: Seq<u8>, b: Seq<u8>)
    requires
        a.len() == 20,
        b.len() == 20,
        loose_path(a) == loose_path(b),
    ensures
        a == b,
{
    reveal_strlit("objects/");
    hex_round_trip(a);
    hex_round_trip(b);
    let pa = loose_path(a);
    let pb = loose_path(b);
    assert forall|i: int| 0 <= i < 40 implies hex(a)[i] == hex(b)[i] by {
        if i < 2 {
            assert(pa[8 + i] == hex(a)[i]);
            assert(pb[8 + i] == hex(b)[i]);
        } else {
            assert(pa[9 + i] == hex(a)[i]);
            assert(pb[9 + i] == hex(b)[i]);
        }
    }
    assert(hex(a) =~= hex(b));
}

/// The frame of an object declares just its length, and its parts are the
/// kind and the payload.
pub proof fn frame_extent(kind: ObjectKind, payload: Seq<u8>)
    requires
        payload.len() <= usize::MAX,
    ensures
        declared_len(frame(kind, payload)) == Some(frame(kind, payload).len() as int),
        frame_parts(frame(kind, payload)) == Ok::<_, OdbErrorView>((kind, payload)),
{
    law_unframe_frame(kind, payload);
    let s = frame(kind, payload);
    let sp = upto(s, SPACE);
    upto_spec(s, SPACE);
    let rest = s.skip(sp + 1);
    let nul = upto(rest, NUL);
    upto_spec(rest, NUL);
    let size = rest.take(nul);
    assert(s.subrange(sp + 1, sp + 1 + nul) =~= size);
    assert(s.skip(sp + 1 + nul + 1) =~= rest.skip(nul + 1));
    assert(unsigned_text(size, usize::MAX as nat) == Some(payload.len())) by {
        crate::object::law_frame_unframe(s);
        let token = ascii(kind.token());
        kind_token_facts(kind);
        decimal_round_trip(payload.len());
        assert forall|j: int| 0 <= j < token.len() implies s[j] != SPACE by {
            assert(s[j] == token[j]);
        }
        upto_is(s, SPACE, token.len() as int);
        let digits = decimal(payload.len());
        assert(rest =~= digits + seq![NUL] + payload);
        assert forall|j: int| 0 <= j < digits.len() implies rest[j] != NUL by {
            assert(rest[j] == digits[j]);
            assert(crate::notation::is_digit(digits[j]));
        }
        upto_is(rest, NUL, digits.len() as int);
        assert(size =~= digits);
        assert(crate::notation::is_digit(digits[0]));
    }
}

/// Whether no other bytes have the digest of `s`.
pub open spec fn only_preimage(s: Seq<u8>) -> bool {
    forall|t: Seq<u8>| #[trigger] sha1_digest(t) == sha1_digest(s) ==> t == s
}

/// Law: an object that was stored can be read: under its id there are its
/// kind and payload, and the object itself if its format can carry it. If
/// there was a file for it before, this rests on there being no other
/// bytes with the same digest.
pub proof fn law_write_then_read(
    before: DirView<Seq<u8>>,
    o: ObjectView,
    after: DirView<Seq<u8>>,
    packs: Seq<PackView>,
)
    requires
        object_stored(before, o, after),
        o.payload().len() <= usize::MAX,
        before.exists_at(loose_path(o.id())) ==> only_preimage(o.framed()),
    ensures
        (Store { git: after, packs }).has(o.id()),
        (Store { git: after, packs }).raw(o.id()) == Ok::<_, OdbErrorView>(
            (o.kind(), o.payload()),
        ),
        object_ok(o) ==> (Store { git: after, packs }).object(o.id()) == Ok::<_, OdbErrorView>(
            canonical_object(o),
        ),
{
    let path = loose_path(o.id());
    let s = Store { git: after, packs };
    frame_extent(o.kind(), o.payload());
    assert(loose_frame(after, o.id()) == Ok::<_, OdbErrorView>(Some(o.framed())));
    if object_ok(o) {
        law_object_round_trip(o);
    }
}

/// The file of another object is read as before.
pub proof fn other_file_kept(git: DirView<Seq<u8>>, id: Seq<u8>, contents: Seq<u8>, other: Seq<u8>)
    requires
        id.len() == 20,
        other.len() == 20,
        other != id,
    ensures
        git.written(loose_path(id), contents).read(loose_path(other)) == git.read(
            loose_path(other),
        ),
        git.written(loose_path(id), contents).exists_at(loose_path(other)) == git.exists_at(
            loose_path(other),
        ),
{
    let p = loose_path(id);
    let q = loose_path(other);
    loose_path_len(id);
    loose_path_len(other);
    if p == q {
        law_loose_paths_differ(id, other);
    }
    let after = git.written(p, contents);
    assert(after.blocked(q) == git.blocked(q)) by {
        if git.blocked(q) {
            let d = choose|d: Seq<u8>| is_above(d, q) && #[trigger] git.files.contains_key(d);
            assert(after.files.contains_key(d));
        }
        if after.blocked(q) {
            let d = choose|d: Seq<u8>| is_above(d, q) && #[trigger] after.files.contains_key(d);
            assert(d != p);
            assert(git.files.contains_key(d));
        }
    }
}

/// Law: storing an object does not change what is read under other ids.
pub proof fn law_write_keeps_others(
    before: DirView<Seq<u8>>,
    o: ObjectView,
    after: DirView<Seq<u8>>,
    packs: Seq<PackView>,
    other: Seq<u8>,
)
    requires
        object_stored(before, o, after),
        o.id().len() == 20,
        other.len() == 20,
        other != o.id(),
    ensures
        (Store { git: after, packs }).raw(other) == (Store { git: before, packs }).raw(other),
        (Store { git: after, packs }).object(other) == (Store { git: before, packs }).object(
            other,
        ),
        (Store { git: after, packs }).has(other) == (Store { git: before, packs }).has(other),
{
    other_file_kept(before, o.id(), zlib_deflated(o.framed())->0, other);
}

/// Law: storing an object again succeeds and changes nothing.
pub proof fn law_write_twice(before: DirView<Seq<u8>>, o: ObjectView, after: DirView<Seq<u8>>)
    requires
        object_stored(before, o, after),
    ensures
        store_fault(after, o) is None,
        after_store(after, o) == (after, None::<OdbErrorView>),
{
}

/// What a pack gives for an id has that id.
proof fn packed_object_hash(packs: Seq<PackView>, id: Seq<u8>)
    ensures
        packed_object(packs, id) matches Ok((kind, payload)) ==> object_id(kind, payload) == id,
    decreases packs.len(),
{
    if packs.len() > 0 {
        packed_object_hash(packs.drop_first(), id);
    }
}

/// Law: what is read under an id has that id: it comes from a payload whose
/// frame has the id as its digest.
pub proof fn law_read_has_id(s: Store, id: Seq<u8>)
    requires
        s.object(id) is Ok,
    ensures
        exists|kind: ObjectKind, payload: Seq<u8>| #[trigger]
            object_id(kind, payload) == id && payload_object(kind, payload) == Ok::<
                _,
                crate::object::ParseErrorView,
            >(s.object(id)->Ok_0),
{
    match loose_frame(s.git, id) {
        Ok(Some(f)) => {
            law_frame_unframe(f);
            let (kind, payload) = unframe(f)->Ok_0;
            assert(object_id(kind, payload) == id);
        },
        _ => {
            packed_object_hash(s.packs, id);
            let (kind, payload) = packed_object(s.packs, id)->Ok_0;
            assert(object_id(kind, payload) == id);
        },
    }
}

/// Law: a kind and payload that are read under an id are those of a frame
/// with the id as its digest.
pub proof fn law_raw_read_has_id(s: Store, id: Seq<u8>)
    requires
        s.raw(id) is Ok,
    ensures
        (exists|f: Seq<u8>| #[trigger]
            sha1_digest(f) == id && frame_parts(f) == s.raw(id)) || object_id(
            s.raw(id)->Ok_0.0,
            s.raw(id)->Ok_0.1,
        ) == id,
{
    match loose_frame(s.git, id) {
        Ok(Some(f)) => {
            assert(sha1_digest(f) == id);
        },
        _ => {
            packed_object_hash(s.packs, id);
        },
    }
}

/// Law: laying out a git directory that is laid out changes nothing, and
/// laying one out changes no file that is there.
pub proof fn law_init_twice(git: DirView<Seq<u8>>)
    requires
        laid_out(git) is Ok,
    ensures
        laid_out(laid_out(git)->Ok_0) == laid_out(git),
        forall|path: Seq<u8>| #[trigger]
            git.files.contains_key(path) ==> laid_out(git)->Ok_0.files.contains_key(path) && laid_out(
                git,
            )->Ok_0.files[path] == git.files[path],
{
    let objects = ascii("objects"@);
    let heads = ascii("refs/heads"@);
    let tags = ascii("refs/tags"@);
    let head = ascii("HEAD"@);
    reveal_strlit("objects");
    reveal_strlit("refs/heads");
    reveal_strlit("refs/tags");
    reveal_strlit("HEAD");
    let g = laid_out(git)->Ok_0;
    let g1 = git.with_dir(objects);
    let g2 = g1.with_dir(heads);
    let g3 = g2.with_dir(tags);
    assert(head[0] == 72u8 && objects[0] == 111u8 && heads[0] == 114u8 && tags[0] == 114u8);
    no_file_added(git, g, objects);
    no_file_added(g1, g, heads);
    no_file_added(g2, g, tags);
    assert(dirs_above(head) =~= Set::<Seq<u8>>::empty()) by {
        assert forall|d: Seq<u8>| !is_above(d, head) by {
            if is_above(d, head) {
                assert(head[d.len() as int] == SLASH);
            }
        }
    }
    assert(g.with_dir(objects).dirs =~= g.dirs);
    assert(g.with_dir(heads).dirs =~= g.dirs);
    assert(g.with_dir(tags).dirs =~= g.dirs);
    assert(g.exists_at(head));
}

/// Where only a file HEAD was added, no directory is kept from being made.
proof fn no_file_added(before: DirView<Seq<u8>>, after: DirView<Seq<u8>>, path: Seq<u8>)
    requires
        !before.mkdir_fault(path),
        path.len() > 0 && path[0] != 72,
        forall|p: Seq<u8>| #[trigger]
            after.files.contains_key(p) ==> before.files.contains_key(p) || p == ascii("HEAD"@),
    ensures
        !after.mkdir_fault(path),
{
    reveal_strlit("HEAD");
    let head = ascii("HEAD"@);
    assert(head[0] == 72u8);
    if after.blocked(path) {
        let d = choose|d: Seq<u8>| is_above(d, path) && #[trigger] after.files.contains_key(d);
        assert(d[0] == path[0]);
        assert(before.files.contains_key(d));
    }
}

} // verus!
