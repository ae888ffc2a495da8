//! Where objects are found, and how a repository is laid out and opened.

use vstd::prelude::*;
use vstd::utf8::encode_utf8;

use super::resolve::{fan_dir, is_candidate, is_resolution, loose_match, lower};
use super::setup::{
    insert_pack, is_pack_path, laid_out, mtime, open_packs, pack_paths, search_order,
};
use super::{loose_path, packed_object, OdbErrorView, Store};
use crate::bytes::{ascii, lex_lt, lex_lt_total};
use crate::dir::{is_above, DirView};
use crate::files::IoError;
use crate::notation::{all_hex, hex, hex_round_trip, nibble_value, unhex};
use crate::object::{object_id, payload_object, ObjectKind, ObjectView};
use crate::pack::PackView;
use crate::refs::ends_with;

verus! {

// ---------------------------------------------------------------------
// Reading
// ---------------------------------------------------------------------

/// What the first pack with an object gives.
proof fn first_pack_read(packs: Seq<PackView>, id: Seq<u8>, k: int)
    requires
        0 <= k <= packs.len(),
        forall|i: int|
            0 <= i < k ==> (#[trigger] packs[i]).object(id) == Ok::<
                Option<(ObjectKind, Seq<u8>)>,
                crate::pack::PackErrorView,
            >(None),
    ensures
        packed_object(packs, id) == packed_object(packs.skip(k), id),
    decreases k,
{
    if k == 0 {
        assert(packs.skip(0) =~= packs);
    } else {
        let t = packs.drop_first();
        assert(packs[0].object(id) is Ok);
        assert forall|i: int| 0 <= i < k - 1 implies (#[trigger] t[i]).object(id) == Ok::<
            Option<(ObjectKind, Seq<u8>)>,
            crate::pack::PackErrorView,
        >(None) by {
            assert(t[i] == packs[i + 1]);
        }
        first_pack_read(t, id, k - 1);
        assert(t.skip(k - 1) =~= packs.skip(k));
    }
}

/// Law: an object without a loose file is read from the first pack that has
/// it, with its kind and payload as they are there.
pub proof fn law_packed_read(s: Store, id: Seq<u8>, k: int, kind: ObjectKind, payload: Seq<u8>)
    requires
        s.git.read(loose_path(id)) == Err::<Seq<u8>, _>(IoError::NotFound),
        0 <= k < s.packs.len(),
        forall|i: int|
            0 <= i < k ==> (#[trigger] s.packs[i]).object(id) == Ok::<
                Option<(ObjectKind, Seq<u8>)>,
                crate::pack::PackErrorView,
            >(None),
        s.packs[k].object(id) == Ok::<_, crate::pack::PackErrorView>(Some((kind, payload))),
        object_id(kind, payload) == id,
    ensures
        s.raw(id) == Ok::<_, OdbErrorView>((kind, payload)),
        payload_object(kind, payload) matches Ok(o) ==> s.object(id) == Ok::<_, OdbErrorView>(o),
{
    first_pack_read(s.packs, id, k);
    assert(s.packs.skip(k)[0] == s.packs[k]);
}

/// Law: an object without a loose file that no pack has is not found.
pub proof fn law_not_found(s: Store, id: Seq<u8>)
    requires
        s.git.read(loose_path(id)) == Err::<Seq<u8>, _>(IoError::NotFound),
        forall|i: int|
            0 <= i < s.packs.len() ==> (#[trigger] s.packs[i]).object(id) == Ok::<
                Option<(ObjectKind, Seq<u8>)>,
                crate::pack::PackErrorView,
            >(None),
    ensures
        s.raw(id) == Err::<(ObjectKind, Seq<u8>), _>(OdbErrorView::ObjectNotFound(id)),
        s.object(id) == Err::<ObjectView, _>(OdbErrorView::ObjectNotFound(id)),
{
    first_pack_read(s.packs, id, s.packs.len() as int);
}

/// Law: the file of a loose object is `objects/`, the first two digits of its
/// id, a slash, and the other digits.
pub proof fn law_loose_path(id: Seq<u8>)
    requires
        id.len() == 20,
    ensures
        loose_path(id) == seq![111u8, 98u8, 106u8, 101u8, 99u8, 116u8, 115u8, 47u8] + hex(id).take(
            2,
        ) + seq![47u8] + hex(id).subrange(2, 40),
{
    reveal_strlit("objects/");
    hex_round_trip(id);
    assert(ascii("objects/"@) =~= seq![111u8, 98u8, 106u8, 101u8, 99u8, 116u8, 115u8, 47u8]);
    assert(hex(id).skip(2) =~= hex(id).subrange(2, 40));
}

// ---------------------------------------------------------------------
// Looking up by a prefix
// ---------------------------------------------------------------------

/// Hexadecimal digits that are read and written again are in lower case.
proof fn hex_lowered(t: Seq<u8>)
    requires
        all_hex(t),
        t.len() % 2 == 0,
    ensures
        hex(unhex(t)) == lower(t),
{
    let h = hex(unhex(t));
    let u = unhex(t);
    assert(h.len() == t.len());
    assert forall|i: int| 0 <= i < t.len() implies h[i] == lower(t)[i] by {
        let j = i / 2;
        assert(nibble_value(t[2 * j]) is Some);
        assert(nibble_value(t[2 * j + 1]) is Some);
        let a = nibble_value(t[2 * j])->0;
        let b = nibble_value(t[2 * j + 1])->0;
        assert(a < 16 && b < 16);
        assert(u[j] == a * 16 + b);
        assert(i == 2 * j || i == 2 * j + 1);
    }
    assert(h =~= lower(t));
}

/// The loose file of an id matches just the prefixes of its digits.
proof fn loose_file_matches(id: Seq<u8>, p: Seq<u8>)
    requires
        id.len() == 20,
        2 <= p.len() <= 40,
        p.is_prefix_of(hex(id)),
    ensures
        loose_match(loose_path(id), p) == Some(id),
{
    reveal_strlit("objects/");
    hex_round_trip(id);
    let path = loose_path(id);
    let name = path.skip(11);
    let h = hex(id);
    assert(p.take(2) =~= h.take(2));
    assert(fan_dir(p) =~= path.take(11));
    assert(name =~= h.skip(2));
    assert(p.skip(2) =~= name.take(p.len() - 2));
    assert(p.take(2) + name =~= h);
}

/// A path that matches gives an id with the prefix.
proof fn match_has_prefix(path: Seq<u8>, p: Seq<u8>)
    requires
        2 <= p.len() <= 40,
        lower(p) == p,
        loose_match(path, p) is Some,
    ensures
        p.is_prefix_of(hex(loose_match(path, p)->0)),
{
    let name = path.skip(11);
    let t = p.take(2) + name;
    hex_lowered(t);
    assert forall|i: int| 0 <= i < p.len() implies p[i] == lower(t)[i] by {
        if i >= 2 {
            assert(p.skip(2)[i - 2] == name.take(p.len() - 2)[i - 2]);
            assert(t[i] == name[i - 2]);
        }
        assert(t[i] == p[i]);
        assert(lower(p)[i] == p[i]);
    }
    assert(p =~= lower(t).take(p.len() as int));
}

/// Law: what a prefix is resolved to has the prefix, whatever its case, and no
/// other stored object has: neither one with a loose file nor one in a pack.
pub proof fn law_resolution(s: Store, prefix: Seq<char>, id: Seq<u8>, other: Seq<u8>)
    requires
        encode_utf8(prefix).len() < 40,
        is_resolution(s, prefix, Ok(id)),
        other.len() == 20,
        s.git.files.contains_key(loose_path(other)) || exists|i: int|
            0 <= i < s.packs.len() && #[trigger] s.packs[i].ids.contains(other),
    ensures
        encode_utf8(prefix).len() >= 4,
        lower(encode_utf8(prefix)).is_prefix_of(hex(id)),
        lower(encode_utf8(prefix)).is_prefix_of(hex(other)) ==> other == id,
{
    let p = lower(encode_utf8(prefix));
    assert(lower(p) =~= p);
    assert(is_candidate(s, p, id));
    if !p.is_prefix_of(hex(id)) {
        let path = choose|path: Seq<u8>|
            (s.git.files.contains_key(path) || s.git.dirs.contains(path)) && #[trigger] loose_match(
                path,
                p,
            ) == Some(id);
        match_has_prefix(path, p);
    }
    if p.is_prefix_of(hex(other)) {
        if s.git.files.contains_key(loose_path(other)) {
            loose_file_matches(other, p);
            assert(loose_match(loose_path(other), p) == Some(other));
        }
        assert(is_candidate(s, p, other));
    }
}

/// Law: a text can be a prefix if and only if it is 4 to 40 hexadecimal digits;
/// all 40 of a stored object's digits lead to the object.
pub proof fn law_prefix(s: Store, prefix: Seq<char>, r: Result<Seq<u8>, OdbErrorView>)
    requires
        is_resolution(s, prefix, r),
    ensures
        ({
            let p = encode_utf8(prefix);
            &&& r == Err::<Seq<u8>, _>(OdbErrorView::InvalidPrefix(prefix)) <==> !(4 <= p.len()
                <= 40 && forall|i: int| 0 <= i < p.len() ==> #[trigger] nibble_value(p[i]) is Some)
            &&& forall|id: Seq<u8>|
                p == hex(id) && id.len() == 20 && #[trigger] s.has(id) ==> r == Ok::<
                    _,
                    OdbErrorView,
                >(id)
        }),
{
    let p = encode_utf8(prefix);
    assert(all_hex(p) <==> forall|i: int|
        0 <= i < p.len() ==> #[trigger] nibble_value(p[i]) is Some);
    assert forall|id: Seq<u8>| p == hex(id) && id.len() == 20 && #[trigger] s.has(id) implies r
        == Ok::<_, OdbErrorView>(id) by {
        hex_round_trip(id);
    }
}

// ---------------------------------------------------------------------
// Packs
// ---------------------------------------------------------------------

/// Whether `a` may stand before `b`: it is newer, or as new with a name that
/// is not greater.
pub open spec fn may_precede(times: Map<Seq<u8>, u64>, a: Seq<u8>, b: Seq<u8>) -> bool {
    let ta = if times.contains_key(a) {
        times[a] as int
    } else {
        0
    };
    let tb = if times.contains_key(b) {
        times[b] as int
    } else {
        0
    };
    ta > tb || (ta == tb && (a == b || lex_lt(a, b)))
}

/// Standing before goes on.
proof fn precedes_on(times: Map<Seq<u8>, u64>, a: Seq<u8>, b: Seq<u8>, c: Seq<u8>)
    requires
        may_precede(times, a, b),
        may_precede(times, b, c),
    ensures
        may_precede(times, a, c),
{
    if a != b && b != c && lex_lt(a, b) && lex_lt(b, c) {
        crate::bytes::lex_lt_transitive(a, b, c);
    }
}

/// One of two may stand before the other.
proof fn precedes_either(times: Map<Seq<u8>, u64>, a: Seq<u8>, b: Seq<u8>)
    ensures
        super::setup::searched_before(times, a, b) ==> may_precede(times, a, b),
        !super::setup::searched_before(times, a, b) ==> may_precede(times, b, a),
{
    lex_lt_total(a, b);
    assert(mtime(times, a) as int == if times.contains_key(a) {
        times[a] as int
    } else {
        0
    });
    assert(mtime(times, b) as int == if times.contains_key(b) {
        times[b] as int
    } else {
        0
    });
}

/// Whether a list of packs stands in the order of the search.
pub open spec fn in_search_order(times: Map<Seq<u8>, u64>, ps: Seq<Seq<u8>>) -> bool {
    forall|i: int, j: int|
        0 <= i < j < ps.len() ==> may_precede(times, #[trigger] ps[i], #[trigger] ps[j])
}

/// A pack that is put in its place.
proof fn insert_pack_ordered(times: Map<Seq<u8>, u64>, ps: Seq<Seq<u8>>, p: Seq<u8>)
    requires
        in_search_order(times, ps),
    ensures
        in_search_order(times, insert_pack(times, ps, p)),
        insert_pack(times, ps, p).to_multiset() == ps.to_multiset().insert(p),
        forall|q: Seq<u8>| #[trigger]
            insert_pack(times, ps, p).contains(q) ==> q == p || ps.contains(q),
    decreases ps.len(),
{
    broadcast use vstd::seq_lib::group_to_multiset_ensures;

    let r = insert_pack(times, ps, p);
    if ps.len() == 0 || !super::setup::searched_before(times, p, ps.last()) {
        assert forall|i: int, j: int| 0 <= i < j < r.len() implies may_precede(
            times,
            #[trigger] r[i],
            #[trigger] r[j],
        ) by {
            if j == ps.len() {
                precedes_either(times, p, ps.last());
                if i < ps.len() - 1 {
                    assert(may_precede(times, ps[i], ps[ps.len() - 1]));
                    precedes_on(times, ps[i], ps.last(), p);
                }
            }
        }
        assert forall|q: Seq<u8>| #[trigger] r.contains(q) implies q == p || ps.contains(q) by {
            let i = choose|i: int| 0 <= i < r.len() && r[i] == q;
            if i < ps.len() {
                assert(ps[i] == q);
            }
        }
    } else {
        let t = ps.drop_last();
        let x = ps.last();
        insert_pack_ordered(times, t, p);
        let u = insert_pack(times, t, p);
        precedes_either(times, p, x);
        assert forall|i: int, j: int| 0 <= i < j < r.len() implies may_precede(
            times,
            #[trigger] r[i],
            #[trigger] r[j],
        ) by {
            if j == u.len() {
                assert(u.contains(u[i]));
                if u[i] != p {
                    let k = choose|k: int| 0 <= k < t.len() && t[k] == u[i];
                    assert(may_precede(times, ps[k], ps[ps.len() - 1]));
                }
            } else {
                assert(may_precede(times, u[i], u[j]));
            }
        }
        assert forall|q: Seq<u8>| #[trigger] r.contains(q) implies q == p || ps.contains(q) by {
            let i = choose|i: int| 0 <= i < r.len() && r[i] == q;
            if i < u.len() {
                assert(u.contains(u[i]));
                if q != p {
                    let k = choose|k: int| 0 <= k < t.len() && t[k] == q;
                    assert(ps[k] == q);
                }
            } else {
                assert(ps[ps.len() - 1] == q);
            }
        }
        assert(t.push(x) =~= ps);
        assert(r.to_multiset() =~= ps.to_multiset().insert(p));
    }
}

/// Law: the packs are searched each once, the newer ones before the older
/// ones, and those of one age by name.
pub proof fn law_search_order(times: Map<Seq<u8>, u64>, ps: Seq<Seq<u8>>)
    ensures
        search_order(times, ps).to_multiset() == ps.to_multiset(),
        in_search_order(times, search_order(times, ps)),
    decreases ps.len(),
{
    broadcast use vstd::seq_lib::group_to_multiset_ensures;

    if ps.len() > 0 {
        law_search_order(times, ps.drop_last());
        insert_pack_ordered(times, search_order(times, ps.drop_last()), ps.last());
        assert(ps.drop_last().push(ps.last()) =~= ps);
    }
}

/// The path of a pack with a name.
pub open spec fn pack_named(name: Seq<u8>) -> Seq<u8> {
    ascii("objects/pack/"@) + name + ascii(".pack"@)
}

/// Law: the packs are the files of the pack directory with the extension
/// `pack`, in the order in which they are listed.
pub proof fn law_pack_paths(paths: Seq<Seq<u8>>, path: Seq<u8>)
    ensures
        pack_paths(paths).contains(path) <==> paths.contains(path) && is_pack_path(path),
        is_pack_path(path) <==> exists|name: Seq<u8>|
            path == #[trigger] pack_named(name) && name.len() > 0 && !name.contains(47u8),
    decreases paths.len(),
{
    reveal_strlit("objects/pack/");
    reveal_strlit(".pack");
    let a = ascii("objects/pack/"@);
    let z = ascii(".pack"@);
    if is_pack_path(path) {
        let name = path.subrange(13, path.len() - 5);
        assert(path =~= pack_named(name));
        if name.contains(47u8) {
            let i = choose|i: int| 0 <= i < name.len() && name[i] == 47;
            assert(path.skip(13)[i] == 47);
        }
    }
    if exists|name: Seq<u8>|
        path == #[trigger] pack_named(name) && name.len() > 0 && !name.contains(47u8) {
        let name = choose|name: Seq<u8>|
            path == #[trigger] pack_named(name) && name.len() > 0 && !name.contains(47u8);
        assert(a =~= path.take(13));
        assert(path.skip(path.len() - 5) =~= z);
        assert(ends_with(path, z));
        let rest = path.skip(13);
        if rest.contains(47u8) {
            let i = choose|i: int| 0 <= i < rest.len() && rest[i] == 47;
            if i < name.len() {
                assert(name[i] == 47);
            } else {
                assert(rest[i] == z[i - name.len()]);
            }
        }
    }
    if paths.len() > 0 {
        let t = paths.drop_last();
        let x = paths.last();
        law_pack_paths(t, path);
        if paths.contains(path) {
            let i = choose|i: int| 0 <= i < paths.len() && paths[i] == path;
            if i < t.len() {
                assert(t[i] == path);
            }
        }
        if t.contains(path) {
            let i = choose|i: int| 0 <= i < t.len() && t[i] == path;
            assert(paths[i] == path);
        }
        assert(paths[paths.len() - 1] == x);
        let r = pack_paths(t);
        if is_pack_path(x) {
            assert(r.push(x).contains(path) <==> r.contains(path) || path == x) by {
                if r.contains(path) {
                    let i = choose|i: int| 0 <= i < r.len() && r[i] == path;
                    assert(r.push(x)[i] == path);
                }
                if path == x {
                    assert(r.push(x)[r.len() as int] == x);
                }
                if r.push(x).contains(path) {
                    let i = choose|i: int| 0 <= i < r.push(x).len() && r.push(x)[i] == path;
                    if i < r.len() {
                        assert(r[i] == path);
                    }
                }
            }
        }
    }
}

/// Law: opening packs opens each, in order.
pub proof fn law_open_packs(files: Map<Seq<u8>, Seq<u8>>, ps: Seq<Seq<u8>>, n: nat, i: int)
    requires
        open_packs(files, ps, n) is Ok,
        0 <= i < n,
    ensures
        open_packs(files, ps, n)->Ok_0.len() == n,
        crate::pack::opened_pack(files, ps[i]) == Ok::<_, crate::pack::PackErrorView>(
            open_packs(files, ps, n)->Ok_0[i],
        ),
    decreases n,
{
    reveal_with_fuel(open_packs, 2);
    if n > 1 {
        law_open_packs(files, ps, (n - 1) as nat, if i < n - 1 {
            i
        } else {
            0
        });
    }
}

// ---------------------------------------------------------------------
// Layout
// ---------------------------------------------------------------------

/// Law: a git directory that was laid out has the directories `objects`,
/// `refs`, `refs/heads` and `refs/tags` and something at `HEAD`; where nothing
/// was there, a file that points at `refs/heads/main`. An empty directory can
/// always be laid out.
pub proof fn law_laid_out(git: DirView<Seq<u8>>)
    ensures
        laid_out(git) matches Ok(g) ==> {
            &&& g.is_dir(ascii("objects"@))
            &&& g.is_dir(ascii("refs"@))
            &&& g.is_dir(ascii("refs/heads"@))
            &&& g.is_dir(ascii("refs/tags"@))
            &&& g.exists_at(ascii("HEAD"@))
            &&& !git.exists_at(ascii("HEAD"@)) ==> g.files.contains_key(ascii("HEAD"@))
                && g.files[ascii("HEAD"@)] == ascii("ref: refs/heads/main\n"@)
            &&& forall|d: Seq<u8>| #[trigger] git.dirs.contains(d) ==> g.dirs.contains(d)
            &&& forall|p: Seq<u8>| #[trigger]
                git.files.contains_key(p) ==> g.files.contains_key(p) && g.files[p] == git.files[p]
        },
        git.files == Map::<Seq<u8>, Seq<u8>>::empty() && !git.dirs.contains(ascii("HEAD"@))
            ==> laid_out(git) is Ok,
{
    reveal_strlit("objects");
    reveal_strlit("refs");
    reveal_strlit("refs/heads");
    reveal_strlit("refs/tags");
    reveal_strlit("HEAD");
    let objects = ascii("objects"@);
    let heads = ascii("refs/heads"@);
    let tags = ascii("refs/tags"@);
    let head = ascii("HEAD"@);
    let refs = ascii("refs"@);
    assert(refs =~= heads.take(4));
    assert(is_above(refs, heads));
    assert(head[0] == 72 && objects[0] == 111 && heads[0] == 114 && tags[0] == 114);
    let g1 = git.with_dir(objects);
    let g2 = g1.with_dir(heads);
    let g3 = g2.with_dir(tags);
    assert(g2.dirs.contains(refs));
    assert(!g3.dirs.contains(head) || git.dirs.contains(head)) by {
        if g3.dirs.contains(head) && !git.dirs.contains(head) {
            assert(is_above(head, objects) || is_above(head, heads) || is_above(head, tags));
            assert(objects.take(4)[0] == objects[0]);
            assert(heads.take(4)[0] == heads[0]);
            assert(tags.take(4)[0] == tags[0]);
        }
    }
}

} // verus!
