//! What refs promise.

use vstd::prelude::*;
use vstd::utf8::{encode_utf8, valid_utf8};

use super::{
    chomp, delete_fault, has_pair, head_pointed, head_value, listed, listing, loose_name,
    packed_with_prefix, ref_content, ref_pairs, ref_target, ref_value, ref_written, refs_listed,
    valid_name, HeadView, RefContent, RefErrorView,
};
use crate::bytemap::sorted_keys;
use crate::bytes::{ascii, DOT, LF, SLASH};
use crate::dir::is_above;
use crate::files::IoError;
use crate::notation::{ascii_bytes_encode, hex, hex_round_trip, is_ascii_bytes, text_of};
use crate::merge::head_moved;
use crate::odb::RepoView;

verus! {

/// Law: no name that a ref may have leads out of the git directory: it is
/// not absolute and has no part `..`.
pub proof fn law_names_stay_inside(name: Seq<u8>)
    requires
        valid_name(name),
    ensures
        name.len() > 0,
        name[0] != SLASH,
        !has_pair(name, DOT, DOT),
{
    reveal_strlit("HEAD");
    let h = ascii("HEAD"@);
    if name == h {
        assert forall|i: int| 0 <= i < h.len() implies h[i] != DOT by {}
    }
}

/// The line of an id is read as the id.
pub proof fn id_line_reads(id: Seq<u8>)
    requires
        id.len() == 20,
    ensures
        valid_utf8(hex(id).push(LF)),
        ref_content(hex(id).push(LF)) == RefContent::Id(id),
{
    reveal_strlit("ref: ");
    hex_round_trip(id);
    let line = hex(id).push(LF);
    assert(is_ascii_bytes(line)) by {
        assert forall|i: int| 0 <= i < line.len() implies #[trigger] line[i] < 128 by {
            if i < hex(id).len() {
                assert(line[i] == hex(id)[i]);
            }
        }
    }
    ascii_bytes_encode(line);
    assert(line.drop_last() =~= hex(id));
    if ascii("ref: "@).is_prefix_of(hex(id)) {
        assert(hex(id)[0] == ascii("ref: "@)[0]);
        assert(crate::notation::nibble_value(hex(id)[0]) is Some);
    }
}

/// Law: a ref that was written leads to the id that was written.
pub proof fn law_write_then_read(repo: RepoView, name: Seq<u8>, id: Seq<u8>)
    requires
        id.len() == 20,
        ref_written(repo, name, hex(id).push(LF)).1 is None,
    ensures
        ref_value(ref_written(repo, name, hex(id).push(LF)).0, name) == Ok::<_, RefErrorView>(id),
{
    id_line_reads(id);
    let after = ref_written(repo, name, hex(id).push(LF)).0;
    assert(after.git.read(name) == Ok::<_, IoError>(hex(id).push(LF)));
}

/// Law: writing a ref does not change what another one's file holds.
pub proof fn law_write_keeps_others(repo: RepoView, name: Seq<u8>, line: Seq<u8>, other: Seq<u8>)
    requires
        other != name,
        repo.git.files.contains_key(other),
    ensures
        ref_written(repo, name, line).0.git.read(other) == repo.git.read(other),
{
}

/// Law: HEAD detached at a commit reads as that commit.
pub proof fn law_detach_then_read(repo: RepoView, id: Seq<u8>)
    requires
        id.len() == 20,
        ref_written(repo, ascii("HEAD"@), hex(id).push(LF)).1 is None,
    ensures
        head_value(ref_written(repo, ascii("HEAD"@), hex(id).push(LF)).0.git) == Ok::<
            _,
            RefErrorView,
        >(HeadView::Detached(id)),
{
    id_line_reads(id);
    let after = ref_written(repo, ascii("HEAD"@), hex(id).push(LF)).0;
    assert(after.git.read(ascii("HEAD"@)) == Ok::<_, IoError>(hex(id).push(LF)));
}

/// Law: HEAD pointed at a branch reads as that branch.
pub proof fn law_point_head(repo: RepoView, target: Seq<u8>)
    requires
        head_pointed(repo, target).1 is None,
        valid_utf8(target),
    ensures
        head_value(head_pointed(repo, target).0.git) == Ok::<_, RefErrorView>(
            HeadView::Symbolic(text_of(target)),
        ),
        ref_content((ascii("ref: "@) + target).push(LF)) == RefContent::Symbolic(target),
        valid_utf8((ascii("ref: "@) + target).push(LF)),
{
    reveal_strlit("ref: ");
    let r = ascii("ref: "@);
    let line = (r + target).push(LF);
    let after = head_pointed(repo, target).0;
    assert(is_ascii_bytes(r));
    ascii_bytes_encode(r);
    vstd::utf8::valid_utf8_concat(r, target);
    let nl = seq![LF];
    assert(is_ascii_bytes(nl));
    ascii_bytes_encode(nl);
    vstd::utf8::valid_utf8_concat(r + target, nl);
    assert(line =~= (r + target) + nl);
    assert(line.drop_last() =~= r + target);
    assert((r + target).skip(5) =~= target);
    assert(r.is_prefix_of(r + target));
    assert(after.git.read(ascii("HEAD"@)) == Ok::<_, IoError>(line));
}

/// Law: HEAD pointed at a branch leads to the id that the branch leads to.
pub proof fn law_point_then_read(repo: RepoView, target: Seq<u8>)
    requires
        head_pointed(repo, target).1 is None,
        valid_utf8(target),
        repo.git.files.contains_key(target) && valid_utf8(repo.git.files[target]),
        ref_content(repo.git.files[target]) is Id,
        target != ascii("HEAD"@),
    ensures
        ref_value(head_pointed(repo, target).0, ascii("HEAD"@)) == ref_value(repo, target),
{
    law_point_head(repo, target);
    let after = head_pointed(repo, target).0;
    let id = ref_content(repo.git.files[target])->Id_0;
    follow_once(after, ascii("HEAD"@), target, id);
}

/// Law: a ref that was deleted is gone, unless `packed-refs` still has it,
/// in which case it cannot be deleted again.
pub proof fn law_delete_then_read(repo: RepoView, name: Seq<u8>)
    requires
        delete_fault(repo, name) is None,
        !repo.git.is_dir(name),
        !repo.git.blocked(name),
    ensures
        ({
            let after = RepoView { git: repo.git.without(name), ..repo };
            &&& !repo.packed_refs.contains_key(name) ==> ref_value(after, name) == Err::<
                Seq<u8>,
                _,
            >(RefErrorView::RefNotFound(text_of(name)))
            &&& repo.packed_refs.contains_key(name) ==> delete_fault(after, name) == Some(
                RefErrorView::CannotDeletePackedOnly(text_of(name)),
            )
        }),
{
    let after = RepoView { git: repo.git.without(name), ..repo };
    if after.git.blocked(name) {
        let d = choose|d: Seq<u8>|
            is_above(d, name) && #[trigger] after.git.files.contains_key(d);
        assert(repo.git.files.contains_key(d));
    }
}

/// What follows ASCII characters in valid UTF-8 is valid UTF-8.
proof fn valid_behind_ascii(b: Seq<u8>, k: int)
    requires
        valid_utf8(b),
        0 <= k <= b.len(),
        forall|i: int| 0 <= i < k ==> #[trigger] b[i] < 128,
    ensures
        valid_utf8(b.skip(k)),
    decreases k,
{
    if k == 0 {
        assert(b.skip(0) =~= b);
    } else {
        let t = vstd::utf8::pop_first_scalar(b);
        assert(b[0] < 128);
        vstd::utf8::utf8_byte_ranges_bitwise(b[0]);
        assert(t =~= b.skip(1));
        assert forall|i: int| 0 <= i < k - 1 implies #[trigger] t[i] < 128 by {
            assert(t[i] == b[i + 1]);
        }
        valid_behind_ascii(t, k - 1);
        assert(t.skip(k - 1) =~= b.skip(k));
    }
}

/// Valid UTF-8 without its last line feed is valid UTF-8.
proof fn valid_chomped(b: Seq<u8>)
    requires
        valid_utf8(b),
    ensures
        valid_utf8(chomp(b)),
{
    if b.len() > 0 && b.last() == LF {
        let n = b.len() - 1;
        vstd::utf8::utf8_byte_ranges_bitwise(b[n]);
        vstd::utf8::is_char_boundary_iff_not_is_continuation_byte(b, n);
        vstd::utf8::valid_utf8_split(b, n);
        assert(b.subrange(0, n) =~= b.drop_last());
    }
}

/// The name of a branch that HEAD is on is the bytes that HEAD holds.
proof fn symbolic_text(c: Seq<u8>, target: Seq<u8>)
    requires
        valid_utf8(c),
        ref_content(c) == RefContent::Symbolic(target),
    ensures
        encode_utf8(text_of(target)) == target,
{
    reveal_strlit("ref: ");
    let t = chomp(c);
    valid_chomped(c);
    assert forall|i: int| 0 <= i < 5 implies #[trigger] t[i] < 128 by {
        assert(t[i] == ascii("ref: "@)[i]);
    }
    valid_behind_ascii(t, 5);
    vstd::utf8::decode_utf8_encode_utf8(target);
}

/// A ref whose file holds the name of another leads to where that one does.
proof fn follow_once(repo: RepoView, name: Seq<u8>, target: Seq<u8>, id: Seq<u8>)
    requires
        valid_name(name),
        valid_name(target),
        repo.git.files.contains_key(name),
        valid_utf8(repo.git.files[name]),
        ref_content(repo.git.files[name]) == RefContent::Symbolic(target),
        repo.git.files.contains_key(target),
        valid_utf8(repo.git.files[target]),
        ref_content(repo.git.files[target]) == RefContent::Id(id),
    ensures
        ref_value(repo, name) == Ok::<_, RefErrorView>(id),
{
    assert(ref_target(repo.git, repo.packed_refs, target, 1) == Ok::<_, RefErrorView>(id));
}

/// Law: HEAD leads to the commit that it, or the branch that it is on, was
/// moved to.
pub proof fn law_move_head_then_read(repo: RepoView, id: Seq<u8>)
    requires
        id.len() == 20,
        head_moved(repo, id).1 is None,
    ensures
        ref_value(head_moved(repo, id).0, ascii("HEAD"@)) == Ok::<_, RefErrorView>(id),
{
    let head = ascii("HEAD"@);
    let line = hex(id).push(LF);
    id_line_reads(id);
    let after = head_moved(repo, id).0;
    match head_value(repo.git) {
        Ok(HeadView::Symbolic(branch)) => {
            let c = repo.git.files[head];
            let target = ref_content(c)->Symbolic_0;
            symbolic_text(c, target);
            law_write_then_read(repo, target, id);
            if target != head {
                follow_once(after, head, target, id);
            }
        },
        _ => {
            law_write_then_read(repo, head, id);
        },
    }
}

/// Whether the file at a path is a loose ref that a listing shows.
pub open spec fn shows_loose(files: Map<Seq<u8>, Seq<u8>>, prefix: Seq<u8>, path: Seq<u8>) -> bool {
    &&& files.contains_key(path)
    &&& path.len() >= 5 && path.take(5) == seq![114u8, 101u8, 102u8, 115u8, 47u8]
    &&& prefix.is_prefix_of(path)
    &&& ref_content(files[path]) is Id
}

/// Whether the paths of all files are valid UTF-8.
pub open spec fn plain_files(files: Map<Seq<u8>, Seq<u8>>) -> bool {
    forall|path: Seq<u8>| #[trigger] files.contains_key(path) ==> valid_utf8(path)
}

/// A loose ref is shown where it is listed.
proof fn shown_where_listed(files: Map<Seq<u8>, Seq<u8>>, prefix: Seq<u8>, path: Seq<u8>)
    requires
        loose_name(path) == path,
        files.contains_key(path),
    ensures
        shows_loose(files, prefix, path) <==> listed(path, prefix) && ref_content(files[path]) is Id,
{
    reveal_strlit("refs/");
    let r = seq![114u8, 101u8, 102u8, 115u8, 47u8];
    assert(ascii("refs/"@) =~= r);
    assert(r.is_prefix_of(path) <==> path.len() >= 5 && path.take(5) == r);
}

/// What a listing over some of the files has.
proof fn listing_is(
    files: Map<Seq<u8>, Seq<u8>>,
    paths: Seq<Seq<u8>>,
    prefix: Seq<u8>,
    base: Map<Seq<u8>, Seq<u8>>,
)
    requires
        plain_files(files),
        forall|path: Seq<u8>| #[trigger] paths.contains(path) ==> files.contains_key(path),
        listing(files, paths, prefix, base) is Some,
    ensures
        ({
            let m = listing(files, paths, prefix, base)->0;
            forall|n: Seq<u8>|
                {
                    &&& #[trigger] m.contains_key(n) <==> base.contains_key(n) || (paths.contains(n)
                        && shows_loose(files, prefix, n))
                    &&& paths.contains(n) && shows_loose(files, prefix, n) ==> m[n]
                        == ref_content(files[n])->Id_0
                    &&& base.contains_key(n) && !(paths.contains(n) && shows_loose(
                        files,
                        prefix,
                        n,
                    )) ==> m[n] == base[n]
                }
        }),
    decreases paths.len(),
{
    if paths.len() > 0 {
        let t = paths.drop_last();
        let path = paths.last();
        assert(paths.contains(paths[paths.len() - 1]));
        assert forall|q: Seq<u8>| #[trigger] t.contains(q) implies files.contains_key(q) by {
            let j = choose|j: int| 0 <= j < t.len() && t[j] == q;
            assert(paths[j] == q);
            assert(paths.contains(q));
        }
        listing_is(files, t, prefix, base);
        vstd::utf8::decode_utf8_encode_utf8(path);
        assert(loose_name(path) == path);
        shown_where_listed(files, prefix, path);
        let m1 = listing(files, t, prefix, base)->0;
        let m = listing(files, paths, prefix, base)->0;
        assert forall|n: Seq<u8>| #[trigger] paths.contains(n) <==> t.contains(n) || n == path by {
            if paths.contains(n) {
                let j = choose|j: int| 0 <= j < paths.len() && paths[j] == n;
                if j < t.len() {
                    assert(t[j] == n);
                }
            }
            if t.contains(n) {
                let j = choose|j: int| 0 <= j < t.len() && t[j] == n;
                assert(paths[j] == n);
            }
        }
        assert forall|n: Seq<u8>|
            {
                &&& #[trigger] m.contains_key(n) <==> base.contains_key(n) || (paths.contains(n)
                    && shows_loose(files, prefix, n))
                &&& paths.contains(n) && shows_loose(files, prefix, n) ==> m[n] == ref_content(
                    files[n],
                )->Id_0
                &&& base.contains_key(n) && !(paths.contains(n) && shows_loose(files, prefix, n))
                    ==> m[n] == base[n]
            } by {
            assert(m1.contains_key(n) <==> base.contains_key(n) || (t.contains(n) && shows_loose(
                files,
                prefix,
                n,
            )));
        }
    }
}

/// Law: a listing has just the refs with the prefix, each under its name:
/// the loose ones with their ids, and of the packed ones those that no
/// loose one goes before. Names that are not valid UTF-8 are left out.
pub proof fn law_list_refs(repo: RepoView, prefix: Seq<u8>, name: Seq<u8>)
    requires
        repo.git.files.dom().finite(),
        plain_files(repo.git.files),
        refs_listed(repo, prefix) is Ok,
    ensures
        ({
            let m = listing(
                repo.git.files,
                sorted_keys(repo.git.files.dom()),
                prefix,
                packed_with_prefix(repo.packed_refs, prefix),
            )->0;
            let packed = repo.packed_refs.contains_key(name) && prefix.is_prefix_of(name);
            &&& refs_listed(repo, prefix) == Ok::<_, RefErrorView>(ref_pairs(m))
            &&& m.contains_key(name) <==> shows_loose(repo.git.files, prefix, name) || packed
            &&& shows_loose(repo.git.files, prefix, name) ==> m[name] == ref_content(
                repo.git.files[name],
            )->Id_0
            &&& packed && !shows_loose(repo.git.files, prefix, name) ==> m[name]
                == repo.packed_refs[name]
        }),
{
    let paths = sorted_keys(repo.git.files.dom());
    crate::bytemap::sorted_keys_lists(repo.git.files.dom());
    assert forall|path: Seq<u8>| #[trigger] paths.contains(path) implies
        repo.git.files.contains_key(path) by {
        assert(repo.git.files.dom().contains(path));
    }
    let base = packed_with_prefix(repo.packed_refs, prefix);
    listing_is(repo.git.files, paths, prefix, base);
    let m = listing(repo.git.files, paths, prefix, base)->0;
    assert(repo.git.files.dom().contains(name) <==> paths.contains(name));
    assert(m.contains_key(name) <==> base.contains_key(name) || (paths.contains(name)
        && shows_loose(repo.git.files, prefix, name)));
}

} // verus!
