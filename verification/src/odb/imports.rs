//! What importing a pack promises.

use vstd::prelude::*;

use super::setup::{
    canonical_name, discovered, imported, insert_pack, is_pack_path, open_packs, pack_paths,
    search_order, with_index, with_indexes,
};
use crate::bytemap::{sorted_keys, sorted_keys_lists};
use crate::bytes::{ascii, last_at, DOT, SLASH};
use crate::dir::DirView;
use crate::notation::{hex, hex_round_trip, nibble_value};
use crate::pack::idx::{idx_bytes, idx_ok, law_idx_round_trip};
use crate::pack::indexing::pack_index;
use crate::pack::laws::with_built_index;
use crate::pack::{idx_path, opened_pack, pack_hash, PackErrorView, PackView};
use crate::refs::ends_with;

verus! {

/// Where the last `b` is.
proof fn last_at_is(s: Seq<u8>, b: u8, k: int)
    requires
        0 <= k < s.len(),
        s[k] == b,
        forall|j: int| k < j < s.len() ==> s[j] != b,
    ensures
        last_at(s, b) == k,
    decreases s.len(),
{
    if k < s.len() - 1 {
        assert(s[s.len() - 1] != b);
        last_at_is(s.drop_last(), b, k);
    }
}

/// The canonical name of a pack is a pack's, and that of its index belongs
/// to it.
proof fn canonical_names(sha: Seq<u8>)
    requires
        sha.len() == 20,
    ensures
        is_pack_path(canonical_name(sha, ".pack"@)),
        idx_path(canonical_name(sha, ".pack"@)) == canonical_name(sha, ".idx"@),
{
    reveal_strlit("objects/pack/pack-");
    reveal_strlit("objects/pack/");
    reveal_strlit(".pack");
    reveal_strlit(".idx");
    hex_round_trip(sha);
    let start = ascii("objects/pack/pack-"@);
    let p = canonical_name(sha, ".pack"@);
    assert(start.len() == 18 && p.len() == 63);
    assert forall|j: int| 18 <= j < 58 implies #[trigger] p[j] != SLASH && p[j] != DOT by {
        assert(p[j] == hex(sha)[j - 18]);
        assert(nibble_value(hex(sha)[j - 18]) is Some);
    }
    assert forall|j: int| 58 <= j < 63 implies p[j] == ascii(".pack"@)[j - 58] by {}
    assert forall|j: int| 0 <= j < 18 implies p[j] == start[j] by {}
    assert forall|j: int| 12 < j < 63 implies p[j] != SLASH by {
        if j < 18 {
            assert(p[j] == start[j]);
        } else if j >= 58 {
            assert(p[j] == ascii(".pack"@)[j - 58]);
        }
    }
    last_at_is(p, SLASH, 12);
    last_at_is(p, DOT, 58);
    assert(p.take(58) + ascii(".idx"@) =~= canonical_name(sha, ".idx"@));
    assert(ascii("objects/pack/"@).is_prefix_of(p)) by {
        assert forall|j: int| 0 <= j < 13 implies ascii("objects/pack/"@)[j] == p[j] by {
            assert(p[j] == start[j]);
        }
        assert(p.subrange(0, 13) =~= ascii("objects/pack/"@));
    }
    assert(!p.skip(13).contains(SLASH)) by {
        if p.skip(13).contains(SLASH) {
            let j = choose|j: int| 0 <= j < p.skip(13).len() && p.skip(13)[j] == SLASH;
            assert(p[13 + j] == SLASH);
        }
    }
    assert(p.skip(58) =~= ascii(".pack"@));
    assert(ends_with(p, ascii(".pack"@)));
}

/// The pack paths of a list are those of its members.
proof fn pack_paths_has(paths: Seq<Seq<u8>>, p: Seq<u8>)
    requires
        paths.contains(p),
        is_pack_path(p),
    ensures
        pack_paths(paths).contains(p),
    decreases paths.len(),
{
    let t = paths.drop_last();
    let before = pack_paths(t);
    let all = pack_paths(paths);
    let i = choose|i: int| 0 <= i < paths.len() && paths[i] == p;
    if i < t.len() {
        assert(t[i] == p);
        pack_paths_has(t, p);
        let j = choose|j: int| 0 <= j < before.len() && before[j] == p;
        assert(all[j] == p);
    } else {
        assert(all[before.len() as int] == p);
    }
}

/// Building indexes changes no file that is there.
proof fn with_indexes_keeps(git: DirView<Seq<u8>>, packs: Seq<Seq<u8>>, n: nat, q: Seq<u8>)
    requires
        git.files.contains_key(q),
        with_indexes(git, packs, n) is Ok,
    ensures
        with_indexes(git, packs, n)->Ok_0.files.contains_key(q),
        with_indexes(git, packs, n)->Ok_0.files[q] == git.files[q],
    decreases n,
{
    if n > 0 {
        with_indexes_keeps(git, packs, (n - 1) as nat, q);
        let g = with_indexes(git, packs, (n - 1) as nat)->Ok_0;
        assert(with_index(g, packs[n - 1]) is Ok);
    }
}

/// A pack put into its place is there, and so are the others.
proof fn insert_pack_has(times: Map<Seq<u8>, u64>, ps: Seq<Seq<u8>>, p: Seq<u8>)
    ensures
        insert_pack(times, ps, p).contains(p),
        forall|q: Seq<u8>| #[trigger] ps.contains(q) ==> insert_pack(times, ps, p).contains(q),
    decreases ps.len(),
{
    let r = insert_pack(times, ps, p);
    if ps.len() == 0 || !super::setup::searched_before(times, p, ps.last()) {
        assert(r[ps.len() as int] == p);
        assert forall|q: Seq<u8>| #[trigger] ps.contains(q) implies r.contains(q) by {
            let i = choose|i: int| 0 <= i < ps.len() && ps[i] == q;
            assert(r[i] == q);
        }
    } else {
        let t = ps.drop_last();
        let inner = insert_pack(times, t, p);
        insert_pack_has(times, t, p);
        let i = choose|i: int| 0 <= i < inner.len() && inner[i] == p;
        assert(r[i] == p);
        assert forall|q: Seq<u8>| #[trigger] ps.contains(q) implies r.contains(q) by {
            let j = choose|j: int| 0 <= j < ps.len() && ps[j] == q;
            if j < t.len() {
                assert(t[j] == q);
                assert(t.contains(q));
                let k = choose|k: int| 0 <= k < inner.len() && inner[k] == q;
                assert(r[k] == q);
            } else {
                assert(r[inner.len() as int] == q);
            }
        }
    }
}

/// All packs are searched.
proof fn search_order_has(times: Map<Seq<u8>, u64>, ps: Seq<Seq<u8>>, p: Seq<u8>)
    requires
        ps.contains(p),
    ensures
        search_order(times, ps).contains(p),
    decreases ps.len(),
{
    let t = ps.drop_last();
    insert_pack_has(times, search_order(times, t), ps.last());
    let i = choose|i: int| 0 <= i < ps.len() && ps[i] == p;
    if i < t.len() {
        assert(t[i] == p);
        assert(t.contains(p));
        search_order_has(times, t, p);
    }
}

/// Each pack that is opened is there.
proof fn open_packs_has(files: Map<Seq<u8>, Seq<u8>>, ps: Seq<Seq<u8>>, n: nat, i: int)
    requires
        0 <= i < n <= ps.len(),
        open_packs(files, ps, n) is Ok,
    ensures
        opened_pack(files, ps[i]) is Ok,
        open_packs(files, ps, n)->Ok_0.len() == n,
        open_packs(files, ps, n)->Ok_0[i] == opened_pack(files, ps[i])->Ok_0,
    decreases n,
{
    open_packs_len(files, ps, (n - 1) as nat);
    if i < n - 1 {
        open_packs_has(files, ps, (n - 1) as nat, i);
    }
}

/// As many packs are opened as there are.
proof fn open_packs_len(files: Map<Seq<u8>, Seq<u8>>, ps: Seq<Seq<u8>>, n: nat)
    requires
        open_packs(files, ps, n) is Ok,
    ensures
        open_packs(files, ps, n)->Ok_0.len() == n,
    decreases n,
{
    if n > 0 {
        open_packs_len(files, ps, (n - 1) as nat);
    }
}

/// Law: a repository that is opened after a pack was imported has the pack,
/// with the index that was built for it.
pub proof fn law_import_then_open(
    git: DirView<Seq<u8>>,
    pack: Seq<u8>,
    times: Map<Seq<u8>, u64>,
)
    requires
        git.files.dom().finite(),
        pack_index(pack) is Ok,
        pack_hash(pack) is Ok,
        idx_ok(pack_index(pack)->Ok_0, pack_hash(pack)->Ok_0),
    ensures
        discovered(imported(git, pack), times) matches Ok((_, packs)) ==> packs.contains(
            with_built_index(canonical_name(pack_hash(pack)->Ok_0, ".pack"@), pack),
        ),
{
    let sha = pack_hash(pack)->Ok_0;
    let es = pack_index(pack)->Ok_0;
    let after = imported(git, pack);
    let p = canonical_name(sha, ".pack"@);
    let q = canonical_name(sha, ".idx"@);
    canonical_names(sha);
    law_idx_round_trip(es, sha);
    assert(p != q) by {
        reveal_strlit(".pack");
        reveal_strlit(".idx");
        assert(p.len() == q.len() + 1);
    }
    assert(after.files.contains_key(p) && after.files[p] == pack);
    assert(after.files.contains_key(q) && after.files[q] == idx_bytes(es, sha));
    match discovered(after, times) {
        Err(_) => {},
        Ok((g, packs)) => {
            let keys = sorted_keys(after.files.dom());
            assert(after.files.dom() =~= git.files.dom().insert(p).insert(q));
            sorted_keys_lists(after.files.dom());
            assert(after.files.dom().contains(p));
            assert(keys.contains(p));
            pack_paths_has(keys, p);
            let ps = pack_paths(keys);
            with_indexes_keeps(after, ps, ps.len(), p);
            with_indexes_keeps(after, ps, ps.len(), q);
            search_order_has(times, ps, p);
            let order = search_order(times, ps);
            let i = choose|i: int| 0 <= i < order.len() && order[i] == p;
            open_packs_has(g.files, order, order.len(), i);
            let v = with_built_index(p, pack);
            assert(opened_pack(g.files, p) == Ok::<PackView, PackErrorView>(v));
            assert(packs[i] == v);
        },
    }
}

} // verus!
