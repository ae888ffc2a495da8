//! When a pack can be opened.

use vstd::prelude::*;

use super::{idx_path, opened_pack, pack_hash};
use crate::bytes::{ascii, be_value, last_at};
use crate::codec::sha1_digest;

verus! {

/// Law: a pack is sound if and only if it has at least 32 bytes, begins with
/// `PACK` and version 2, and ends in the digest of what stands before; that
/// digest is its hash.
pub proof fn law_pack_hash(b: Seq<u8>)
    ensures
        pack_hash(b) is Ok <==> b.len() >= 32 && b.take(4) == seq![80u8, 65u8, 67u8, 75u8]
            && be_value(b.subrange(4, 8)) == 2 && b.skip(b.len() - 20) == sha1_digest(
            b.take(b.len() - 20),
        ),
        pack_hash(b) matches Ok(h) ==> h == b.skip(b.len() - 20),
{
    reveal_strlit("PACK");
    assert(ascii("PACK"@) =~= seq![80u8, 65u8, 67u8, 75u8]);
}

/// The last place of a byte.
proof fn last_place(s: Seq<u8>, b: u8, k: int)
    requires
        -1 <= k < s.len(),
        k >= 0 ==> s[k] == b,
        forall|j: int| k < j < s.len() ==> s[j] != b,
    ensures
        last_at(s, b) == k,
    decreases s.len(),
{
    if s.len() > 0 && k < s.len() - 1 {
        last_place(s.drop_last(), b, k);
    }
}

/// Law: the index of a pack stands beside it, with the extension `idx` in place
/// of the pack's.
pub proof fn law_idx_path(dir: Seq<u8>, name: Seq<u8>, extension: Seq<u8>)
    requires
        name.len() > 0,
        !name.contains(47u8),
        !extension.contains(46u8),
        !extension.contains(47u8),
    ensures
        idx_path(dir + seq![47u8] + name + seq![46u8] + extension) == dir + seq![47u8] + name
            + ascii(".idx"@),
{
    let p = dir + seq![47u8] + name + seq![46u8] + extension;
    let slash = dir.len() as int;
    let dot = slash + 1 + name.len();
    assert forall|j: int| dot < j < p.len() implies p[j] != 46 && p[j] != 47 by {
        assert(p[j] == extension[j - dot - 1]);
        assert(extension.contains(extension[j - dot - 1]));
    }
    assert(p[dot] == 46 && p[slash] == 47);
    assert forall|j: int| slash < j < p.len() implies p[j] != 47 by {
        if j < dot {
            assert(p[j] == name[j - slash - 1]);
            assert(name.contains(name[j - slash - 1]));
        }
    }
    last_place(p, 46, dot);
    last_place(p, 47, slash);
    assert(p.take(dot) =~= dir + seq![47u8] + name);
}

/// Law: an opened pack holds the bytes of its file and the ids and offsets of
/// its index, whose pack hash is the pack's own.
pub proof fn law_opened_pack(files: Map<Seq<u8>, Seq<u8>>, path: Seq<u8>)
    ensures
        opened_pack(files, path) is Ok <==> {
            &&& files.contains_key(path)
            &&& pack_hash(files[path]) is Ok
            &&& files.contains_key(idx_path(path))
            &&& super::idx::idx_contents(files[idx_path(path)]) is Ok
            &&& super::idx::idx_contents(files[idx_path(path)])->Ok_0.pack_sha == pack_hash(
                files[path],
            )->Ok_0
        },
        opened_pack(files, path) matches Ok(p) ==> {
            let idx = super::idx::idx_contents(files[idx_path(path)])->Ok_0;
            &&& p.bytes == files[path]
            &&& p.ids == idx.ids
            &&& p.offsets == idx.offsets
            &&& p.sha == pack_hash(files[path])->Ok_0
            &&& p.path == path
        },
{
}

} // verus!
