//! Assembling a pack in memory.

use vstd::prelude::*;

use super::entry::{code_kind, header_at, kind_code, kind_to_type_code};
use super::indexing::{
    entry_at, pack_count, pack_objects, plain_objects, ref_sweep, walk, walk_end, Objects, RawView,
};
use super::varint::{law_size_header_round_trip, size_header_bytes, two64, write_size_varint};
use super::{pack_hash, PackError, PackErrorView};
use crate::bytes::{
    ascii, be_bytes, be_bytes_len, be_round_trip, byte_capacities, push_all, push_be32, push_text,
    to_vec,
};
use crate::codec::{sha1, sha1_digest, zlib_deflate, zlib_deflated, zlib_inflated};
use crate::files::IoError;
use crate::object::{ObjectId, ObjectKind};

verus! {

/// A pack being assembled. Every entry is written as a full object.
#[derive(Debug)]
pub struct PackWriter {
    entries: Vec<(ObjectKind, Vec<u8>)>,
}

impl View for PackWriter {
    type V = Seq<(ObjectKind, Seq<u8>)>;

    closed spec fn view(&self) -> Seq<(ObjectKind, Seq<u8>)> {
        self.entries@.map_values(|e: (ObjectKind, Vec<u8>)| (e.0, e.1@))
    }
}

/// Whether every payload can be compressed.
pub open spec fn deflatable(es: Seq<(ObjectKind, Seq<u8>)>) -> bool {
    forall|i: int| 0 <= i < es.len() ==> zlib_deflated((#[trigger] es[i]).1) is Some
}

/// Whether every payload comes out of its compressed form again, whatever
/// follows it.
pub open spec fn inflatable(es: Seq<(ObjectKind, Seq<u8>)>) -> bool {
    forall|i: int, rest: Seq<u8>|
        0 <= i < es.len() ==> #[trigger] zlib_inflated(zlib_deflated(es[i].1)->0 + rest) == Some(
            (es[i].1, (zlib_deflated(es[i].1)->0).len()),
        )
}

/// The bytes of an entry: its header and its compressed payload.
pub open spec fn packed_entry(e: (ObjectKind, Seq<u8>)) -> Seq<u8> {
    size_header_bytes(kind_code(e.0), e.1.len()) + zlib_deflated(e.1)->0
}

/// The bytes of the entries, one after the other.
pub open spec fn packed_entries(es: Seq<(ObjectKind, Seq<u8>)>) -> Seq<u8>
    decreases es.len(),
{
    if es.len() == 0 {
        Seq::empty()
    } else {
        packed_entries(es.drop_last()) + packed_entry(es.last())
    }
}

/// The header of a pack with `n` entries.
pub open spec fn pack_header(n: nat) -> Seq<u8> {
    ascii("PACK"@) + be_bytes(2, 4) + be_bytes(n % 0x1_0000_0000, 4)
}

/// Everything before the trailer.
pub open spec fn pack_body(es: Seq<(ObjectKind, Seq<u8>)>) -> Seq<u8> {
    pack_header(es.len()) + packed_entries(es)
}

/// The bytes of a pack.
pub open spec fn pack_bytes(es: Seq<(ObjectKind, Seq<u8>)>) -> Seq<u8> {
    pack_body(es) + sha1_digest(pack_body(es))
}

/// All entries as resolved objects.
pub open spec fn as_objects(es: Seq<(ObjectKind, Seq<u8>)>) -> Objects {
    es.map_values(|e: (ObjectKind, Seq<u8>)| Some(e))
}

impl PackWriter {
    /// An empty pack.
    pub fn new() -> (r: PackWriter)
        ensures
            r@ == Seq::<(ObjectKind, Seq<u8>)>::empty(),
    {
        let r = PackWriter { entries: Vec::new() };
        assert(r@ =~= Seq::<(ObjectKind, Seq<u8>)>::empty());
        r
    }

    /// Appends an object.
    pub fn add(&mut self, kind: ObjectKind, payload: &[u8])
        ensures
            final(self)@ == old(self)@.push((kind, payload@)),
    {
        self.entries.push((kind, to_vec(payload)));
        assert(self@ =~= old(self)@.push((kind, payload@)));
    }

    /// The finished pack and its hash, which depend on nothing but what was
    /// added. Indexing the pack finds just the objects that were added, in
    /// their order. It fails only where a payload cannot be compressed.
    pub fn finish(self) -> (r: Result<(Vec<u8>, ObjectId), PackError>)
        ensures
            match r {
                Ok((bytes, sha)) => {
                    &&& deflatable(self@)
                    &&& bytes@ == pack_bytes(self@)
                    &&& sha@ == sha1_digest(pack_body(self@))
                    &&& pack_hash(bytes@) == Ok::<_, PackErrorView>(sha@)
                    &&& inflatable(self@)
                    &&& self@.len() <= u32::MAX ==> (pack_objects(bytes@) matches Ok((raw, objects))
                        && raw == packed_raws(self@) && objects == as_objects(self@))
                },
                Err(e) => !deflatable(self@) && e@ == PackErrorView::Io(IoError::Compression),
            },
    {
        let ghost es = self@;
        let mut out: Vec<u8> = Vec::new();
        proof {
            reveal_strlit("PACK");
        }
        push_text(&mut out, "PACK");
        push_be32(&mut out, 2);
        push_be32(&mut out, (self.entries.len() as u64 % 0x1_0000_0000) as u32);
        let mut i: usize = 0;
        assert(out@ =~= pack_header(es.len()) + packed_entries(es.take(0)));
        while i < self.entries.len()
            invariant
                i <= self.entries@.len(),
                es == self@,
                out@ == pack_header(es.len()) + packed_entries(es.take(i as int)),
                deflatable(es.take(i as int)),
                inflatable(es.take(i as int)),
            decreases self.entries.len() - i,
        {
            let entry = &self.entries[i];
            let ghost before = out@;
            proof {
                assert(es[i as int] == (entry.0, entry.1@));
                assert(es.take(i + 1).drop_last() =~= es.take(i as int));
                assert(es.take(i + 1).last() == es[i as int]);
            }
            write_size_varint(&mut out, kind_to_type_code(entry.0), entry.1.len() as u64);
            let z = match zlib_deflate(&entry.1) {
                Some(z) => z,
                None => {
                    assert(zlib_deflated(es[i as int].1) is None);
                    return Err(PackError::Io(IoError::Compression));
                },
            };
            push_all(&mut out, &z);
            proof {
                assert(out@ =~= before + packed_entry(es[i as int]));
                assert(out@ =~= pack_header(es.len()) + packed_entries(es.take(i + 1)));
                let t = es.take(i + 1);
                assert forall|k: int| 0 <= k < t.len() implies zlib_deflated(
                    (#[trigger] t[k]).1,
                ) is Some by {
                    if k < i {
                        assert(t[k] == es.take(i as int)[k]);
                    }
                }
                assert forall|k: int, rest: Seq<u8>| 0 <= k < t.len() implies #[trigger]
                    zlib_inflated(zlib_deflated(t[k].1)->0 + rest) == Some(
                    (t[k].1, (zlib_deflated(t[k].1)->0).len()),
                ) by {
                    if k < i {
                        assert(t[k] == es.take(i as int)[k]);
                    }
                }
            }
            i += 1;
        }
        proof {
            assert(es.take(i as int) =~= es);
            assert(out@ =~= pack_body(es));
        }
        let trailer = sha1(&out);
        push_all(&mut out, &trailer);
        proof {
            written_hash(es);
            if es.len() <= u32::MAX {
                assert forall|k: int| 0 <= k < es.len() implies (#[trigger] es[k]).1.len()
                    < two64() by {
                    assert(es[k].1 == self.entries@[k].1@);
                    assert(self.entries@[k].1.len() <= usize::MAX);
                }
                written_objects(es);
            }
        }
        Ok((out, ObjectId::from_bytes(trailer)))
    }

    /// How many objects were added.
    pub fn len(&self) -> (r: usize)
        ensures
            r == self@.len(),
    {
        self.entries.len()
    }

    /// Whether nothing was added.
    pub fn is_empty(&self) -> (r: bool)
        ensures
            r <==> self@.len() == 0,
    {
        self.entries.len() == 0
    }
}

impl Default for PackWriter {
    fn default() -> (r: PackWriter)
        ensures
            r@ == Seq::<(ObjectKind, Seq<u8>)>::empty(),
    {
        PackWriter::new()
    }
}

/// Where the `i`-th entry begins.
pub open spec fn packed_start(es: Seq<(ObjectKind, Seq<u8>)>, i: int) -> int {
    12 + packed_entries(es.take(i)).len() as int
}

/// Where the entries of a written pack stand.
pub open spec fn packed_raws(es: Seq<(ObjectKind, Seq<u8>)>) -> Seq<RawView> {
    Seq::new(
        es.len(),
        |i: int|
            RawView {
                start: packed_start(es, i),
                end: packed_start(es, i + 1),
                body: packed_start(es, i) + size_header_bytes(
                    kind_code(es[i].0),
                    es[i].1.len(),
                ).len(),
                code: kind_code(es[i].0),
                ofs_base: None,
                ref_base: None,
            },
    )
}

/// The header has 12 bytes and states the number of entries.
proof fn header_facts(n: nat)
    ensures
        pack_header(n).len() == 12,
        pack_header(n).take(4) == ascii("PACK"@),
        pack_header(n).subrange(4, 8) == be_bytes(2, 4),
        pack_header(n).subrange(8, 12) == be_bytes(n % 0x1_0000_0000, 4),
{
    reveal_strlit("PACK");
    be_bytes_len(2, 4);
    be_bytes_len(n % 0x1_0000_0000, 4);
    let h = pack_header(n);
    assert(h.take(4) =~= ascii("PACK"@));
    assert(h.subrange(4, 8) =~= be_bytes(2, 4));
    assert(h.subrange(8, 12) =~= be_bytes(n % 0x1_0000_0000, 4));
}

/// A written pack passes the checks of header and trailer.
proof fn written_hash(es: Seq<(ObjectKind, Seq<u8>)>)
    requires
        sha1_digest(pack_body(es)).len() == 20,
    ensures
        pack_hash(pack_bytes(es)) == Ok::<_, PackErrorView>(sha1_digest(pack_body(es))),
        es.len() <= u32::MAX ==> pack_count(pack_bytes(es)) == es.len(),
{
    let b = pack_bytes(es);
    let body = pack_body(es);
    header_facts(es.len());
    let h = pack_header(es.len());
    byte_capacities();
    be_round_trip(2, 4);
    assert(b.take(4) =~= h.take(4));
    assert(b.subrange(4, 8) =~= h.subrange(4, 8));
    assert(b.subrange(8, 12) =~= h.subrange(8, 12));
    assert(b.take(b.len() - 20) =~= body);
    assert(b.skip(b.len() - 20) =~= sha1_digest(body));
    be_round_trip(es.len() % 0x1_0000_0000, 4);
}

/// What follows the start of the `i`-th entry in a written pack.
proof fn packed_at(es: Seq<(ObjectKind, Seq<u8>)>, i: int) -> (rest: Seq<u8>)
    requires
        0 <= i < es.len(),
    ensures
        packed_start(es, i) < pack_bytes(es).len() || packed_entry(es[i]).len() == 0,
        packed_start(es, i) <= pack_bytes(es).len(),
        pack_bytes(es).skip(packed_start(es, i)) == packed_entry(es[i]) + rest,
        packed_start(es, i + 1) == packed_start(es, i) + packed_entry(es[i]).len(),
{
    header_facts(es.len());
    let (head, tail) = packed_split(es, i);
    let rest = tail + sha1_digest(pack_body(es));
    let b = pack_bytes(es);
    assert(es.take(i + 1).drop_last() =~= es.take(i));
    assert(b =~= pack_header(es.len()) + packed_entries(es.take(i)) + packed_entry(es[i]) + rest);
    assert(b.skip(packed_start(es, i)) =~= packed_entry(es[i]) + rest);
    rest
}

/// The entries before and after the `i`-th.
proof fn packed_split(es: Seq<(ObjectKind, Seq<u8>)>, i: int) -> (r: (Seq<u8>, Seq<u8>))
    requires
        0 <= i < es.len(),
    ensures
        r.0 == packed_entries(es.take(i)),
        packed_entries(es) == r.0 + packed_entry(es[i]) + r.1,
    decreases es.len(),
{
    let t = es.drop_last();
    if i == es.len() - 1 {
        assert(es.take(i) =~= t);
        assert(packed_entries(es) =~= packed_entries(t) + packed_entry(es[i]) + Seq::<u8>::empty());
        (packed_entries(t), Seq::empty())
    } else {
        let (a, b) = packed_split(t, i);
        assert(t.take(i) =~= es.take(i));
        let rest = b + packed_entry(es.last());
        assert(packed_entries(es) =~= a + packed_entry(es[i]) + rest);
        (a, rest)
    }
}

/// Reading the `i`-th entry of a written pack.
pub proof fn packed_entry_reads(es: Seq<(ObjectKind, Seq<u8>)>, i: int)
    requires
        0 <= i < es.len(),
        deflatable(es),
        inflatable(es),
        es[i].1.len() < two64(),
    ensures
        ({
            let b = pack_bytes(es);
            let r = packed_raws(es)[i];
            &&& header_at(b, r.start) == Some(
                (r.code, es[i].1.len(), (r.body - r.start) as nat),
            )
            &&& code_kind(r.code) == Some(es[i].0)
            &&& zlib_inflated(b.skip(r.body)) == Some(
                (es[i].1, (r.end - r.body) as nat),
            )
            &&& entry_at(b, r.start) == Ok::<_, PackErrorView>(r)
        }),
{
    let b = pack_bytes(es);
    let rest = packed_at(es, i);
    let start = packed_start(es, i);
    let h = size_header_bytes(kind_code(es[i].0), es[i].1.len());
    let z = zlib_deflated(es[i].1)->0;
    law_size_header_round_trip(kind_code(es[i].0), es[i].1.len(), z + rest);
    assert(packed_entry(es[i]) + rest =~= h + (z + rest));
    assert(b.skip(start + h.len()) =~= b.skip(start).skip(h.len() as int));
    assert((h + (z + rest)).skip(h.len() as int) =~= z + rest);
    assert(zlib_inflated(z + rest) == Some((es[i].1, z.len())));
}

/// The walk over a written pack finds its entries.
proof fn packed_walk(es: Seq<(ObjectKind, Seq<u8>)>, n: nat)
    requires
        n <= es.len(),
        deflatable(es),
        inflatable(es),
        forall|k: int| 0 <= k < es.len() ==> (#[trigger] es[k]).1.len() < two64(),
    ensures
        walk(pack_bytes(es), n) == Ok::<_, PackErrorView>(packed_raws(es).take(n as int)),
    decreases n,
{
    let raws = packed_raws(es);
    if n == 0 {
        assert(raws.take(0) =~= Seq::<RawView>::empty());
    } else {
        packed_walk(es, (n - 1) as nat);
        assert(es[n - 1].1.len() < two64());
        packed_entry_reads(es, n - 1);
        let done = raws.take(n - 1);
        if n == 1 {
            assert(es.take(0) =~= Seq::<(ObjectKind, Seq<u8>)>::empty());
            assert(packed_entries(es.take(0)).len() == 0);
        } else {
            assert(done.last() == raws[n - 2]);
        }
        assert(walk_end(done) == packed_start(es, n - 1));
        assert(raws.take(n as int) =~= done.push(raws[n - 1]));
    }
}

/// The objects of a written pack's entries.
proof fn packed_plain(es: Seq<(ObjectKind, Seq<u8>)>, n: nat)
    requires
        n <= es.len(),
        deflatable(es),
        inflatable(es),
        forall|k: int| 0 <= k < es.len() ==> (#[trigger] es[k]).1.len() < two64(),
    ensures
        plain_objects(pack_bytes(es), packed_raws(es), n) == Ok::<_, PackErrorView>(
            as_objects(es).take(n as int),
        ),
    decreases n,
{
    let objects = as_objects(es);
    if n == 0 {
        assert(objects.take(0) =~= Seq::empty());
    } else {
        packed_plain(es, (n - 1) as nat);
        assert(es[n - 1].1.len() < two64());
        packed_entry_reads(es, n - 1);
        assert(objects.take(n as int) =~= objects.take(n - 1).push(Some(es[n - 1])));
    }
}

/// A sweep changes nothing where everything is resolved.
proof fn sweep_fixed(bytes: Seq<u8>, raw: Seq<RawView>, objects: Objects, n: nat)
    requires
        n <= objects.len(),
        forall|i: int| 0 <= i < objects.len() ==> (#[trigger] objects[i]) is Some,
    ensures
        ref_sweep(bytes, raw, objects, n) == Ok::<_, PackErrorView>(objects),
    decreases n,
{
    if n > 0 {
        sweep_fixed(bytes, raw, objects, (n - 1) as nat);
        assert(objects[n - 1] is Some);
    }
}

/// The objects of a written pack.
proof fn written_objects(es: Seq<(ObjectKind, Seq<u8>)>)
    requires
        deflatable(es),
        inflatable(es),
        es.len() <= u32::MAX,
        sha1_digest(pack_body(es)).len() == 20,
        forall|k: int| 0 <= k < es.len() ==> (#[trigger] es[k]).1.len() < two64(),
    ensures
        pack_objects(pack_bytes(es)) == Ok::<_, PackErrorView>((packed_raws(es), as_objects(es))),
{
    let b = pack_bytes(es);
    let n = es.len();
    let objects = as_objects(es);
    written_hash(es);
    packed_walk(es, n);
    assert(packed_raws(es).take(n as int) =~= packed_raws(es));
    packed_plain(es, n);
    assert(objects.take(n as int) =~= objects);
    sweep_fixed(b, packed_raws(es), objects, n);
    super::indexing::none_unresolved(objects);
}

} // verus!
