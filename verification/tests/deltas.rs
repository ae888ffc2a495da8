//! Deltas, and packs that hold them.

use rgit::files::Files;
use rgit::object::{ObjectId, ObjectKind};
use rgit::pack::delta::apply_delta;
use rgit::pack::idx::parse_idx;
use rgit::pack::varint::{
    read_delta_size_varint, read_offset_varint, read_size_varint, write_size_varint,
};
use rgit::pack::{build_index, index_path, Pack, PackError, PackWriter};
use sha1::Digest;
use std::io::Write as _;

fn deflated(bytes: &[u8]) -> Vec<u8> {
    let mut enc = flate2::write::ZlibEncoder::new(Vec::new(), flate2::Compression::default());
    enc.write_all(bytes).unwrap();
    enc.finish().unwrap()
}

/// An entry: its header, what stands between header and data, and the data.
fn entry(code: u8, size: usize, middle: &[u8], data: &[u8]) -> Vec<u8> {
    let mut out = Vec::new();
    write_size_varint(&mut out, code, size as u64);
    out.extend_from_slice(middle);
    out.extend_from_slice(&deflated(data));
    out
}

fn pack_of(entries: &[Vec<u8>]) -> Vec<u8> {
    let mut out = b"PACK".to_vec();
    out.extend_from_slice(&2u32.to_be_bytes());
    out.extend_from_slice(&(entries.len() as u32).to_be_bytes());
    for e in entries {
        out.extend_from_slice(e);
    }
    let trailer: [u8; 20] = sha1::Sha1::digest(&out).into();
    out.extend_from_slice(&trailer);
    out
}

/// "hello there" as a change of "hello world".
const THERE: &[u8] = &[11, 11, 0x90, 6, 5, b't', b'h', b'e', b'r', b'e'];

#[test]
fn delta_copies_and_inserts() {
    assert_eq!(apply_delta(b"hello world", THERE).unwrap(), b"hello there");
}

#[test]
fn delta_copy_without_size_bytes_takes_64_kib() {
    let base: Vec<u8> = (0..70_000u32).map(|i| (i % 251) as u8).collect();
    // Sizes 70000 and 65536, then a copy from offset 3.
    let delta = [0xf0, 0xa2, 0x04, 0x80, 0x80, 0x04, 0x81, 3];
    assert_eq!(apply_delta(&base, &delta).unwrap(), &base[3..3 + 65_536]);
}

#[test]
fn delta_for_another_base_is_bad() {
    assert_eq!(apply_delta(b"hello", THERE), Err(PackError::BadDelta));
}

#[test]
fn delta_with_reserved_instruction_is_bad() {
    assert_eq!(apply_delta(b"ab", &[2, 1, 0]), Err(PackError::BadDelta));
}

#[test]
fn delta_that_copies_from_beyond_the_base_is_bad() {
    assert_eq!(apply_delta(b"ab", &[2, 3, 0x90, 3]), Err(PackError::BadDelta));
}

#[test]
fn delta_that_builds_another_size_is_bad() {
    assert_eq!(apply_delta(b"ab", &[2, 3, 0x90, 2]), Err(PackError::BadDelta));
}

#[test]
fn delta_that_ends_inside_an_instruction_is_bad() {
    assert_eq!(apply_delta(b"ab", &[2, 4, 4, b'x']), Err(PackError::BadDelta));
}

#[test]
fn delta_for_more_than_a_gibibyte_is_refused() {
    // 2 and 2^30 + 1.
    let delta = [2, 0x81, 0x80, 0x80, 0x80, 0x04];
    assert_eq!(
        apply_delta(b"ab", &delta),
        Err(PackError::DeltaTargetTooLarge(1_073_741_825, 1_073_741_824)),
    );
}

#[test]
fn offset_delta_is_resolved() {
    let base = entry(3, 11, b"", b"hello world");
    let back = base.len() as u8;
    assert!(back < 0x80);
    let delta = entry(6, THERE.len(), &[back], THERE);
    let mut files = Files::new();
    files.put(b"d.pack", pack_of(&[base, delta]));
    build_index(&mut files, b"d.pack").unwrap();
    let pack = Pack::open(&files, b"d.pack").unwrap();
    let id = ObjectId::compute(ObjectKind::Blob, b"hello there");
    assert_eq!(pack.lookup(&id).unwrap(), Some((ObjectKind::Blob, b"hello there".to_vec())));
    assert_eq!(pack.ids().len(), 2);
}

#[test]
fn reference_delta_is_resolved() {
    let base_id = ObjectId::compute(ObjectKind::Blob, b"hello world");
    let delta = entry(7, THERE.len(), base_id.as_bytes(), THERE);
    let base = entry(3, 11, b"", b"hello world");
    let mut files = Files::new();
    // The delta may stand before its base.
    files.put(b"d.pack", pack_of(&[delta, base]));
    build_index(&mut files, b"d.pack").unwrap();
    let pack = Pack::open(&files, b"d.pack").unwrap();
    let id = ObjectId::compute(ObjectKind::Blob, b"hello there");
    assert_eq!(pack.lookup(&id).unwrap(), Some((ObjectKind::Blob, b"hello there".to_vec())));
}

#[test]
fn base_outside_the_pack_is_not_supported() {
    let base_id = ObjectId::compute(ObjectKind::Blob, b"hello world");
    let mut files = Files::new();
    files.put(b"d.pack", pack_of(&[entry(7, THERE.len(), base_id.as_bytes(), THERE)]));
    assert_eq!(build_index(&mut files, b"d.pack"), Err(PackError::ThinPackUnsupported(base_id)));
    assert!(!files.has(b"d.idx"));
}

#[test]
fn repeated_object_is_refused() {
    let blob = entry(3, 2, b"", b"hi");
    let id = ObjectId::compute(ObjectKind::Blob, b"hi");
    let mut files = Files::new();
    files.put(b"d.pack", pack_of(&[blob.clone(), blob]));
    assert_eq!(build_index(&mut files, b"d.pack"), Err(PackError::DuplicateIdInPack(id)));
}

#[test]
fn chain_of_more_than_fifty_deltas_is_refused() {
    // Each entry is the one before it with one more byte.
    let mut entries = vec![entry(3, 1, b"", b"x")];
    let mut size = 1u8;
    while entries.len() <= 51 {
        let back = entries.last().unwrap().len() as u8;
        let delta = [size, size + 1, 0x90, size, 1, b'y'];
        entries.push(entry(6, delta.len(), &[back], &delta));
        size += 1;
    }
    let mut files = Files::new();
    files.put(b"d.pack", pack_of(&entries));
    assert_eq!(build_index(&mut files, b"d.pack"), Err(PackError::DeltaChainTooDeep(50)));
    files.put(b"d.pack", pack_of(&entries[..51]));
    assert!(build_index(&mut files, b"d.pack").is_ok());
}

#[test]
fn delta_base_that_the_index_does_not_list_is_missing() {
    let base_id = ObjectId::compute(ObjectKind::Blob, b"hello world");
    let base = entry(3, 11, b"", b"hello world");
    let delta = entry(7, THERE.len(), base_id.as_bytes(), THERE);
    let mut files = Files::new();
    files.put(b"d.pack", pack_of(&[base, delta]));
    build_index(&mut files, b"d.pack").unwrap();
    // The index with the base's id changed, and its trailer made anew.
    let mut idx = files.get(b"d.idx").unwrap().clone();
    let at = idx.windows(20).position(|w| w == base_id.as_bytes()).unwrap();
    idx[at + 19] ^= 1;
    let body = idx.len() - 20;
    let trailer: [u8; 20] = sha1::Sha1::digest(&idx[..body]).into();
    idx.truncate(body);
    idx.extend_from_slice(&trailer);
    files.put(b"d.idx", idx);
    let pack = Pack::open(&files, b"d.pack").unwrap();
    let id = ObjectId::compute(ObjectKind::Blob, b"hello there");
    assert_eq!(pack.lookup(&id), Err(PackError::MissingBase(base_id)));
}

#[test]
fn index_lists_checksums_and_offsets() {
    let mut writer = PackWriter::new();
    writer.add(ObjectKind::Blob, b"hello");
    let (bytes, sha) = writer.finish().unwrap();
    let mut files = Files::new();
    files.put(b"p.pack", bytes.clone());
    build_index(&mut files, b"p.pack").unwrap();
    let idx = files.get(b"p.idx").unwrap();
    let crc = u32::from_be_bytes(idx[1052..1056].try_into().unwrap());
    assert_eq!(crc, crc32fast::hash(&bytes[12..bytes.len() - 20]));
    assert_eq!(&idx[1056..1060], &12u32.to_be_bytes());
    assert_eq!(idx.len(), 1032 + 20 + 4 + 4 + 40);
    let parsed = parse_idx(idx).unwrap();
    assert_eq!(parsed.ids, vec![ObjectId::compute(ObjectKind::Blob, b"hello")]);
    assert_eq!(parsed.offsets, vec![12]);
    assert_eq!(parsed.pack_sha, sha);
}

#[test]
fn size_headers_round_trip() {
    for size in [0u64, 15, 16, 2047, 2048, 1 << 40] {
        let mut out = Vec::new();
        write_size_varint(&mut out, 3, size);
        assert_eq!(read_size_varint(&out, 0), Some((3, size, out.len())));
    }
    let mut out = Vec::new();
    write_size_varint(&mut out, 3, 300);
    assert_eq!(out, [0xbc, 0x12]);
}

#[test]
fn varints_have_their_values() {
    assert_eq!(read_delta_size_varint(&[0xe5, 0x8e, 0x26], 0), Some((624_485, 3)));
    assert_eq!(read_delta_size_varint(&[0x80], 0), None);
    assert_eq!(read_offset_varint(&[0x7f], 0), Some((127, 1)));
    assert_eq!(read_offset_varint(&[0x80, 0x00], 0), Some((128, 2)));
    assert_eq!(read_offset_varint(&[0xff, 0x7f], 0), Some((16_511, 2)));
}

#[test]
fn index_path_replaces_the_extension() {
    assert_eq!(index_path(b"a/b.c/x.pack"), b"a/b.c/x.idx");
    assert_eq!(index_path(b"a/b.c/x"), b"a/b.c/x.idx");
    assert_eq!(index_path(b"a/.pack"), b"a/.pack.idx");
}

#[test]
fn every_written_object_is_found_under_its_id() {
    let mut writer = PackWriter::new();
    let objects: Vec<(ObjectKind, Vec<u8>)> = (0..40u8)
        .map(|i| {
            let kind = if i % 2 == 0 { ObjectKind::Blob } else { ObjectKind::Tree };
            (kind, vec![i; i as usize * 7])
        })
        .collect();
    for (kind, payload) in &objects {
        writer.add(*kind, payload);
    }
    let (bytes, sha) = writer.finish().unwrap();
    let mut files = Files::new();
    files.put(b"all.pack", bytes);
    assert_eq!(build_index(&mut files, b"all.pack").unwrap(), sha);
    let pack = Pack::open(&files, b"all.pack").unwrap();
    for (kind, payload) in objects {
        let id = ObjectId::compute(kind, &payload);
        assert_eq!(pack.lookup(&id).unwrap(), Some((kind, payload)));
    }
    assert_eq!(pack.path(), b"all.pack");
}

/// CRC-32, bit by bit.
fn checksum(bytes: &[u8]) -> u32 {
    let mut c = 0xffff_ffff_u32;
    for b in bytes {
        c ^= u32::from(*b);
        for _ in 0..8 {
            c = if c & 1 == 1 { (c >> 1) ^ 0xedb8_8320 } else { c >> 1 };
        }
    }
    !c
}

#[test]
fn offset_delta_on_a_reference_delta_is_resolved() {
    // "hello hello" as a change of "hello there".
    let again = [11, 11, 0x90, 6, 0x90, 5];
    let base_id = ObjectId::compute(ObjectKind::Blob, b"hello world");
    let base = entry(3, 11, b"", b"hello world");
    let named = entry(7, THERE.len(), base_id.as_bytes(), THERE);
    let back = named.len() as u8;
    assert!(back < 0x80);
    let behind = entry(6, again.len(), &[back], &again);
    for order in [[&base, &named, &behind], [&named, &behind, &base]] {
        let entries: Vec<Vec<u8>> = order.iter().map(|e| e.to_vec()).collect();
        let bytes = pack_of(&entries);
        let mut files = Files::new();
        files.put(b"d.pack", bytes.clone());
        let sha = build_index(&mut files, b"d.pack").unwrap();
        assert_eq!(&sha.as_bytes()[..], &bytes[bytes.len() - 20..]);

        let mut expected = Vec::new();
        let mut at = 12;
        for e in &entries {
            let text: &[u8] = if *e == base {
                b"hello world"
            } else if *e == named {
                b"hello there"
            } else {
                b"hello hello"
            };
            expected.push((ObjectId::compute(ObjectKind::Blob, text), at, checksum(e), text));
            at += e.len();
        }
        expected.sort_by_key(|x| *x.0.as_bytes());

        let raw = files.get(b"d.idx").unwrap();
        let idx = parse_idx(raw).unwrap();
        let pack = Pack::open(&files, b"d.pack").unwrap();
        for (i, (id, offset, crc, text)) in expected.iter().enumerate() {
            assert_eq!(idx.ids[i], *id);
            assert_eq!(idx.offsets[i], *offset as u64);
            let row = 1032 + 20 * 3 + 4 * i;
            assert_eq!(raw[row..row + 4], crc.to_be_bytes());
            assert_eq!(pack.lookup(id).unwrap(), Some((ObjectKind::Blob, text.to_vec())));
        }
        assert_eq!(idx.ids.len(), 3);
    }
}

#[test]
fn missing_base_below_an_offset_delta_is_named() {
    let base_id = ObjectId::compute(ObjectKind::Blob, b"hello world");
    let named = entry(7, THERE.len(), base_id.as_bytes(), THERE);
    let behind = entry(6, THERE.len(), &[named.len() as u8], THERE);
    let mut files = Files::new();
    files.put(b"d.pack", pack_of(&[named, behind]));
    assert_eq!(build_index(&mut files, b"d.pack"), Err(PackError::ThinPackUnsupported(base_id)));
}

#[test]
fn checksums_of_entries_are_those_of_their_bytes() {
    assert_eq!(checksum(b"123456789"), 0xcbf4_3926);
    let only = entry(3, 5, b"", b"hello");
    let mut files = Files::new();
    files.put(b"d.pack", pack_of(&[only.clone()]));
    build_index(&mut files, b"d.pack").unwrap();
    let raw = files.get(b"d.idx").unwrap();
    assert_eq!(raw[1052..1056], checksum(&only).to_be_bytes());
}

#[test]
fn written_packs_have_their_layout() {
    let (bytes, sha) = PackWriter::new().finish().unwrap();
    assert_eq!(bytes.len(), 32);
    let mut writer = PackWriter::new();
    writer.add(ObjectKind::Blob, b"one");
    writer.add(ObjectKind::Blob, b"two");
    let (more, more_sha) = writer.finish().unwrap();
    for (b, sha, n) in [(&bytes, sha, 0u32), (&more, more_sha, 2)] {
        assert_eq!(&b[..4], b"PACK");
        assert_eq!(b[4..8], 2u32.to_be_bytes());
        assert_eq!(b[8..12], n.to_be_bytes());
        let end = b.len() - 20;
        let digest: [u8; 20] = sha1::Sha1::digest(&b[..end]).into();
        assert_eq!(b[end..], digest);
        assert_eq!(sha.as_bytes(), &digest);
    }
}
