//! Packs and their indexes.

use rgit::files::Files;
use rgit::object::{ObjectId, ObjectKind};
use rgit::pack::{build_index, Pack, PackError, PackWriter};
use sha1::Digest;
use std::io::Write as _;

// ---------------------------------------------------------------------
// Helpers — pack/idx byte construction for fixture-driven tests
// ---------------------------------------------------------------------

fn sha1(bytes: &[u8]) -> [u8; 20] {
    sha1::Sha1::digest(bytes).into()
}

/// Encode a pack entry's type+size header.
fn encode_size_varint(type_code: u8, size: u64) -> Vec<u8> {
    let mut bytes = Vec::new();
    let low4 = (size & 0x0f) as u8;
    let mut rest = size >> 4;
    let first_cont = if rest > 0 { 0x80 } else { 0 };
    let first = first_cont | ((type_code & 0x07) << 4) | low4;
    bytes.push(first);
    while rest > 0 {
        let cont = if rest > 0x7f { 0x80 } else { 0 };
        bytes.push(cont | (rest & 0x7f) as u8);
        rest >>= 7;
    }
    bytes
}

fn zlib_compress(bytes: &[u8]) -> Vec<u8> {
    let mut enc = flate2::write::ZlibEncoder::new(Vec::new(), flate2::Compression::default());
    enc.write_all(bytes).unwrap();
    enc.finish().unwrap()
}

/// Build a pack body (no trailer) from full-object entries.
/// Each entry: `(type_code, payload)`. Type codes: 1=commit, 2=tree,
/// 3=blob, 4=tag, 5=reserved, 6=ofs_delta, 7=ref_delta.
fn pack_body(entries: &[(u8, &[u8])]) -> Vec<u8> {
    let mut out = Vec::new();
    out.extend_from_slice(b"PACK");
    out.extend_from_slice(&2u32.to_be_bytes());
    out.extend_from_slice(&(entries.len() as u32).to_be_bytes());
    for (type_code, payload) in entries {
        out.extend_from_slice(&encode_size_varint(*type_code, payload.len() as u64));
        out.extend_from_slice(&zlib_compress(payload));
    }
    out
}

/// Append a SHA-1 trailer to a pack body.
fn pack_with_trailer(body: Vec<u8>) -> Vec<u8> {
    let mut out = body;
    let trailer = sha1(&out);
    out.extend_from_slice(&trailer);
    out
}

fn write_pack(files: &mut Files, name: &str, bytes: &[u8]) -> Vec<u8> {
    let path = format!("{name}.pack").into_bytes();
    files.put(&path, bytes.to_vec());
    path
}

/// Round-trip helper: writes the given full-object entries to a temp
/// pack, builds the idx, and opens the pack.
fn write_and_open(files: &mut Files, entries: &[(ObjectKind, &[u8])]) -> Pack {
    let mut writer = PackWriter::new();
    for (kind, payload) in entries {
        writer.add(*kind, payload);
    }
    let (bytes, pack_sha) = writer.finish().unwrap();
    let path = format!("pack-{}.pack", pack_sha.to_hex()).into_bytes();
    files.put(&path, bytes);
    let returned = build_index(files, &path).unwrap();
    assert_eq!(returned, pack_sha);
    Pack::open(files, &path).unwrap()
}

// ---------------------------------------------------------------------
// pack file format
// ---------------------------------------------------------------------

#[test]
fn writer_emits_pack_header_with_magic_version_count() {
    let mut w = PackWriter::new();
    w.add(ObjectKind::Blob, b"hello");
    let (bytes, _sha) = w.finish().unwrap();
    assert_eq!(&bytes[0..4], b"PACK");
    assert_eq!(&bytes[4..8], &2u32.to_be_bytes());
    assert_eq!(&bytes[8..12], &1u32.to_be_bytes());
}

#[test]
fn open_rejects_pack_with_wrong_version() {
    let mut files = Files::new();
    let mut body = b"PACK".to_vec();
    body.extend_from_slice(&3u32.to_be_bytes()); // version 3
    body.extend_from_slice(&0u32.to_be_bytes());
    let pack_bytes = pack_with_trailer(body);
    let path = write_pack(&mut files, "pack-test", &pack_bytes);
    // No idx — but the pack header is rejected first.
    let result = Pack::open(&files, &path);
    assert!(matches!(result, Err(PackError::BadHeader)));
}

#[test]
fn writer_appends_sha1_trailer_of_preceding_bytes() {
    let mut w = PackWriter::new();
    w.add(ObjectKind::Blob, b"hello");
    let (bytes, sha) = w.finish().unwrap();
    let body_len = bytes.len() - 20;
    let computed = sha1(&bytes[..body_len]);
    assert_eq!(&bytes[body_len..], &computed[..]);
    assert_eq!(sha.as_bytes(), &computed);
}

#[test]
fn open_rejects_pack_with_bad_trailer() {
    let mut files = Files::new();
    let mut body = pack_body(&[(3, b"hi")]);
    // Append a deliberately wrong trailer.
    body.extend_from_slice(&[0u8; 20]);
    let path = write_pack(&mut files, "pack-bad-trailer", &body);
    // Build an idx so Pack::open doesn't bail on missing idx first.
    // We can't use build_index (which validates the trailer). Hand-roll
    // a minimal idx that "agrees" with the wrong trailer to exercise
    // the pack-trailer-check path.
    files.put(b"pack-bad-trailer.idx", minimal_idx_for_test_only());
    let result = Pack::open(&files, &path);
    // Must be either BadPackSha or PackIdxMismatch — both indicate the
    // pack's stored trailer doesn't reflect its contents.
    assert!(matches!(
        result,
        Err(PackError::BadPackSha) | Err(PackError::PackIdxMismatch),
    ));
}

/// Construct a placeholder idx that's structurally a v2 header but
/// doesn't actually index anything. Used only by tests that exercise
/// the pack-side trailer-check path; tests that exercise idx validation
/// construct their own idx bytes.
fn minimal_idx_for_test_only() -> Vec<u8> {
    let mut out = Vec::new();
    out.extend_from_slice(b"\xfftOc");
    out.extend_from_slice(&2u32.to_be_bytes());
    // 256 fanout entries, all zero (zero objects).
    out.extend_from_slice(&[0u8; 1024]);
    // No object names, no crc32, no offset table.
    // Pack sha: zeros.
    out.extend_from_slice(&[0u8; 20]);
    // Idx trailer = SHA-1 of all preceding bytes.
    let trailer = sha1(&out);
    out.extend_from_slice(&trailer);
    out
}

// ---------------------------------------------------------------------
// entry encoding
// ---------------------------------------------------------------------

#[test]
fn writer_full_object_entry_round_trip_for_each_kind() {
    let mut files = Files::new();
    let entries: Vec<(ObjectKind, &[u8])> = vec![
        (ObjectKind::Commit, b"commit-bytes"),
        (ObjectKind::Tree, b"tree-bytes"),
        (ObjectKind::Blob, b"blob-bytes"),
        (ObjectKind::Tag, b"tag-bytes"),
    ];
    let pack = write_and_open(&mut files, &entries);
    for (kind, payload) in &entries {
        // Compute the id the same way the pack would: SHA-1 of the
        // framed bytes.
        let id = ObjectId::compute(*kind, payload);
        let result = pack.lookup(&id).unwrap();
        let (read_kind, read_payload) = result.expect("entry present in pack");
        assert_eq!(read_kind, *kind);
        assert_eq!(read_payload, *payload);
    }
}

#[test]
fn pack_rejects_reserved_type_code_5() {
    let mut files = Files::new();
    // Hand-roll a pack with one entry using type code 5.
    let body = pack_body(&[(5, b"reserved")]);
    let pack_bytes = pack_with_trailer(body);
    let path = write_pack(&mut files, "pack-type-5", &pack_bytes);
    let result = build_index(&mut files, &path);
    assert!(matches!(result, Err(PackError::UnknownType(5))));
}

#[test]
fn pack_rejects_unknown_type_code() {
    let mut files = Files::new();
    // Note: type field is 3 bits, max value 7. To get a truly "unknown"
    // code we need to construct one outside the recognized set. Code 0
    // is also unknown.
    let body = pack_body(&[(0, b"zero-type")]);
    let pack_bytes = pack_with_trailer(body);
    let path = write_pack(&mut files, "pack-type-0", &pack_bytes);
    let result = build_index(&mut files, &path);
    assert!(matches!(result, Err(PackError::UnknownType(0))));
}

#[test]
fn pack_rejects_corrupt_zlib_payload() {
    let mut files = Files::new();
    // Construct a body where the "compressed payload" is garbage.
    let mut body = Vec::new();
    body.extend_from_slice(b"PACK");
    body.extend_from_slice(&2u32.to_be_bytes());
    body.extend_from_slice(&1u32.to_be_bytes());
    // Type+size header for a 5-byte blob.
    body.extend_from_slice(&encode_size_varint(3, 5));
    // Garbage bytes that don't decompress.
    body.extend_from_slice(b"not valid zlib data here!");
    let pack_bytes = pack_with_trailer(body);
    let path = write_pack(&mut files, "pack-bad-zlib", &pack_bytes);
    let result = build_index(&mut files, &path);
    assert!(matches!(result, Err(PackError::BadInflate)));
}

// ---------------------------------------------------------------------
// index format
// ---------------------------------------------------------------------

#[test]
fn build_index_produces_v2_idx_with_correct_headers_and_trailers() {
    let mut files = Files::new();
    let _pack = write_and_open(&mut files, &[(ObjectKind::Blob, b"hello")]);
    // After write_and_open, exactly one .idx exists.
    let at = (0..files.count())
        .find(|&i| files.key(i).ends_with(b".idx"))
        .expect("idx file present after build_index");
    let idx_bytes = files.value(at).clone();
    assert_eq!(&idx_bytes[0..4], b"\xfftOc");
    assert_eq!(&idx_bytes[4..8], &2u32.to_be_bytes());
    let body_len = idx_bytes.len() - 20;
    let trailer = &idx_bytes[body_len..];
    assert_eq!(trailer, &sha1(&idx_bytes[..body_len])[..]);
}

#[test]
fn open_rejects_idx_with_wrong_version() {
    let mut files = Files::new();
    // Write a valid pack first.
    let mut w = PackWriter::new();
    w.add(ObjectKind::Blob, b"hi");
    let (pack_bytes, _) = w.finish().unwrap();
    let pack_path = b"pack-test.pack".to_vec();
    files.put(&pack_path, pack_bytes);
    // Hand-roll an idx with version 3 instead of 2.
    let mut idx = Vec::new();
    idx.extend_from_slice(b"\xfftOc");
    idx.extend_from_slice(&3u32.to_be_bytes());
    idx.extend_from_slice(&[0u8; 1024]); // fanout
    idx.extend_from_slice(&[0u8; 20]); // pack-sha (zeros)
    let trailer = sha1(&idx);
    idx.extend_from_slice(&trailer);
    files.put(b"pack-test.idx", idx);
    let result = Pack::open(&files, &pack_path);
    assert!(matches!(result, Err(PackError::BadIndexHeader)));
}

#[test]
fn open_rejects_idx_with_bad_trailer() {
    let mut files = Files::new();
    let mut w = PackWriter::new();
    w.add(ObjectKind::Blob, b"hi");
    let (pack_bytes, _) = w.finish().unwrap();
    let pack_path = b"pack-test.pack".to_vec();
    files.put(&pack_path, pack_bytes);
    // Hand-roll an idx with a corrupt trailer.
    let mut idx = Vec::new();
    idx.extend_from_slice(b"\xfftOc");
    idx.extend_from_slice(&2u32.to_be_bytes());
    idx.extend_from_slice(&[0u8; 1024]);
    idx.extend_from_slice(&[0u8; 20]);
    idx.extend_from_slice(&[0u8; 20]); // deliberately wrong trailer
    files.put(b"pack-test.idx", idx);
    let result = Pack::open(&files, &pack_path);
    assert!(matches!(result, Err(PackError::BadIndexSha)));
}

#[test]
fn open_rejects_when_pack_and_idx_disagree_on_pack_sha() {
    let mut files = Files::new();
    let mut w = PackWriter::new();
    w.add(ObjectKind::Blob, b"hi");
    let (pack_bytes, _) = w.finish().unwrap();
    let pack_path = b"pack-test.pack".to_vec();
    files.put(&pack_path, pack_bytes);
    // Hand-roll an idx whose embedded pack-sha doesn't match the pack.
    let mut idx = Vec::new();
    idx.extend_from_slice(b"\xfftOc");
    idx.extend_from_slice(&2u32.to_be_bytes());
    idx.extend_from_slice(&[0u8; 1024]);
    idx.extend_from_slice(&[0xff; 20]); // deliberately wrong pack-sha
    let trailer = sha1(&idx);
    idx.extend_from_slice(&trailer);
    files.put(b"pack-test.idx", idx);
    let result = Pack::open(&files, &pack_path);
    assert!(matches!(result, Err(PackError::PackIdxMismatch)));
}

// ---------------------------------------------------------------------
// Pack public API
// ---------------------------------------------------------------------

#[test]
fn open_succeeds_for_well_formed_pack_and_idx() {
    let mut files = Files::new();
    let _pack = write_and_open(&mut files, &[(ObjectKind::Blob, b"hi")]);
}

#[test]
fn lookup_returns_some_for_present_id() {
    let mut files = Files::new();
    let pack = write_and_open(&mut files, &[(ObjectKind::Blob, b"present")]);
    let id = ObjectId::compute(ObjectKind::Blob, b"present");
    let (kind, payload) = pack.lookup(&id).unwrap().expect("id present in pack");
    assert_eq!(kind, ObjectKind::Blob);
    assert_eq!(payload, b"present");
}

#[test]
fn lookup_returns_none_for_missing_id() {
    let mut files = Files::new();
    let pack = write_and_open(&mut files, &[(ObjectKind::Blob, b"only-entry")]);
    let other = ObjectId::compute(ObjectKind::Blob, b"not-in-pack");
    assert_eq!(pack.lookup(&other).unwrap(), None);
}

#[test]
fn contains_matches_lookup() {
    let mut files = Files::new();
    let pack = write_and_open(&mut files, &[(ObjectKind::Blob, b"x")]);
    let present = ObjectId::compute(ObjectKind::Blob, b"x");
    let absent = ObjectId::compute(ObjectKind::Blob, b"y");
    assert!(pack.contains(&present));
    assert!(!pack.contains(&absent));
}

#[test]
fn iter_ids_yields_each_id_in_ascending_order() {
    let mut files = Files::new();
    let entries: &[(ObjectKind, &[u8])] = &[
        (ObjectKind::Blob, b"alpha"),
        (ObjectKind::Blob, b"beta"),
        (ObjectKind::Blob, b"gamma"),
    ];
    let pack = write_and_open(&mut files, entries);
    let ids: Vec<&ObjectId> = pack.iter_ids().collect();
    assert_eq!(ids.len(), entries.len());
    for window in ids.windows(2) {
        assert!(window[0].as_bytes() <= window[1].as_bytes());
    }
}

#[test]
fn pack_sha_matches_writer_returned_sha() {
    let mut files = Files::new();
    let mut w = PackWriter::new();
    w.add(ObjectKind::Blob, b"x");
    let (bytes, writer_sha) = w.finish().unwrap();
    let pack_path = b"pack-sha-test.pack".to_vec();
    files.put(&pack_path, bytes);
    let _ = build_index(&mut files, &pack_path).unwrap();
    let pack = Pack::open(&files, &pack_path).unwrap();
    assert_eq!(pack.pack_sha(), writer_sha);
}

#[test]
fn open_propagates_io_error_when_idx_missing() {
    let mut files = Files::new();
    let mut w = PackWriter::new();
    w.add(ObjectKind::Blob, b"orphan-pack");
    let (bytes, _) = w.finish().unwrap();
    let pack_path = b"orphan.pack".to_vec();
    files.put(&pack_path, bytes);
    // Deliberately do not call build_index.
    let result = Pack::open(&files, &pack_path);
    assert!(matches!(result, Err(PackError::Io(_))));
}

// ---------------------------------------------------------------------
// PackWriter
// ---------------------------------------------------------------------

#[test]
fn writer_add_appends_to_pending_list() {
    let mut w = PackWriter::new();
    assert_eq!(w.len(), 0);
    assert!(w.is_empty());
    w.add(ObjectKind::Blob, b"first");
    assert_eq!(w.len(), 1);
    assert!(!w.is_empty());
    w.add(ObjectKind::Tree, b"second");
    assert_eq!(w.len(), 2);
}

#[test]
fn writer_finish_emits_v2_pack_with_header_and_trailer() {
    let mut w = PackWriter::new();
    w.add(ObjectKind::Blob, b"x");
    w.add(ObjectKind::Blob, b"y");
    let (bytes, _sha) = w.finish().unwrap();
    assert!(bytes.len() > 12 + 20); // header + at least one byte of body + trailer
    assert_eq!(&bytes[0..4], b"PACK");
    assert_eq!(u32::from_be_bytes(bytes[4..8].try_into().unwrap()), 2);
    assert_eq!(u32::from_be_bytes(bytes[8..12].try_into().unwrap()), 2);
}

#[test]
fn writer_output_is_deterministic_for_same_add_sequence() {
    let mut w1 = PackWriter::new();
    w1.add(ObjectKind::Blob, b"a");
    w1.add(ObjectKind::Tree, b"b");
    let (bytes1, sha1_) = w1.finish().unwrap();
    let mut w2 = PackWriter::new();
    w2.add(ObjectKind::Blob, b"a");
    w2.add(ObjectKind::Tree, b"b");
    let (bytes2, sha2) = w2.finish().unwrap();
    assert_eq!(bytes1, bytes2);
    assert_eq!(sha1_, sha2);
}

#[test]
fn writer_finish_returns_trailer_sha_as_object_id() {
    let mut w = PackWriter::new();
    w.add(ObjectKind::Blob, b"x");
    let (bytes, sha) = w.finish().unwrap();
    let trailer = &bytes[bytes.len() - 20..];
    assert_eq!(sha.as_bytes(), trailer);
}

#[test]
fn writer_with_zero_entries_produces_valid_empty_pack() {
    let w = PackWriter::new();
    let (bytes, _sha) = w.finish().unwrap();
    // Header 12 bytes + zero-byte body + 20-byte trailer = 32 bytes.
    assert_eq!(bytes.len(), 32);
    assert_eq!(&bytes[0..4], b"PACK");
    assert_eq!(u32::from_be_bytes(bytes[4..8].try_into().unwrap()), 2);
    assert_eq!(u32::from_be_bytes(bytes[8..12].try_into().unwrap()), 0);
    let trailer = &bytes[12..];
    assert_eq!(trailer, &sha1(&bytes[..12])[..]);
}

// ---------------------------------------------------------------------
// build_index
// ---------------------------------------------------------------------

#[test]
fn build_index_produces_consumable_idx_for_full_object_pack() {
    let mut files = Files::new();
    // This is the end-to-end round-trip — if build_index produces a
    // valid v2 idx and the (id, offset) entries are sorted correctly,
    // Pack::open succeeds and lookup returns the entries.
    let pack = write_and_open(
        &mut files,
        &[(ObjectKind::Blob, b"first"), (ObjectKind::Blob, b"second")],
    );
    let id1 = ObjectId::compute(ObjectKind::Blob, b"first");
    let id2 = ObjectId::compute(ObjectKind::Blob, b"second");
    assert!(pack.contains(&id1));
    assert!(pack.contains(&id2));
}

// ---------------------------------------------------------------------
// cross-cutting
// ---------------------------------------------------------------------

#[test]
fn parse_returns_truncated_for_incomplete_entry_header() {
    let mut files = Files::new();
    // Construct a pack with a body that ends mid-varint.
    let mut body = Vec::new();
    body.extend_from_slice(b"PACK");
    body.extend_from_slice(&2u32.to_be_bytes());
    body.extend_from_slice(&1u32.to_be_bytes());
    // A single byte with the continuation bit set — implies more bytes
    // follow, but none do.
    body.push(0xff);
    let pack_bytes = pack_with_trailer(body);
    let path = write_pack(&mut files, "pack-truncated", &pack_bytes);
    let result = build_index(&mut files, &path);
    assert!(matches!(result, Err(PackError::TruncatedEntry)));
}
