//! The object database.

use rgit::bytemap::ByteMap;
use rgit::dir::Dir;
use rgit::files::Files;
use rgit::object::{Blob, Object, ObjectId, ObjectKind};
use rgit::odb::setup::{locate, Candidate, GitDirFacts, Located};
use rgit::odb::{loose_file, CorruptReason, OdbError, Repository};
use rgit::pack::PackWriter;
use sha1::Digest;
use std::io::{Read, Write};

// ---------------------------------------------------------------------
// Helpers
// ---------------------------------------------------------------------

fn make_repo() -> Repository {
    Repository::init("demo", false, Dir::new(), Dir::new(), &ByteMap::new()).unwrap()
}

fn sha1_bytes(bytes: &[u8]) -> [u8; 20] {
    sha1::Sha1::digest(bytes).into()
}

fn copied(dir: &Dir<Vec<u8>>) -> Dir<Vec<u8>> {
    let mut out: Dir<Vec<u8>> = Dir::new();
    for i in 0..dir.dirs().count() {
        out.make_dirs(dir.dirs().key(i)).unwrap();
    }
    for i in 0..dir.files().count() {
        out.write(dir.files().key(i), dir.files().value(i).clone()).unwrap();
    }
    out
}

fn reopened(repo: &Repository) -> Repository {
    Repository::open(
        "demo/.git".into(),
        Some("demo".into()),
        copied(repo.git()),
        Dir::new(),
        &ByteMap::new(),
    )
    .unwrap()
}

fn blob(data: &[u8]) -> Object {
    Object::Blob(Blob::new(data.to_vec()))
}

fn plant_loose(repo: &mut Repository, id: &ObjectId, bytes: &[u8]) {
    repo.git_mut().write(&loose_file(id), bytes.to_vec()).unwrap();
}

fn zlib_compress(bytes: &[u8]) -> Vec<u8> {
    let mut enc = flate2::write::ZlibEncoder::new(Vec::new(), flate2::Compression::default());
    enc.write_all(bytes).unwrap();
    enc.finish().unwrap()
}

// ---------------------------------------------------------------------
// Repository handle
// ---------------------------------------------------------------------

const NOTHING: GitDirFacts =
    GitDirFacts { head_is_file: false, objects_is_dir: false, refs_is_dir: false };
const COMPLETE: GitDirFacts =
    GitDirFacts { head_is_file: true, objects_is_dir: true, refs_is_dir: true };

fn plain_dir() -> Candidate {
    Candidate { device: 1, dot_git: NOTHING, itself: NOTHING }
}

fn work_tree_dir() -> Candidate {
    Candidate { device: 1, dot_git: COMPLETE, itself: NOTHING }
}

#[test]
fn open_locates_git_dir_in_work_tree() {
    let found = locate(&vec![work_tree_dir(), plain_dir()]);
    assert_eq!(found, Some(Located { level: 0, bare: false }));
    let made = make_repo();
    let repo = reopened(&made);
    assert_eq!(repo.git_dir(), "demo/.git");
    assert_eq!(repo.work_dir().unwrap(), "demo");
}

#[test]
fn open_walks_up_from_subdirectory() {
    let way = vec![plain_dir(), plain_dir(), plain_dir(), work_tree_dir(), plain_dir()];
    assert_eq!(locate(&way), Some(Located { level: 3, bare: false }));
}

#[test]
fn open_rejects_path_missing_required_components() {
    // HEAD and refs/ missing.
    let partial = GitDirFacts { head_is_file: false, objects_is_dir: true, refs_is_dir: false };
    let way = vec![Candidate { device: 1, dot_git: partial, itself: NOTHING }];
    assert_eq!(locate(&way), None);
    let mut git: Dir<Vec<u8>> = Dir::new();
    git.make_dirs(b"objects").unwrap();
    let result = Repository::open(
        "demo/.git".into(),
        Some("demo".into()),
        git,
        Dir::new(),
        &ByteMap::new(),
    );
    assert!(matches!(result, Err(OdbError::NotARepository(_))));
}

#[test]
fn open_bare_repository_treats_path_as_git_dir() {
    let way = vec![Candidate { device: 1, dot_git: NOTHING, itself: COMPLETE }];
    assert_eq!(locate(&way), Some(Located { level: 0, bare: true }));
    let repo = Repository::init("demo", true, Dir::new(), Dir::new(), &ByteMap::new()).unwrap();
    assert_eq!(repo.git_dir(), "demo");
    assert!(repo.work_dir().is_none());
}

#[test]
fn init_non_bare_creates_required_layout() {
    let repo = make_repo();
    assert_eq!(repo.git_dir(), "demo/.git");
    let git = repo.git();
    assert!(git.is_dir(b"objects"));
    assert!(git.is_dir(b"refs/heads"));
    assert!(git.is_dir(b"refs/tags"));
    assert_eq!(git.read(b"HEAD").unwrap(), b"ref: refs/heads/main\n");
}

#[test]
fn init_bare_uses_path_as_git_dir() {
    let repo = Repository::init("demo", true, Dir::new(), Dir::new(), &ByteMap::new()).unwrap();
    assert_eq!(repo.git_dir(), "demo");
    let git = repo.git();
    assert!(git.is_dir(b"objects"));
    assert!(git.is_dir(b"refs/heads"));
    assert_eq!(git.read(b"HEAD").unwrap(), b"ref: refs/heads/main\n");
}

#[test]
fn init_is_idempotent_on_existing_repo() {
    let mut made = make_repo();
    // Modify HEAD to verify the second init doesn't overwrite.
    made.git_mut().write(b"HEAD", b"ref: refs/heads/custom\n".to_vec()).unwrap();
    let git = copied(made.git());
    let again = Repository::init("demo", false, git, Dir::new(), &ByteMap::new()).unwrap();
    assert_eq!(again.git().read(b"HEAD").unwrap(), b"ref: refs/heads/custom\n");
}

#[test]
fn init_completes_partial_repository_without_overwrite() {
    let mut git: Dir<Vec<u8>> = Dir::new();
    git.write(b"HEAD", b"ref: refs/heads/main\n".to_vec()).unwrap();
    let repo = Repository::init("demo", false, git, Dir::new(), &ByteMap::new()).unwrap();
    assert!(repo.git().is_dir(b"objects"));
    assert!(repo.git().is_dir(b"refs/heads"));
    // Existing HEAD preserved verbatim.
    assert_eq!(repo.git().read(b"HEAD").unwrap(), b"ref: refs/heads/main\n");
}

// ---------------------------------------------------------------------
// Loose object on-disk format
// ---------------------------------------------------------------------

#[test]
fn loose_path_layout_matches_spec() {
    let id = ObjectId::from_hex("e69de29bb2d1d6434b8b29ae775ad8c2e48c5391").unwrap();
    assert_eq!(
        loose_file(&id),
        b"objects/e6/9de29bb2d1d6434b8b29ae775ad8c2e48c5391",
    );
}

#[test]
fn loose_file_contents_are_zlib_deflate_of_frame() {
    let mut repo = make_repo();
    let blob = blob(b"hello world");
    let id = repo.write_object(&blob).unwrap();
    let raw = repo.git().read(&loose_file(&id)).unwrap();
    let mut inflated = Vec::new();
    flate2::read::ZlibDecoder::new(&raw[..])
        .read_to_end(&mut inflated)
        .unwrap();
    assert_eq!(inflated, blob.serialize());
}

// ---------------------------------------------------------------------
// Read
// ---------------------------------------------------------------------

#[test]
fn read_object_finds_loose_blob() {
    let mut repo = make_repo();
    let b = blob(b"hello");
    let id = repo.write_object(&b).unwrap();
    assert_eq!(repo.read_object(&id).unwrap(), b);
}

#[test]
fn read_object_returns_not_found_for_missing_id() {
    let mut repo = make_repo();
    let id = ObjectId::from_hex("0000000000000000000000000000000000000042").unwrap();
    assert!(matches!(
        repo.read_object(&id),
        Err(OdbError::ObjectNotFound(_)),
    ));
}

#[test]
fn read_object_raw_returns_kind_and_payload() {
    let mut repo = make_repo();
    let payload = b"raw bytes here".to_vec();
    let b = blob(&payload);
    let id = repo.write_object(&b).unwrap();
    let (kind, payload_read) = repo.read_object_raw(&id).unwrap();
    assert_eq!(kind, ObjectKind::Blob);
    assert_eq!(payload_read, payload);
}

#[test]
fn read_object_returns_corrupt_inflate_for_garbage_loose() {
    let mut repo = make_repo();
    let id = ObjectId::from_hex("aaaaaaaaaaaaaaaaaaaaaaaaaaaaaaaaaaaaaaaa").unwrap();
    plant_loose(&mut repo, &id, b"not valid zlib data at all");
    let err = repo.read_object(&id).unwrap_err();
    assert!(matches!(
        err,
        OdbError::CorruptObject {
            reason: CorruptReason::Inflate,
            ..
        }
    ));
}

#[test]
fn read_object_returns_undersized_when_inflated_shorter_than_declared() {
    // Frame declares 100-byte payload, actual payload is 5 bytes.
    let frame = b"blob 100\0short";
    let compressed = zlib_compress(frame);
    let mut repo = make_repo();
    // Plant under the hash of these bytes so the path matches; the
    // undersized check fires *before* the hash check, so HashMismatch is
    // not the reported error.
    let id = ObjectId::from_bytes(sha1_bytes(frame));
    plant_loose(&mut repo, &id, &compressed);
    let err = repo.read_object(&id).unwrap_err();
    assert!(matches!(
        err,
        OdbError::CorruptObject {
            reason: CorruptReason::UndersizedPayload,
            ..
        }
    ));
}

#[test]
fn read_object_returns_invalid_object_for_unparseable_loose() {
    let frame = b"snap 0\0"; // unknown kind
    let compressed = zlib_compress(frame);
    let mut repo = make_repo();
    let id = ObjectId::from_bytes(sha1_bytes(frame));
    plant_loose(&mut repo, &id, &compressed);
    let err = repo.read_object(&id).unwrap_err();
    assert!(matches!(err, OdbError::InvalidObject(_)));
}

// ---------------------------------------------------------------------
// Write
// ---------------------------------------------------------------------

#[test]
fn write_object_returns_id_equal_to_object_id() {
    let mut repo = make_repo();
    let b = blob(b"deadbeef");
    let id = repo.write_object(&b).unwrap();
    assert_eq!(id, b.id());
}

#[test]
fn write_object_produces_loose_file_at_canonical_path() {
    let mut repo = make_repo();
    let b = blob(b"contents");
    let id = repo.write_object(&b).unwrap();
    assert!(repo.git().files().has(&loose_file(&id)));
}

#[test]
fn write_object_is_idempotent_on_byte_equal_existing() {
    let mut repo = make_repo();
    let b = blob(b"twice");
    let id_first = repo.write_object(&b).unwrap();
    let id_second = repo.write_object(&b).unwrap();
    assert_eq!(id_first, id_second);
}

#[test]
fn write_object_errors_when_existing_bytes_have_different_hash() {
    let mut repo = make_repo();
    let intended = blob(b"intended bytes");
    let id = intended.id();
    // Plant DIFFERENT compressed content at the path of the intended id.
    let other = blob(b"different bytes entirely");
    let other_compressed = zlib_compress(&other.serialize());
    plant_loose(&mut repo, &id, &other_compressed);
    let err = repo.write_object(&intended).unwrap_err();
    assert!(matches!(err, OdbError::HashMismatch { .. }));
}

// ---------------------------------------------------------------------
// Hash verification
// ---------------------------------------------------------------------

#[test]
fn read_verifies_hash_for_valid_loose_object() {
    let mut repo = make_repo();
    let b = blob(b"verified");
    let id = repo.write_object(&b).unwrap();
    // Successful read implies hash matched.
    let read = repo.read_object(&id).unwrap();
    assert_eq!(read, b);
}

#[test]
fn write_object_does_not_verify_hash_against_caller() {
    // We can't assert the negative directly, but we can verify a write
    // succeeds without the caller pre-providing the id — the id is
    // computed from the bytes, not verified against an external claim.
    let mut repo = make_repo();
    let b = blob(b"computed-not-claimed");
    let id = repo.write_object(&b).unwrap();
    assert_eq!(id, b.id());
}

#[test]
fn contains_does_not_hash_verify_corrupt_loose() {
    let mut repo = make_repo();
    let id = ObjectId::from_hex("bbbbbbbbbbbbbbbbbbbbbbbbbbbbbbbbbbbbbbbb").unwrap();
    plant_loose(&mut repo, &id, b"corrupt content");
    // File exists at the canonical path — contains says yes regardless
    // of whether it's a valid object.
    assert!(repo.contains(&id));
    // A read will surface corruption.
    assert!(repo.read_object(&id).is_err());
}

#[test]
fn read_object_returns_hash_mismatch_when_loose_bytes_dont_match_path() {
    let frame = b"blob 5\0hello";
    let compressed = zlib_compress(frame);
    let mut repo = make_repo();
    // Plant valid bytes at the WRONG id (all-zero), forcing hash mismatch.
    let wrong_id = ObjectId::zero();
    plant_loose(&mut repo, &wrong_id, &compressed);
    let err = repo.read_object(&wrong_id).unwrap_err();
    assert!(matches!(err, OdbError::HashMismatch { .. }));
}

// ---------------------------------------------------------------------
// Resolve (short-SHA)
// ---------------------------------------------------------------------

#[test]
fn resolve_id_rejects_invalid_prefix() {
    let mut repo = make_repo();
    assert!(matches!(
        repo.resolve_id("abc"),
        Err(OdbError::InvalidPrefix(_)),
    ));
    let too_long = "a".repeat(41);
    assert!(matches!(
        repo.resolve_id(&too_long),
        Err(OdbError::InvalidPrefix(_)),
    ));
    assert!(matches!(
        repo.resolve_id("xyz123"),
        Err(OdbError::InvalidPrefix(_)),
    ));
}

#[test]
fn resolve_id_returns_unique_match() {
    let mut repo = make_repo();
    let id = repo.write_object(&blob(b"unique-content-12345")).unwrap();
    let prefix = &id.to_hex()[..8];
    let resolved = repo.resolve_id(prefix).unwrap();
    assert_eq!(resolved, id);
}

#[test]
fn resolve_id_returns_not_found_for_no_matches() {
    let mut repo = make_repo();
    assert!(matches!(
        repo.resolve_id("dead"),
        Err(OdbError::ObjectNotFound(_)),
    ));
}

#[test]
fn resolve_id_returns_ambiguous_for_multiple_matches() {
    // Find two object ids sharing a 4-char hex prefix by writing many
    // varying blobs. At ~1000 writes a 4-char prefix collision is
    // overwhelmingly likely (birthday probability ~0.999).
    let mut repo = make_repo();
    let mut by_prefix: std::collections::HashMap<String, Vec<ObjectId>> = Default::default();
    for i in 0u32..1500 {
        let id = repo.write_object(&blob(&i.to_le_bytes())).unwrap();
        let prefix = id.to_hex()[..4].to_string();
        by_prefix.entry(prefix).or_default().push(id);
    }
    let (prefix, ids) = by_prefix
        .into_iter()
        .find(|(_, v)| v.len() >= 2)
        .expect("expected at least one 4-char prefix collision in 1500 writes");
    match repo.resolve_id(&prefix).unwrap_err() {
        OdbError::AmbiguousId { candidates, .. } => assert!(candidates.len() >= 2),
        other => panic!("expected AmbiguousId, got {other:?}, ids: {ids:?}"),
    }
}

#[test]
fn resolve_id_returns_not_found_for_full_hex_with_no_match() {
    let mut repo = make_repo();
    let nonexistent = "0".repeat(40);
    assert!(matches!(
        repo.resolve_id(&nonexistent),
        Err(OdbError::ObjectNotFound(_)),
    ));
}

#[test]
fn resolve_id_returns_single_id_in_loose_only_repo() {
    // With no packs registered, the candidate set is just loose entries;
    // a written object resolves uniquely under any prefix length.
    let mut repo = make_repo();
    let id = repo.write_object(&blob(b"alpha-content")).unwrap();
    assert_eq!(repo.resolve_id(&id.to_hex()).unwrap(), id);
    assert_eq!(repo.resolve_id(&id.to_hex()[..6]).unwrap(), id);
}

// ---------------------------------------------------------------------
// Contains
// ---------------------------------------------------------------------

#[test]
fn contains_returns_true_for_written_object() {
    let mut repo = make_repo();
    let id = repo.write_object(&blob(b"present")).unwrap();
    assert!(repo.contains(&id));
}

#[test]
fn contains_returns_false_for_missing_object() {
    let mut repo = make_repo();
    let id = ObjectId::from_hex("cafe000000000000000000000000000000000000").unwrap();
    assert!(!repo.contains(&id));
}

// ---------------------------------------------------------------------
// Pack / Import
// ---------------------------------------------------------------------

fn pack_writer_for(entries: &[(ObjectKind, &[u8])]) -> Vec<u8> {
    let mut writer = PackWriter::new();
    for (kind, payload) in entries {
        writer.add(*kind, payload);
    }
    writer.finish().unwrap().0
}

fn make_repo_with_pack(entries: &[(ObjectKind, &[u8])]) -> Repository {
    let mut repo = make_repo();
    let mut incoming = Files::new();
    incoming.put(b"import.pack", pack_writer_for(entries));
    repo.import_pack(&mut incoming, b"import.pack").unwrap();
    reopened(&repo)
}

/// The files of the git directory below `objects/pack`.
fn pack_dir_files(repo: &Repository) -> Vec<Vec<u8>> {
    let files = repo.git().files();
    (0..files.count())
        .map(|i| files.key(i).clone())
        .filter(|path| path.starts_with(b"objects/pack/"))
        .collect()
}

#[test]
fn read_object_falls_through_to_pack_after_loose_miss() {
    let repo = make_repo_with_pack(&[(ObjectKind::Blob, b"packed-bytes")]);
    let id = ObjectId::compute(ObjectKind::Blob, b"packed-bytes");
    let obj = repo.read_object(&id).unwrap();
    let Object::Blob(b) = obj else {
        panic!("expected blob")
    };
    assert_eq!(b.data, b"packed-bytes");
}

#[test]
fn pack_read_hash_verifies_payload() {
    let repo = make_repo_with_pack(&[(ObjectKind::Blob, b"verify-me")]);
    let id = ObjectId::compute(ObjectKind::Blob, b"verify-me");
    assert!(repo.read_object(&id).is_ok());
}

#[test]
fn open_lazily_builds_missing_idx_files() {
    let mut repo = make_repo();
    // Drop a pack into objects/pack/ without its idx.
    let pack_bytes = pack_writer_for(&[(ObjectKind::Blob, b"lazy-idx")]);
    repo.git_mut().write(b"objects/pack/pack-test.pack", pack_bytes).unwrap();
    assert!(!repo.git().files().has(b"objects/pack/pack-test.idx"));
    // Opening the repo builds the missing idx.
    let repo = reopened(&repo);
    assert!(repo.git().files().has(b"objects/pack/pack-test.idx"));
}

#[test]
fn open_returns_invalid_pack_for_corrupt_idx() {
    let mut repo = make_repo();
    let pack_bytes = pack_writer_for(&[(ObjectKind::Blob, b"x")]);
    repo.git_mut().write(b"objects/pack/pack-corrupt.pack", pack_bytes).unwrap();
    // Write a bogus idx with wrong magic.
    repo.git_mut().write(b"objects/pack/pack-corrupt.idx", b"NOTANIDX".to_vec()).unwrap();
    let result = Repository::open(
        "demo/.git".into(),
        Some("demo".into()),
        copied(repo.git()),
        Dir::new(),
        &ByteMap::new(),
    );
    assert!(matches!(result, Err(OdbError::InvalidPack(_))));
}

#[test]
fn pack_remains_usable_after_pack_file_deleted() {
    let mut repo = make_repo_with_pack(&[(ObjectKind::Blob, b"durable")]);
    // Find and delete the imported pack file.
    let pack_path = pack_dir_files(&repo)
        .into_iter()
        .find(|path| path.ends_with(b".pack"))
        .unwrap();
    repo.git_mut().remove_file(&pack_path).unwrap();
    // Read still succeeds: pack bytes are in memory.
    let id = ObjectId::compute(ObjectKind::Blob, b"durable");
    assert!(repo.read_object(&id).is_ok());
}

#[test]
fn packs_are_ordered_newest_mtime_first() {
    let mut repo = make_repo();
    let mut incoming = Files::new();
    incoming.put(b"first.pack", pack_writer_for(&[(ObjectKind::Blob, b"first-pack-content")]));
    repo.import_pack(&mut incoming, b"first.pack").unwrap();
    let mut times: ByteMap<u64> = ByteMap::new();
    for path in pack_dir_files(&repo) {
        times.put(&path, 1);
    }
    incoming.put(b"second.pack", pack_writer_for(&[(ObjectKind::Blob, b"second-pack-content")]));
    repo.import_pack(&mut incoming, b"second.pack").unwrap();
    for path in pack_dir_files(&repo) {
        if times.get(&path).is_none() {
            times.put(&path, 2);
        }
    }

    // Re-open so the packs are in canonical order.
    let repo = Repository::open(
        "demo/.git".into(),
        Some("demo".into()),
        copied(repo.git()),
        Dir::new(),
        &times,
    )
    .unwrap();
    let second_id = ObjectId::compute(ObjectKind::Blob, b"second-pack-content");
    let first_id = ObjectId::compute(ObjectKind::Blob, b"first-pack-content");
    assert!(repo.packs()[0].contains(&second_id));
    assert!(repo.packs()[1].contains(&first_id));
    assert!(repo.contains(&second_id));
    assert!(repo.contains(&first_id));
    assert!(repo.read_object(&second_id).is_ok());
    assert!(repo.read_object(&first_id).is_ok());
}

#[test]
fn import_pack_validates_header_before_moving() {
    let mut repo = make_repo();
    // A "pack" that isn't actually a pack.
    let mut incoming = Files::new();
    incoming.put(b"bogus.pack", b"NOT A PACK FILE".to_vec());
    let result = repo.import_pack(&mut incoming, b"bogus.pack");
    assert!(result.is_err());
    // Source file untouched.
    assert!(incoming.has(b"bogus.pack"));
    // Nothing landed in objects/pack/.
    assert!(pack_dir_files(&repo).is_empty(), "objects/pack should be empty after failed import");
}

#[test]
fn import_pack_builds_companion_idx() {
    let repo = make_repo_with_pack(&[(ObjectKind::Blob, b"x")]);
    let paths = pack_dir_files(&repo);
    assert!(paths.iter().any(|path| path.ends_with(b".pack")));
    assert!(paths.iter().any(|path| path.ends_with(b".idx")));
}

#[test]
fn import_pack_renames_to_canonical_path() {
    let mut repo = make_repo();
    let pack_bytes = pack_writer_for(&[(ObjectKind::Blob, b"canonical-test")]);
    // Compute the pack sha so we know what the canonical name should be.
    let sha = ObjectId::from_bytes(sha1_bytes(&pack_bytes[..pack_bytes.len() - 20]));
    let sha_hex = sha.to_hex();
    let mut incoming = Files::new();
    incoming.put(b"anything.pack", pack_bytes);
    repo.import_pack(&mut incoming, b"anything.pack").unwrap();
    let expected_pack = format!("objects/pack/pack-{sha_hex}.pack");
    let expected_idx = format!("objects/pack/pack-{sha_hex}.idx");
    assert!(repo.git().files().has(expected_pack.as_bytes()), "{expected_pack:?} not present");
    assert!(repo.git().files().has(expected_idx.as_bytes()), "{expected_idx:?} not present");
    assert!(!incoming.has(b"anything.pack"));
}

#[test]
fn reopen_observes_imported_pack() {
    let mut repo = make_repo();
    let mut incoming = Files::new();
    incoming.put(b"import.pack", pack_writer_for(&[(ObjectKind::Blob, b"observed")]));
    repo.import_pack(&mut incoming, b"import.pack").unwrap();
    let id = ObjectId::compute(ObjectKind::Blob, b"observed");
    // The handle itself doesn't see the pack; re-opening picks it up.
    let reopened = reopened(&repo);
    assert!(reopened.contains(&id));
    assert!(reopened.read_object(&id).is_ok());
}

#[test]
fn import_pack_leaves_no_partial_state_on_failure() {
    let mut repo = make_repo();
    let mut incoming = Files::new();
    incoming.put(b"bogus.pack", b"definitely not a pack".to_vec());
    let _ = repo.import_pack(&mut incoming, b"bogus.pack");
    assert!(pack_dir_files(&repo).is_empty(), "objects/pack should be empty after failed import");
}
