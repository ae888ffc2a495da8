//! Refs and HEAD.

use rgit::bytemap::ByteMap;
use rgit::dir::Dir;
use rgit::object::ObjectId;
use rgit::odb::Repository;
use rgit::refs::{HeadState, RefError};

fn make_repo() -> Repository {
    Repository::init("demo", false, Dir::new(), Dir::new(), &ByteMap::new()).unwrap()
}

/// The repository opened again, with some files of the git directory
/// replaced.
fn reopened(repo: &Repository, files: &[(&str, &str)]) -> Repository {
    let mut git: Dir<Vec<u8>> = Dir::new();
    for i in 0..repo.git().dirs().count() {
        git.make_dirs(repo.git().dirs().key(i)).unwrap();
    }
    for i in 0..repo.git().files().count() {
        let old = repo.git().files();
        git.write(old.key(i), old.value(i).clone()).unwrap();
    }
    for (path, contents) in files {
        git.write(path.as_bytes(), contents.as_bytes().to_vec()).unwrap();
    }
    Repository::open("demo/.git".into(), Some("demo".into()), git, Dir::new(), &ByteMap::new())
        .unwrap()
}

fn fake_id(byte: u8) -> ObjectId {
    let mut bytes = [0u8; 20];
    bytes.fill(byte);
    ObjectId::from_bytes(bytes)
}

// ---------------------------------------------------------------------
// validation
// ---------------------------------------------------------------------

#[test]
fn validates_empty_name() {
    let mut repo = make_repo();
    assert!(matches!(
        repo.read_ref(""),
        Err(RefError::InvalidRefName(_))
    ));
    assert!(matches!(
        repo.write_ref("", &fake_id(0)),
        Err(RefError::InvalidRefName(_))
    ));
}

#[test]
fn validates_double_dot() {
    let mut repo = make_repo();
    assert!(matches!(
        repo.read_ref("refs/heads/..evil"),
        Err(RefError::InvalidRefName(_))
    ));
}

#[test]
fn validates_special_chars() {
    let mut repo = make_repo();
    for bad in [
        "refs/heads/x~y",
        "refs/heads/x^y",
        "refs/heads/x:y",
        "refs/heads/x?y",
        "refs/heads/x*y",
        "refs/heads/x[y",
        "refs/heads/x\\y",
    ] {
        assert!(
            matches!(repo.read_ref(bad), Err(RefError::InvalidRefName(_))),
            "expected reject for {bad:?}",
        );
    }
}

#[test]
fn validates_leading_dash_or_dot() {
    let mut repo = make_repo();
    assert!(matches!(
        repo.read_ref("-evil"),
        Err(RefError::InvalidRefName(_))
    ));
    assert!(matches!(
        repo.read_ref(".evil"),
        Err(RefError::InvalidRefName(_))
    ));
}

#[test]
fn validates_trailing_slash_or_dotlock() {
    let mut repo = make_repo();
    assert!(matches!(
        repo.read_ref("refs/heads/main/"),
        Err(RefError::InvalidRefName(_))
    ));
    assert!(matches!(
        repo.read_ref("refs/heads/main.lock"),
        Err(RefError::InvalidRefName(_))
    ));
}

#[test]
fn validates_double_slash() {
    let mut repo = make_repo();
    assert!(matches!(
        repo.read_ref("refs//heads/main"),
        Err(RefError::InvalidRefName(_))
    ));
}

#[test]
fn validates_whitespace_and_control() {
    let mut repo = make_repo();
    assert!(matches!(
        repo.read_ref("refs/heads/has space"),
        Err(RefError::InvalidRefName(_))
    ));
    assert!(matches!(
        repo.read_ref("refs/heads/has\ttab"),
        Err(RefError::InvalidRefName(_))
    ));
}

#[test]
fn validates_on_read_blocks_path_traversal() {
    let mut repo = make_repo();
    // Without read-side validation, this would escape the git dir.
    assert!(matches!(
        repo.read_ref("../../etc/passwd"),
        Err(RefError::InvalidRefName(_))
    ));
}

// ---------------------------------------------------------------------
// loose ref file format
// ---------------------------------------------------------------------

#[test]
fn write_then_read_roundtrip() {
    let mut repo = make_repo();
    let id = fake_id(0x42);
    repo.write_ref("refs/heads/main", &id).unwrap();
    let contents = repo.git().read(b"refs/heads/main").unwrap();
    assert_eq!(contents, format!("{}\n", id.to_hex()).as_bytes());
    let read = repo.read_ref("refs/heads/main").unwrap();
    assert_eq!(read, id);
}

#[test]
fn read_empty_loose_file_returns_invalid_content() {
    let mut repo = make_repo();
    repo.git_mut().write(b"refs/heads/empty", Vec::new()).unwrap();
    assert!(matches!(
        repo.read_ref("refs/heads/empty"),
        Err(RefError::InvalidRefContent(_))
    ));
}

#[test]
fn write_ref_uses_atomic_temp_and_rename() {
    let mut repo = make_repo();
    let id = fake_id(0x55);
    repo.write_ref("refs/heads/atomic", &id).unwrap();
    // No tmp- files should remain after a successful write.
    for i in 0..repo.git().files().count() {
        let name = String::from_utf8_lossy(repo.git().files().key(i)).into_owned();
        assert!(
            !name.starts_with("refs/heads/tmp-"),
            "unexpected tmp file remained: {name}",
        );
    }
}

// ---------------------------------------------------------------------
// packed-refs handling
// ---------------------------------------------------------------------

#[test]
fn read_falls_back_to_packed_refs() {
    let first = make_repo();
    let packed = "\
# pack-refs with: peeled fully-peeled sorted
aaaaaaaaaaaaaaaaaaaaaaaaaaaaaaaaaaaaaaaa refs/heads/from-packed
bbbbbbbbbbbbbbbbbbbbbbbbbbbbbbbbbbbbbbbb refs/tags/v1.0
";
    let mut repo = reopened(&first, &[("packed-refs", packed)]);
    let id = repo.read_ref("refs/heads/from-packed").unwrap();
    assert_eq!(id.to_hex(), "aaaaaaaaaaaaaaaaaaaaaaaaaaaaaaaaaaaaaaaa");
    let tag = repo.read_ref("refs/tags/v1.0").unwrap();
    assert_eq!(tag.to_hex(), "bbbbbbbbbbbbbbbbbbbbbbbbbbbbbbbbbbbbbbbb");
}

#[test]
fn malformed_packed_lines_are_skipped() {
    let first = make_repo();
    let packed = "\
# header comment
not a valid line
cccccccccccccccccccccccccccccccccccccccc refs/heads/good
xyz-not-hex refs/heads/bad-hex
dddddddddddddddddddddddddddddddddddddddd refs/heads/has space
";
    let mut repo = reopened(&first, &[("packed-refs", packed)]);
    assert!(repo.read_ref("refs/heads/good").is_ok());
    // bad-hex line was skipped silently — ref isn't there.
    assert!(matches!(
        repo.read_ref("refs/heads/bad-hex"),
        Err(RefError::RefNotFound(_))
    ));
}

#[test]
fn peeled_tag_hint_lines_are_skipped() {
    let first = make_repo();
    let packed = "\
# pack-refs with: peeled
eeeeeeeeeeeeeeeeeeeeeeeeeeeeeeeeeeeeeeee refs/tags/annotated
^ffffffffffffffffffffffffffffffffffffffff
";
    let mut repo = reopened(&first, &[("packed-refs", packed)]);
    let tag = repo.read_ref("refs/tags/annotated").unwrap();
    // The tag id is the line itself, not the peeled-hint id.
    assert_eq!(tag.to_hex(), "eeeeeeeeeeeeeeeeeeeeeeeeeeeeeeeeeeeeeeee");
}

// ---------------------------------------------------------------------
// REFS-HEAD
// ---------------------------------------------------------------------

#[test]
fn read_head_after_init_returns_symbolic() {
    let mut repo = make_repo();
    match repo.read_head().unwrap() {
        HeadState::Symbolic(target) => assert_eq!(target, "refs/heads/main"),
        other => panic!("expected symbolic HEAD, got {other:?}"),
    }
}

#[test]
fn set_head_detached_then_read_returns_detached() {
    let mut repo = make_repo();
    let id = fake_id(0x33);
    repo.set_head_detached(&id).unwrap();
    match repo.read_head().unwrap() {
        HeadState::Detached(read) => assert_eq!(read, id),
        other => panic!("expected detached HEAD, got {other:?}"),
    }
}

#[test]
fn read_head_returns_not_found_when_missing() {
    let mut repo = make_repo();
    repo.git_mut().remove_file(b"HEAD").unwrap();
    assert!(matches!(repo.read_head(), Err(RefError::RefNotFound(_))));
}

#[test]
fn read_head_returns_invalid_content_when_empty() {
    let mut repo = make_repo();
    repo.git_mut().write(b"HEAD", Vec::new()).unwrap();
    assert!(matches!(
        repo.read_head(),
        Err(RefError::InvalidRefContent(_))
    ));
}

#[test]
fn set_head_symbolic_writes_ref_line() {
    let mut repo = make_repo();
    repo.set_head_symbolic("refs/heads/feature").unwrap();
    let head = repo.git().read(b"HEAD").unwrap();
    assert_eq!(head, b"ref: refs/heads/feature\n");
}

#[test]
fn set_head_symbolic_rejects_non_refs_target() {
    let mut repo = make_repo();
    assert!(matches!(
        repo.set_head_symbolic("not-refs/foo"),
        Err(RefError::InvalidRefName(_))
    ));
}

// ---------------------------------------------------------------------
// read_ref behavior
// ---------------------------------------------------------------------

#[test]
fn read_ref_prefers_loose_over_packed() {
    let first = make_repo();
    let packed = "\
aaaaaaaaaaaaaaaaaaaaaaaaaaaaaaaaaaaaaaaa refs/heads/main
";
    let mut repo = reopened(&first, &[("packed-refs", packed)]);
    let loose_id = fake_id(0xbb);
    repo.write_ref("refs/heads/main", &loose_id).unwrap();
    let repo = reopened(&repo, &[]);
    // Loose shadows packed.
    let read = repo.read_ref("refs/heads/main").unwrap();
    assert_eq!(read, loose_id);
}

#[test]
fn read_ref_returns_not_found_for_unknown_ref() {
    let mut repo = make_repo();
    assert!(matches!(
        repo.read_ref("refs/heads/never-was"),
        Err(RefError::RefNotFound(_))
    ));
}

#[test]
fn read_ref_resolves_symbolic_chain() {
    let mut repo = make_repo();
    let target = fake_id(0xee);
    repo.write_ref("refs/heads/main", &target).unwrap();
    // HEAD is already symbolic → refs/heads/main from init.
    let id = repo.read_ref("HEAD").unwrap();
    assert_eq!(id, target);
}

#[test]
fn read_ref_detects_symbolic_loop_at_depth_limit() {
    let mut repo = make_repo();
    // Build a chain HEAD → a → b → c → d → e → f (depth 6, exceeds 5).
    repo.git_mut().write(b"HEAD", b"ref: refs/heads/a\n".to_vec()).unwrap();
    for (from, to) in [
        ("refs/heads/a", "refs/heads/b"),
        ("refs/heads/b", "refs/heads/c"),
        ("refs/heads/c", "refs/heads/d"),
        ("refs/heads/d", "refs/heads/e"),
        ("refs/heads/e", "refs/heads/f"),
        ("refs/heads/f", "refs/heads/g"),
    ] {
        let line = format!("ref: {to}\n").into_bytes();
        repo.git_mut().write(from.as_bytes(), line).unwrap();
    }
    assert!(matches!(
        repo.read_ref("HEAD"),
        Err(RefError::SymRefLoop(5))
    ));
}

#[test]
fn read_ref_propagates_not_found_for_missing_symbolic_target() {
    let mut repo = make_repo();
    // HEAD points at refs/heads/main but main doesn't exist yet.
    let result = repo.read_ref("HEAD");
    assert!(matches!(result, Err(RefError::RefNotFound(name)) if name == "refs/heads/main"));
}

// ---------------------------------------------------------------------
// write_ref behavior
// ---------------------------------------------------------------------

#[test]
fn write_ref_creates_parent_directories() {
    let mut repo = make_repo();
    let id = fake_id(0x10);
    repo.write_ref("refs/heads/deep/nested/branch", &id)
        .unwrap();
    assert!(repo.git().files().has(b"refs/heads/deep/nested/branch"));
    assert!(repo.git().is_dir(b"refs/heads/deep/nested"));
}

#[test]
fn write_ref_overwrites_existing() {
    let mut repo = make_repo();
    let id1 = fake_id(0x01);
    let id2 = fake_id(0x02);
    repo.write_ref("refs/heads/main", &id1).unwrap();
    repo.write_ref("refs/heads/main", &id2).unwrap();
    let read = repo.read_ref("refs/heads/main").unwrap();
    assert_eq!(read, id2);
}

#[test]
fn write_ref_errors_when_parent_is_a_file() {
    let mut repo = make_repo();
    // Create refs/heads/foo as a file.
    repo.write_ref("refs/heads/foo", &fake_id(0xaa)).unwrap();
    // Now try to write refs/heads/foo/bar — parent is a file.
    let result = repo.write_ref("refs/heads/foo/bar", &fake_id(0xbb));
    assert!(matches!(result, Err(RefError::Io(_))));
}

// ---------------------------------------------------------------------
// REFS-DELETE
// ---------------------------------------------------------------------

#[test]
fn delete_ref_removes_loose_file() {
    let mut repo = make_repo();
    repo.write_ref("refs/heads/doomed", &fake_id(0xdd)).unwrap();
    repo.delete_ref("refs/heads/doomed").unwrap();
    assert!(matches!(
        repo.read_ref("refs/heads/doomed"),
        Err(RefError::RefNotFound(_))
    ));
}

#[test]
fn delete_ref_packed_only_errors() {
    let first = make_repo();
    let packed = "cccccccccccccccccccccccccccccccccccccccc refs/heads/packed-only\n";
    let mut repo = reopened(&first, &[("packed-refs", packed)]);
    let result = repo.delete_ref("refs/heads/packed-only");
    assert!(matches!(result, Err(RefError::CannotDeletePackedOnly(_))));
}

#[test]
fn delete_ref_rejects_head() {
    let mut repo = make_repo();
    assert!(matches!(
        repo.delete_ref("HEAD"),
        Err(RefError::CannotDeleteHead)
    ));
    // HEAD file untouched.
    assert!(repo.git().files().has(b"HEAD"));
}

#[test]
fn delete_ref_not_found_for_unknown() {
    let mut repo = make_repo();
    assert!(matches!(
        repo.delete_ref("refs/heads/never-existed"),
        Err(RefError::RefNotFound(_))
    ));
}

// ---------------------------------------------------------------------
// REFS-LIST
// ---------------------------------------------------------------------

#[test]
fn list_refs_returns_sorted_by_name() {
    let mut repo = make_repo();
    repo.write_ref("refs/heads/zeta", &fake_id(0x1)).unwrap();
    repo.write_ref("refs/heads/alpha", &fake_id(0x2)).unwrap();
    repo.write_ref("refs/heads/middle", &fake_id(0x3)).unwrap();
    let refs = repo.list_refs("refs/heads/").unwrap();
    let names: Vec<&str> = refs.iter().map(|(n, _)| n.as_str()).collect();
    assert_eq!(
        names,
        vec!["refs/heads/alpha", "refs/heads/middle", "refs/heads/zeta"]
    );
}

#[test]
fn list_refs_loose_shadows_packed() {
    let first = make_repo();
    let packed = "aaaaaaaaaaaaaaaaaaaaaaaaaaaaaaaaaaaaaaaa refs/heads/shadowed\n";
    let mut repo = reopened(&first, &[("packed-refs", packed)]);
    let loose_id = fake_id(0x99);
    repo.write_ref("refs/heads/shadowed", &loose_id).unwrap();
    let refs = repo.list_refs("refs/heads/").unwrap();
    let found = refs
        .iter()
        .find(|(n, _)| n == "refs/heads/shadowed")
        .unwrap();
    assert_eq!(found.1, loose_id);
}

#[test]
fn list_refs_with_empty_prefix_lists_every_ref() {
    let mut repo = make_repo();
    repo.write_ref("refs/heads/x", &fake_id(0x1)).unwrap();
    repo.write_ref("refs/tags/v1", &fake_id(0x2)).unwrap();
    let refs = repo.list_refs("").unwrap();
    let names: Vec<&str> = refs.iter().map(|(n, _)| n.as_str()).collect();
    assert!(names.contains(&"refs/heads/x"));
    assert!(names.contains(&"refs/tags/v1"));
}
