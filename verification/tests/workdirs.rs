//! The working tree.

use rgit::bytemap::ByteMap;
use rgit::dir::Dir;
use rgit::index::{Index, IndexEntry, Time};
use rgit::object::{Blob, Commit, EntryMode, Object, ObjectId, Signature, Tree, TreeEntry};
use rgit::odb::Repository;
use rgit::workdir::{WorkdirChange, WorkdirError};
use rgit::worktree::{Behind, FileKind, WorkFile};

fn make_repo() -> Repository {
    Repository::init("demo", false, Dir::new(), Dir::new(), &ByteMap::new()).unwrap()
}

fn put_file(repo: &mut Repository, path: &[u8], data: &[u8]) {
    let file = WorkFile {
        kind: FileKind::Regular,
        data: data.to_vec(),
        behind: Behind::Nothing,
        ctime: Time::default(),
        mtime: Time::default(),
    };
    repo.work_mut().write(path, file).unwrap();
}

fn write_blob_and_tree(repo: &mut Repository, entries: &[(EntryMode, &[u8], &[u8])]) -> ObjectId {
    let mut tree_entries = Vec::new();
    for (mode, name, data) in entries {
        let blob_id = repo
            .write_object(&Object::Blob(Blob::new(data.to_vec())))
            .unwrap();
        tree_entries.push(TreeEntry {
            mode: *mode,
            name: name.to_vec(),
            id: blob_id,
        });
    }
    let tree = Tree {
        entries: tree_entries,
    };
    repo.write_object(&Object::Tree(tree)).unwrap()
}

// ---------------------------------------------------------------------
// CHECKOUT
// ---------------------------------------------------------------------

#[test]
fn checkout_writes_blob_to_working_tree() {
    let mut repo = make_repo();
    let tree_id = write_blob_and_tree(&mut repo, &[(EntryMode::Regular, b"hello.txt", b"hello world")]);
    let _index = repo.checkout(&tree_id, Time::default()).unwrap();
    let written = &repo.work().read(b"hello.txt").unwrap().data;
    assert_eq!(written, b"hello world");
}

#[test]
fn checkout_errors_for_bare_repo() {
    let mut repo =
        Repository::init("demo", true, Dir::new(), Dir::new(), &ByteMap::new()).unwrap();
    let tree_id = write_blob_and_tree(&mut repo, &[(EntryMode::Regular, b"x", b"x")]);
    assert!(matches!(
        repo.checkout(&tree_id, Time::default()),
        Err(WorkdirError::NoWorkTree)
    ));
}

#[test]
fn checkout_sets_executable_permission() {
    let mut repo = make_repo();
    let tree_id = write_blob_and_tree(
        &mut repo,
        &[(EntryMode::Executable, b"run.sh", b"#!/bin/sh\necho hi\n")],
    );
    repo.checkout(&tree_id, Time::default()).unwrap();
    assert_eq!(repo.work().read(b"run.sh").unwrap().kind, FileKind::Executable);
}

#[test]
fn checkout_sets_regular_permission() {
    let mut repo = make_repo();
    let tree_id = write_blob_and_tree(&mut repo, &[(EntryMode::Regular, b"plain.txt", b"hello")]);
    repo.checkout(&tree_id, Time::default()).unwrap();
    assert_eq!(repo.work().read(b"plain.txt").unwrap().kind, FileKind::Regular);
}

#[test]
fn checkout_creates_symlink_with_target() {
    let mut repo = make_repo();
    let tree_id = write_blob_and_tree(&mut repo, &[(EntryMode::Symlink, b"link", b"target.txt")]);
    repo.checkout(&tree_id, Time::default()).unwrap();
    let link = repo.work().read(b"link").unwrap();
    assert_eq!(link.kind, FileKind::Symlink);
    assert_eq!(link.data, b"target.txt");
}

#[test]
fn checkout_gitlink_creates_empty_dir_without_recursion() {
    let mut repo = make_repo();
    // Gitlink "id" is just an arbitrary sha; we don't write a sub-repo.
    let mut sub_sha = [0u8; 20];
    sub_sha.fill(0x99);
    let tree = Tree {
        entries: vec![TreeEntry {
            mode: EntryMode::Gitlink,
            name: b"submod".to_vec(),
            id: ObjectId::from_bytes(sub_sha),
        }],
    };
    let tree_id = repo.write_object(&Object::Tree(tree)).unwrap();
    repo.checkout(&tree_id, Time::default()).unwrap();
    assert!(repo.work().is_dir(b"submod"));
    assert_eq!(repo.work().files().count(), 0);
}

#[test]
fn checkout_returns_populated_index() {
    let mut repo = make_repo();
    let tree_id = write_blob_and_tree(
        &mut repo,
        &[
            (EntryMode::Regular, b"a.txt", b"a"),
            (EntryMode::Regular, b"b.txt", b"bb"),
        ],
    );
    let index = repo.checkout(&tree_id, Time::default()).unwrap();
    assert_eq!(index.entries().len(), 2);
    assert!(index.lookup(b"a.txt").is_some());
    assert!(index.lookup(b"b.txt").is_some());
}

#[test]
fn checkout_nested_tree() {
    let mut repo = make_repo();
    // Build inner tree.
    let inner_id = write_blob_and_tree(&mut repo, &[(EntryMode::Regular, b"deep.txt", b"inside")]);
    // Outer tree references inner.
    let outer = Tree {
        entries: vec![TreeEntry {
            mode: EntryMode::Tree,
            name: b"subdir".to_vec(),
            id: inner_id,
        }],
    };
    let outer_id = repo.write_object(&Object::Tree(outer)).unwrap();
    repo.checkout(&outer_id, Time::default()).unwrap();
    let content = &repo.work().read(b"subdir/deep.txt").unwrap().data;
    assert_eq!(content, b"inside");
}

// ---------------------------------------------------------------------
// STATUS
// ---------------------------------------------------------------------

#[test]
fn status_reports_untracked_files() {
    let mut repo = make_repo();
    put_file(&mut repo, b"new.txt", b"untracked");
    let status = repo.status().unwrap();
    assert!(status
        .changes
        .iter()
        .any(|c| matches!(c, WorkdirChange::Untracked(p) if p == b"new.txt")));
}

#[test]
fn status_reports_deleted_files() {
    let mut repo = make_repo();
    let tree_id = write_blob_and_tree(&mut repo, &[(EntryMode::Regular, b"will-delete.txt", b"hi")]);
    let index = repo.checkout(&tree_id, Time::default()).unwrap();
    repo.write_index(&index).unwrap();
    repo.work_mut().remove_file(b"will-delete.txt").unwrap();
    let status = repo.status().unwrap();
    assert!(status.changes.iter().any(|c| matches!(
        c,
        WorkdirChange::Deleted(p) if p == b"will-delete.txt"
    )));
}

#[test]
fn status_reports_modified_files() {
    let mut repo = make_repo();
    let tree_id = write_blob_and_tree(&mut repo, &[(EntryMode::Regular, b"mod.txt", b"original")]);
    let index = repo.checkout(&tree_id, Time::default()).unwrap();
    repo.write_index(&index).unwrap();
    put_file(&mut repo, b"mod.txt", b"changed bytes");
    let status = repo.status().unwrap();
    assert!(status
        .changes
        .iter()
        .any(|c| matches!(c, WorkdirChange::Modified(p) if p == b"mod.txt")));
}

#[test]
fn status_skips_git_directory() {
    let mut repo = make_repo();
    // Touch a file in .git/objects — should never show up in status.
    put_file(&mut repo, b".git/objects/marker", b"x");
    let status = repo.status().unwrap();
    for c in &status.changes {
        if let WorkdirChange::Untracked(p) = c {
            assert!(!p.starts_with(b".git/"), "leaked .git path: {p:?}");
        }
    }
}

// ---------------------------------------------------------------------
// BUILD TREE FROM INDEX
// ---------------------------------------------------------------------

#[test]
fn build_tree_from_index_round_trips_via_checkout() {
    let mut repo = make_repo();
    let original_tree_id = write_blob_and_tree(
        &mut repo,
        &[
            (EntryMode::Regular, b"a.txt", b"a"),
            (EntryMode::Regular, b"b.txt", b"bb"),
        ],
    );
    let index = repo.checkout(&original_tree_id, Time::default()).unwrap();
    let rebuilt_tree_id = repo.build_tree_from_index(&index).unwrap();
    assert_eq!(rebuilt_tree_id, original_tree_id);
}

#[test]
fn build_tree_from_index_handles_nested_paths() {
    let mut repo = make_repo();
    // Build an index with a nested path.
    let blob_id = repo
        .write_object(&Object::Blob(Blob::new(b"deep".to_vec())))
        .unwrap();
    let mut index = Index::new();
    index.upsert(IndexEntry {
        ctime: Time::default(),
        mtime: Time::default(),
        dev: 0,
        ino: 0,
        mode: 0o100644,
        uid: 0,
        gid: 0,
        size: 4,
        id: blob_id,
        assume_valid: false,
        stage: 0,
        path: b"dir/sub/file.txt".to_vec(),
    });
    let root_tree_id = repo.build_tree_from_index(&index).unwrap();
    // Read root, expect entry "dir" → tree.
    let Object::Tree(root) = repo.read_object(&root_tree_id).unwrap() else {
        panic!("expected tree");
    };
    assert_eq!(root.entries.len(), 1);
    assert_eq!(root.entries[0].name, b"dir");
    assert_eq!(root.entries[0].mode, EntryMode::Tree);
    // Recurse: "dir" tree has "sub" → tree.
    let Object::Tree(dir) = repo.read_object(&root.entries[0].id).unwrap() else {
        panic!("expected tree");
    };
    assert_eq!(dir.entries[0].name, b"sub");
    let Object::Tree(sub) = repo.read_object(&dir.entries[0].id).unwrap() else {
        panic!("expected tree");
    };
    assert_eq!(sub.entries[0].name, b"file.txt");
    assert_eq!(sub.entries[0].id, blob_id);
}

#[test]
fn build_tree_encodes_regular_mode() {
    let mut repo = make_repo();
    let blob_id = repo
        .write_object(&Object::Blob(Blob::new(b"x".to_vec())))
        .unwrap();
    let mut index = Index::new();
    index.upsert(IndexEntry {
        ctime: Time::default(),
        mtime: Time::default(),
        dev: 0,
        ino: 0,
        mode: 0o100644,
        uid: 0,
        gid: 0,
        size: 1,
        id: blob_id,
        assume_valid: false,
        stage: 0,
        path: b"plain.txt".to_vec(),
    });
    let tree_id = repo.build_tree_from_index(&index).unwrap();
    let Object::Tree(tree) = repo.read_object(&tree_id).unwrap() else {
        panic!("expected tree");
    };
    assert_eq!(tree.entries[0].mode, EntryMode::Regular);
}

#[test]
fn build_tree_encodes_executable_mode() {
    let mut repo = make_repo();
    let blob_id = repo
        .write_object(&Object::Blob(Blob::new(b"#!\n".to_vec())))
        .unwrap();
    let mut index = Index::new();
    index.upsert(IndexEntry {
        ctime: Time::default(),
        mtime: Time::default(),
        dev: 0,
        ino: 0,
        mode: 0o100755,
        uid: 0,
        gid: 0,
        size: 3,
        id: blob_id,
        assume_valid: false,
        stage: 0,
        path: b"run.sh".to_vec(),
    });
    let tree_id = repo.build_tree_from_index(&index).unwrap();
    let Object::Tree(tree) = repo.read_object(&tree_id).unwrap() else {
        panic!("expected tree");
    };
    assert_eq!(tree.entries[0].mode, EntryMode::Executable);
}

#[test]
fn build_tree_encodes_symlink_mode() {
    let mut repo = make_repo();
    let blob_id = repo
        .write_object(&Object::Blob(Blob::new(b"target".to_vec())))
        .unwrap();
    let mut index = Index::new();
    index.upsert(IndexEntry {
        ctime: Time::default(),
        mtime: Time::default(),
        dev: 0,
        ino: 0,
        mode: 0o120000,
        uid: 0,
        gid: 0,
        size: 6,
        id: blob_id,
        assume_valid: false,
        stage: 0,
        path: b"link".to_vec(),
    });
    let tree_id = repo.build_tree_from_index(&index).unwrap();
    let Object::Tree(tree) = repo.read_object(&tree_id).unwrap() else {
        panic!("expected tree");
    };
    assert_eq!(tree.entries[0].mode, EntryMode::Symlink);
}

// ---------------------------------------------------------------------
// Cross-cutting: end-to-end commit-like flow exercising checkout +
// build_tree_from_index + commit writing.
// ---------------------------------------------------------------------

#[test]
fn commit_then_status_clean() {
    let mut repo = make_repo();
    // Write a blob + tree.
    let blob_id = repo
        .write_object(&Object::Blob(Blob::new(b"hello".to_vec())))
        .unwrap();
    let tree = Tree {
        entries: vec![TreeEntry {
            mode: EntryMode::Regular,
            name: b"f.txt".to_vec(),
            id: blob_id,
        }],
    };
    let tree_id = repo.write_object(&Object::Tree(tree)).unwrap();
    // Write a commit referencing the tree.
    let raw_sig = b"Tester <t@e.com> 1700000000 +0000".to_vec();
    let commit = Commit {
        tree: tree_id,
        parents: vec![],
        author: Signature {
            raw: raw_sig.clone(),
            name: Some(b"Tester".to_vec()),
            email: Some(b"t@e.com".to_vec()),
            timestamp: Some(1_700_000_000),
            timezone: Some(b"+0000".to_vec()),
        },
        committer: Signature {
            raw: raw_sig,
            name: Some(b"Tester".to_vec()),
            email: Some(b"t@e.com".to_vec()),
            timestamp: Some(1_700_000_000),
            timezone: Some(b"+0000".to_vec()),
        },
        extra_headers: vec![],
        message: b"initial\n".to_vec(),
    };
    let commit_id = repo.write_object(&Object::Commit(commit)).unwrap();
    repo.write_ref("refs/heads/main", &commit_id).unwrap();
    let index = repo.checkout(&tree_id, Time::default()).unwrap();
    repo.write_index(&index).unwrap();
    let status = repo.status().unwrap();
    assert!(
        status.changes.is_empty(),
        "expected clean status, got {:?}",
        status.changes
    );
}
