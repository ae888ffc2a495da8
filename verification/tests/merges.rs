//! Fast-forward merges.

use rgit::bytemap::ByteMap;
use rgit::dir::Dir;
use rgit::index::Time;
use rgit::merge::{MergeError, MergeResult};
use rgit::object::{Blob, Commit, EntryMode, Object, ObjectId, Signature, Tree, TreeEntry};
use rgit::odb::Repository;

fn make_repo() -> Repository {
    Repository::init("demo", false, Dir::new(), Dir::new(), &ByteMap::new()).unwrap()
}

fn write_commit(
    repo: &mut Repository,
    tree: ObjectId,
    parents: Vec<ObjectId>,
    msg: &[u8],
) -> ObjectId {
    let sig = Signature {
        raw: b"t <t@e.com> 1700000000 +0000".to_vec(),
        name: Some(b"t".to_vec()),
        email: Some(b"t@e.com".to_vec()),
        timestamp: Some(1_700_000_000),
        timezone: Some(b"+0000".to_vec()),
    };
    repo.write_object(&Object::Commit(Commit {
        tree,
        parents,
        author: sig.clone(),
        committer: sig,
        extra_headers: vec![],
        message: msg.to_vec(),
    }))
    .unwrap()
}

fn write_tree_with_blob(repo: &mut Repository, name: &[u8], content: &[u8]) -> ObjectId {
    let blob_id = repo
        .write_object(&Object::Blob(Blob::new(content.to_vec())))
        .unwrap();
    let tree = Tree {
        entries: vec![TreeEntry {
            mode: EntryMode::Regular,
            name: name.to_vec(),
            id: blob_id,
        }],
    };
    repo.write_object(&Object::Tree(tree)).unwrap()
}

#[test]
fn fast_forward_advances_head_to_descendant() {
    let mut repo = make_repo();
    let tree_a = write_tree_with_blob(&mut repo, b"f.txt", b"a");
    let c1 = write_commit(&mut repo, tree_a, vec![], b"a\n");
    let tree_b = write_tree_with_blob(&mut repo, b"f.txt", b"b");
    let c2 = write_commit(&mut repo, tree_b, vec![c1], b"b\n");
    repo.write_ref("refs/heads/main", &c1).unwrap();
    // HEAD points at main → c1; target is c2 (descendant).
    let result = repo.merge_fast_forward(&c2, Time::default()).unwrap();
    match result {
        MergeResult::FastForwarded { from, to } => {
            assert_eq!(from, c1);
            assert_eq!(to, c2);
        }
        other => panic!("expected FastForwarded, got {other:?}"),
    }
    // Branch ref now points at c2.
    assert_eq!(repo.read_ref("refs/heads/main").unwrap(), c2);
}

#[test]
fn up_to_date_when_target_equals_head() {
    let mut repo = make_repo();
    let tree = write_tree_with_blob(&mut repo, b"f.txt", b"x");
    let c1 = write_commit(&mut repo, tree, vec![], b"only\n");
    repo.write_ref("refs/heads/main", &c1).unwrap();
    assert_eq!(repo.merge_fast_forward(&c1, Time::default()).unwrap(), MergeResult::UpToDate);
}

#[test]
fn non_fast_forward_rejected_for_divergent_history() {
    let mut repo = make_repo();
    let tree_root = write_tree_with_blob(&mut repo, b"f.txt", b"root");
    let c1 = write_commit(&mut repo, tree_root, vec![], b"root\n");
    // Diverge: c2a and c2b both have c1 as parent (siblings, not ancestor/descendant).
    let tree_a = write_tree_with_blob(&mut repo, b"f.txt", b"a");
    let c2a = write_commit(&mut repo, tree_a, vec![c1], b"branch a\n");
    let tree_b = write_tree_with_blob(&mut repo, b"f.txt", b"b");
    let c2b = write_commit(&mut repo, tree_b, vec![c1], b"branch b\n");
    repo.write_ref("refs/heads/main", &c2a).unwrap();
    let err = repo.merge_fast_forward(&c2b, Time::default()).unwrap_err();
    assert!(matches!(err, MergeError::NonFastForward));
    // Branch ref is unchanged.
    assert_eq!(repo.read_ref("refs/heads/main").unwrap(), c2a);
}

#[test]
fn non_fast_forward_rejected_when_target_is_ancestor() {
    // HEAD is at c2; target is c1 (HEAD's parent). This is "rewinding,"
    // not fast-forwarding. Currently we reject as non-FF (matches what
    // git does without `--force`).
    let mut repo = make_repo();
    let tree_root = write_tree_with_blob(&mut repo, b"f.txt", b"root");
    let c1 = write_commit(&mut repo, tree_root, vec![], b"root\n");
    let tree_2 = write_tree_with_blob(&mut repo, b"f.txt", b"second");
    let c2 = write_commit(&mut repo, tree_2, vec![c1], b"second\n");
    repo.write_ref("refs/heads/main", &c2).unwrap();
    let err = repo.merge_fast_forward(&c1, Time::default()).unwrap_err();
    assert!(matches!(err, MergeError::NonFastForward));
}
