//! What the commands decide and print.

use rgit::blame::BlameError;
use rgit::bytemap::ByteMap;
use rgit::command::adding::AddError;
use rgit::command::committing::{make_signature, CommitError};
use rgit::command::display::{show_branches, show_object, show_status, show_tags, show_tree, Facet};
use rgit::command::naming::NameError;
use rgit::command::switching::{CheckoutError, Destination};
use rgit::diff::{diff_lines, split_lines, unified_diff, DiffError, LineChange};
use rgit::dir::Dir;
use rgit::files::IoError;
use rgit::gitignore::{glob_match, GitignoreSet};
use rgit::index::{Index, IndexEntry, IndexError, Time};
use rgit::merge::{MergeError, MergeResult};
use rgit::object::{Blob, Commit, EntryMode, Object, ObjectId, ObjectKind, Tag, Tree, TreeEntry};
use rgit::odb::{OdbError, Repository};
use rgit::refs::{HeadState, RefError};
use rgit::workdir::switching::SwitchError;
use rgit::workdir::{WorkdirChange, WorkdirError};
use rgit::worktree::{Behind, FileKind, WorkFile};

const NOW: Time = Time { secs: 77, nanos: 5 };

fn make_repo() -> Repository {
    Repository::init("demo", false, Dir::new(), Dir::new(), &ByteMap::new()).unwrap()
}

fn bare_repo() -> Repository {
    Repository::init("demo", true, Dir::new(), Dir::new(), &ByteMap::new()).unwrap()
}

fn put(repo: &mut Repository, path: &str, kind: FileKind, data: &str) {
    let file = WorkFile {
        kind,
        data: data.as_bytes().to_vec(),
        behind: Behind::Nothing,
        ctime: Time { secs: 1, nanos: 2 },
        mtime: Time { secs: 3, nanos: 4 },
    };
    repo.work_mut().write(path.as_bytes(), file).unwrap();
}

fn regular(repo: &mut Repository, path: &str, data: &str) {
    put(repo, path, FileKind::Regular, data);
}

fn commit(repo: &mut Repository, message: &str) -> ObjectId {
    repo.commit_index(message, "Ann", "ann@e.com", 1_700_000_000).unwrap()
}

fn write_commit(repo: &mut Repository, tree: ObjectId, parents: Vec<ObjectId>) -> ObjectId {
    repo.write_object(&Object::Commit(Commit {
        tree,
        parents,
        author: make_signature("t", "t@e.com", 5),
        committer: make_signature("c", "c@e.com", 6),
        extra_headers: vec![],
        message: b"one\r\n\ntwo".to_vec(),
    }))
    .unwrap()
}

fn staged_paths(repo: &Repository) -> Vec<String> {
    let index = repo.read_index().unwrap();
    index.entries().iter().map(|e| String::from_utf8_lossy(&e.path).into_owned()).collect()
}

// ---------------------------------------------------------------------
// Staging and committing
// ---------------------------------------------------------------------

#[test]
fn add_stages_what_is_not_ignored() {
    let mut repo = make_repo();
    regular(&mut repo, ".gitignore", "*.log\nbuild/\n");
    regular(&mut repo, "a.txt", "a");
    regular(&mut repo, "debug.log", "x");
    regular(&mut repo, "build/out", "x");
    regular(&mut repo, "src/main.rs", "fn");
    regular(&mut repo, "src/.git/config", "x");
    put(&mut repo, "run.sh", FileKind::Executable, "#!");
    put(&mut repo, "link", FileKind::Symlink, "a.txt");
    repo.add(&[b"".to_vec()]).unwrap();
    assert_eq!(staged_paths(&repo), vec![".gitignore", "a.txt", "run.sh", "src/main.rs"]);
    let index = repo.read_index().unwrap();
    let modes: Vec<u32> = index.entries().iter().map(|e| e.mode).collect();
    assert_eq!(modes, vec![0o100644, 0o100644, 0o100755, 0o100644]);
    let a = index.lookup(b"a.txt").unwrap();
    assert_eq!(a.id, ObjectId::compute(ObjectKind::Blob, b"a"));
    assert_eq!((a.size, a.ctime, a.mtime), (1, Time { secs: 1, nanos: 2 }, Time { secs: 3, nanos: 4 }));
    assert_eq!(repo.read_object_raw(&a.id).unwrap(), (ObjectKind::Blob, b"a".to_vec()));
}

#[test]
fn add_of_a_directory_stages_what_is_below_it() {
    let mut repo = make_repo();
    regular(&mut repo, "src/a", "1");
    regular(&mut repo, "src/deep/b", "2");
    regular(&mut repo, "srcx", "3");
    repo.add(&[b"src".to_vec()]).unwrap();
    assert_eq!(staged_paths(&repo), vec!["src/a", "src/deep/b"]);
}

#[test]
fn add_errors_name_what_is_wrong() {
    let mut repo = make_repo();
    assert_eq!(repo.add(&[b"none".to_vec()]), Err(AddError::Io(IoError::NotFound)));
    assert!(!repo.git().files().has(b"index"));
    assert_eq!(bare_repo().add(&[]), Err(AddError::NoWorkTree));
    let mut repo = make_repo();
    repo.git_mut().write(b"index", b"junk".to_vec()).unwrap();
    assert_eq!(repo.add(&[]), Err(AddError::Index(IndexError::BadHeader)));
    let mut repo = make_repo();
    regular(&mut repo, "f", "f");
    let dir = format!("objects/{}", &ObjectId::compute(ObjectKind::Blob, b"f").to_hex()[..2]);
    repo.git_mut().write(dir.as_bytes(), b"a file".to_vec()).unwrap();
    assert_eq!(
        repo.add(&[b"f".to_vec()]),
        Err(AddError::Odb(OdbError::Io(IoError::AlreadyExists))),
    );
}

#[test]
fn commit_records_the_index_and_moves_the_branch() {
    let mut repo = make_repo();
    regular(&mut repo, "f.txt", "hello\n");
    repo.add(&[b"f.txt".to_vec()]).unwrap();
    let first = commit(&mut repo, "first");
    assert_eq!(repo.read_ref("HEAD").unwrap(), first);
    assert_eq!(repo.read_head().unwrap(), HeadState::Symbolic("refs/heads/main".to_string()));
    let second = commit(&mut repo, "second\n");
    let Object::Commit(c) = repo.read_object(&second).unwrap() else {
        panic!("expected commit")
    };
    assert_eq!(c.parents, vec![first]);
    assert_eq!(c.message, b"second\n");
    assert_eq!(c.author.raw, b"Ann <ann@e.com> 1700000000 +0000");
    assert_eq!(repo.tree_paths(&c.tree, true).unwrap().count(), 1);
    assert!(repo.status().unwrap().changes.is_empty());
}

#[test]
fn signatures_have_their_text() {
    let s = make_signature("Ann B", "a@b", -3);
    assert_eq!(s.raw, b"Ann B <a@b> -3 +0000");
    assert_eq!((s.timestamp, s.timezone), (Some(-3), Some(b"+0000".to_vec())));
    assert_eq!(make_signature("", "", i64::MIN).raw, b" <> -9223372036854775808 +0000");
}

#[test]
fn commit_errors_name_what_is_wrong() {
    let mut repo = make_repo();
    let mut try_commit = |repo: &mut Repository| repo.commit_index("m", "n", "e", 0).unwrap_err();
    assert_eq!(try_commit(&mut repo), CommitError::NothingToCommit);
    repo.git_mut().write(b"index", b"junk".to_vec()).unwrap();
    assert_eq!(try_commit(&mut repo), CommitError::Index(IndexError::BadHeader));
    let mut repo = make_repo();
    regular(&mut repo, "f", "f");
    repo.add(&[b"f".to_vec()]).unwrap();
    repo.git_mut().remove_file(b"HEAD").unwrap();
    assert_eq!(
        try_commit(&mut repo),
        CommitError::Refs(RefError::RefNotFound("HEAD".to_string())),
    );
}

// ---------------------------------------------------------------------
// Names and switching
// ---------------------------------------------------------------------

#[test]
fn names_are_branches_then_tags_then_ids() {
    let mut repo = make_repo();
    let blob = repo.write_object(&Object::Blob(Blob::new(b"hello\n".to_vec()))).unwrap();
    repo.write_ref("refs/tags/x", &blob).unwrap();
    assert_eq!(repo.resolve_ref_or_id("x").unwrap(), blob);
    assert_eq!(repo.resolve_ref_or_id("refs/tags/x").unwrap(), blob);
    assert_eq!(repo.resolve_ref_or_id("ce0136").unwrap(), blob);
    let tree = repo.write_object(&Object::Tree(Tree::default())).unwrap();
    repo.write_ref("refs/heads/x", &tree).unwrap();
    assert_eq!(repo.resolve_ref_or_id("x").unwrap(), tree);
    repo.write_ref("refs/remotes/o/m", &tree).unwrap();
    assert_eq!(repo.resolve_to_tree("o/m").unwrap(), tree);
    assert_eq!(repo.resolve_to_tree("ce0136"), Err(NameError::NotATree));
    assert_eq!(
        repo.resolve_ref_or_id("HEAD"),
        Err(NameError::Ref(RefError::RefNotFound("refs/heads/main".to_string()))),
    );
    assert_eq!(
        repo.resolve_ref_or_id("nothing"),
        Err(NameError::Id(OdbError::InvalidPrefix("nothing".to_string()))),
    );
    let made = write_commit(&mut repo, blob, vec![]);
    assert_eq!(repo.tree_at(&made), Err(NameError::BadCommitTree));
    let gone = ObjectId::from_bytes([9; 20]);
    assert_eq!(repo.tree_at(&gone), Err(NameError::Odb(OdbError::ObjectNotFound(gone))));
}

#[test]
fn checkout_switches_tree_index_and_head() {
    let mut repo = make_repo();
    regular(&mut repo, "f", "one");
    regular(&mut repo, "gone", "later");
    repo.add(&[b"".to_vec()]).unwrap();
    let first = commit(&mut repo, "first");
    repo.write_ref("refs/heads/old", &first).unwrap();
    regular(&mut repo, "f", "two");
    repo.add(&[b"f".to_vec()]).unwrap();
    let mut index = repo.read_index().unwrap();
    index.remove(b"gone");
    repo.write_index(&index).unwrap();
    let second = commit(&mut repo, "second");
    assert_eq!(
        repo.checkout_target("old", NOW),
        Ok(Destination::Branch("refs/heads/old".to_string())),
    );
    assert_eq!(repo.work().read(b"f").unwrap().data, b"one");
    assert!(repo.status().unwrap().changes.is_empty());
    assert_eq!(repo.checkout_target(&second.to_hex(), NOW), Ok(Destination::Commit(second)));
    assert_eq!(repo.read_head().unwrap(), HeadState::Detached(second));
    assert_eq!(repo.work().read(b"gone").map(|_| ()), Err(IoError::NotFound));
    assert!(repo.status().unwrap().changes.is_empty());
}

#[test]
fn checkout_errors_name_what_is_wrong() {
    let mut repo = make_repo();
    let blob = repo.write_object(&Object::Blob(Blob::new(b"x".to_vec()))).unwrap();
    assert_eq!(
        repo.checkout_object("x", &blob, NOW),
        Err(CheckoutError::Name(NameError::NotATree)),
    );
    let gone = ObjectId::from_bytes([9; 20]);
    let entries = vec![TreeEntry { mode: EntryMode::Regular, name: b"f".to_vec(), id: gone }];
    let tree = repo.write_object(&Object::Tree(Tree { entries })).unwrap();
    assert_eq!(
        repo.checkout_object("t", &tree, NOW),
        Err(CheckoutError::Switch(SwitchError::Workdir(WorkdirError::Odb(
            OdbError::ObjectNotFound(gone),
        )))),
    );
    repo.git_mut().write(b"index", b"junk".to_vec()).unwrap();
    assert_eq!(
        repo.checkout_object("t", &tree, NOW),
        Err(CheckoutError::Switch(SwitchError::Index(IndexError::BadHeader))),
    );
    assert_eq!(repo.read_head().unwrap(), HeadState::Symbolic("refs/heads/main".to_string()));
}

#[test]
fn tree_entries_of_the_wrong_kind_stop_a_checkout() {
    let mut repo = make_repo();
    let empty = repo.write_object(&Object::Tree(Tree::default())).unwrap();
    let entries = vec![TreeEntry { mode: EntryMode::Regular, name: b"f".to_vec(), id: empty }];
    let tree = repo.write_object(&Object::Tree(Tree { entries })).unwrap();
    assert_eq!(
        repo.checkout(&tree, NOW).map(|_| ()).unwrap_err(),
        WorkdirError::UnexpectedKind(ObjectKind::Tree),
    );
    regular(&mut repo, "d", "file");
    let entries = vec![TreeEntry { mode: EntryMode::Tree, name: b"d".to_vec(), id: empty }];
    let tree = repo.write_object(&Object::Tree(Tree { entries })).unwrap();
    assert!(matches!(repo.checkout(&tree, NOW), Err(WorkdirError::Io(_))));
    let made = repo.checkout(&empty, NOW).unwrap();
    assert_eq!(made.entries().len(), 0);
}

#[test]
fn trees_of_an_index_list_its_paths() {
    let mut repo = make_repo();
    let mut index = Index::new();
    let blob = repo.write_object(&Object::Blob(Blob::new(b"x".to_vec()))).unwrap();
    for (path, stage) in [("a/b/c", 0), ("a/d", 0), ("e", 0), ("f", 1)] {
        index.upsert(IndexEntry {
            ctime: NOW,
            mtime: NOW,
            dev: 0,
            ino: 0,
            mode: 0o100644,
            uid: 0,
            gid: 0,
            size: 1,
            id: blob,
            assume_valid: false,
            stage,
            path: path.as_bytes().to_vec(),
        });
    }
    let tree = repo.build_tree_from_index(&index).unwrap();
    let listed = repo.tree_paths(&tree, true).unwrap();
    let paths: Vec<&[u8]> = (0..listed.count()).map(|i| listed.key(i).as_slice()).collect();
    assert_eq!(paths, vec![b"a/b/c".as_slice(), b"a/d", b"e"]);
    assert!((0..3).all(|i| *listed.value(i) == blob));
}

#[test]
fn checkout_then_build_gives_the_tree_again() {
    let mut repo = make_repo();
    regular(&mut repo, "a/b/c", "1");
    put(&mut repo, "a/run", FileKind::Executable, "2");
    put(&mut repo, "a.link", FileKind::Symlink, "a/run");
    repo.add(&[b"".to_vec()]).unwrap();
    let index = repo.read_index().unwrap();
    let tree = repo.build_tree_from_index(&index).unwrap();
    let staged = repo.checkout(&tree, NOW).unwrap();
    assert_eq!(repo.build_tree_from_index(&staged).unwrap(), tree);
}

#[test]
fn making_a_repository_twice_changes_nothing() {
    let mut git: Dir<Vec<u8>> = Dir::new();
    git.write(b"description", b"mine".to_vec()).unwrap();
    let first = Repository::init("demo", false, git, Dir::new(), &ByteMap::new()).unwrap();
    assert_eq!(first.git().read(b"description").unwrap(), b"mine");
    let mut again: Dir<Vec<u8>> = Dir::new();
    for i in 0..first.git().dirs().count() {
        again.make_dirs(first.git().dirs().key(i)).unwrap();
    }
    for i in 0..first.git().files().count() {
        let files = first.git().files();
        again.write(files.key(i), files.value(i).clone()).unwrap();
    }
    let second = Repository::init("demo", false, again, Dir::new(), &ByteMap::new()).unwrap();
    assert_eq!(second.git().files().count(), first.git().files().count());
    assert_eq!(second.git().dirs().count(), first.git().dirs().count());
}

// ---------------------------------------------------------------------
// Merges
// ---------------------------------------------------------------------

#[test]
fn merges_follow_history_or_change_nothing() {
    let mut repo = make_repo();
    regular(&mut repo, "f", "one");
    repo.add(&[b"f".to_vec()]).unwrap();
    let first = commit(&mut repo, "first");
    regular(&mut repo, "f", "two");
    repo.add(&[b"f".to_vec()]).unwrap();
    let second = commit(&mut repo, "second");
    repo.checkout_object("first", &first, NOW).unwrap();
    assert_eq!(
        repo.merge_fast_forward(&second, NOW).unwrap(),
        MergeResult::FastForwarded { from: first, to: second },
    );
    assert_eq!(repo.read_ref("HEAD").unwrap(), second);
    assert_eq!(repo.work().read(b"f").unwrap().data, b"two");
    assert!(repo.is_ancestor(&first, &second).unwrap());
    assert!(!repo.is_ancestor(&second, &first).unwrap());
    let blob = ObjectId::compute(ObjectKind::Blob, b"two");
    assert_eq!(repo.merge_fast_forward(&blob, NOW), Err(MergeError::NonFastForward));
    assert_eq!(repo.merge_fast_forward(&first, NOW), Err(MergeError::NonFastForward));
    let gone = ObjectId::from_bytes([9; 20]);
    assert_eq!(
        repo.merge_fast_forward(&gone, NOW),
        Err(MergeError::Odb(OdbError::ObjectNotFound(gone))),
    );
    assert_eq!(repo.read_ref("HEAD").unwrap(), second);
    assert!(matches!(make_repo().merge_fast_forward(&gone, NOW), Err(MergeError::Refs(_))));
}

// ---------------------------------------------------------------------
// Output
// ---------------------------------------------------------------------

#[test]
fn trees_are_listed_with_mode_kind_and_id() {
    let id = ObjectId::from_bytes([0xab; 20]);
    let entry = |mode: EntryMode, name: &[u8]| TreeEntry { mode, name: name.to_vec(), id };
    let tree = Tree {
        entries: vec![
            entry(EntryMode::Tree, b"d"),
            entry(EntryMode::Gitlink, b"m"),
            entry(EntryMode::Executable, b"\xff"),
        ],
    };
    let hex = "ab".repeat(20);
    let expected = format!(
        "040000 tree {hex}\td\n160000 commit {hex}\tm\n100755 blob {hex}\t\u{fffd}\n"
    );
    assert_eq!(String::from_utf8(show_tree(&tree)).unwrap(), expected);
}

#[test]
fn objects_are_shown_by_kind() {
    let mut repo = make_repo();
    let tree = repo.write_object(&Object::Tree(Tree::default())).unwrap();
    let made = write_commit(&mut repo, tree, vec![]);
    let object = repo.read_object(&made).unwrap();
    assert_eq!(
        String::from_utf8(show_object(&made, &object)).unwrap(),
        format!(
            "commit {}\nAuthor: t <t@e.com> 5 +0000\nCommitter: c <c@e.com> 6 +0000\n\n    one\n    \n    two\n",
            made.to_hex(),
        ),
    );
    let tag = Object::Tag(Tag {
        object: made,
        object_kind: ObjectKind::Commit,
        name: b"v1".to_vec(),
        tagger: make_signature("t", "t@e.com", 7),
        extra_headers: Vec::new(),
        message: b"notes".to_vec(),
    });
    assert_eq!(
        String::from_utf8(show_object(&tag.id(), &tag)).unwrap(),
        format!(
            "tag {}\nTagger: t <t@e.com> 7 +0000\nTarget: {} (commit)\n\nnotes",
            tag.id().to_hex(),
            made.to_hex(),
        ),
    );
    let blob = Object::Blob(Blob::new(b"raw".to_vec()));
    assert_eq!(show_object(&blob.id(), &blob), b"raw");
}

#[test]
fn log_follows_first_parents_up_to_the_limit() {
    let mut repo = make_repo();
    let tree = repo.write_object(&Object::Tree(Tree::default())).unwrap();
    let first = write_commit(&mut repo, tree, vec![]);
    let second = write_commit(&mut repo, tree, vec![first]);
    let entry = |id: &ObjectId| {
        format!(
            "commit {}\nAuthor: t <t@e.com> 5 +0000\n\n    one\n    \n    two\n\n",
            id.to_hex(),
        )
    };
    let (text, failure) = repo.log_from(&second, 20);
    assert_eq!(String::from_utf8(text).unwrap(), entry(&second) + &entry(&first));
    assert!(failure.is_none());
    assert_eq!(repo.log_from(&second, 1).0, entry(&second).into_bytes());
    let gone = ObjectId::from_bytes([9; 20]);
    let orphan = write_commit(&mut repo, tree, vec![gone]);
    let (text, failure) = repo.log_from(&orphan, 20);
    assert_eq!(text, entry(&orphan).into_bytes());
    assert_eq!(failure, Some(OdbError::ObjectNotFound(gone)));
}

#[test]
fn stored_objects_are_printed_by_facet() {
    let mut repo = make_repo();
    let blob = repo.write_object(&Object::Blob(Blob::new(b"hello\n".to_vec()))).unwrap();
    assert_eq!(repo.show_facet(&blob, Facet::Kind).unwrap(), b"blob\n");
    assert_eq!(repo.show_facet(&blob, Facet::Size).unwrap(), b"6\n");
    assert_eq!(repo.show_facet(&blob, Facet::Contents).unwrap(), b"hello\n");
    let entries = vec![TreeEntry { mode: EntryMode::Regular, name: b"f".to_vec(), id: blob }];
    let tree = repo.write_object(&Object::Tree(Tree { entries })).unwrap();
    assert_eq!(
        repo.show_facet(&tree, Facet::Contents).unwrap(),
        format!("100644 blob {}\tf\n", blob.to_hex()).into_bytes(),
    );
    let gone = ObjectId::from_bytes([9; 20]);
    assert_eq!(repo.show_facet(&gone, Facet::Kind), Err(OdbError::ObjectNotFound(gone)));
}

#[test]
fn status_shows_changes_that_are_not_ignored() {
    let mut rules = GitignoreSet::new();
    rules.add_rules("*.o\n");
    let changes = vec![
        WorkdirChange::Staged(b"a".to_vec()),
        WorkdirChange::Modified(b"m.o".to_vec()),
        WorkdirChange::Deleted(b"d".to_vec()),
        WorkdirChange::Untracked(b"u".to_vec()),
        WorkdirChange::Untracked(b"u.o".to_vec()),
    ];
    assert_eq!(
        show_status(&changes, &rules),
        b"staged:    a\nmodified:  m.o\ndeleted:   d\nuntracked: u\n",
    );
    assert_eq!(show_status(&changes[4..], &rules), b"nothing to commit, working tree clean\n");
}

#[test]
fn refs_are_listed_by_short_name() {
    let id = ObjectId::zero();
    let refs = vec![("refs/heads/a".to_string(), id), ("refs/heads/b/c".to_string(), id)];
    assert_eq!(show_branches(&refs, &Some("refs/heads/b/c".to_string())), b"  a\n* b/c\n");
    assert_eq!(show_branches(&refs, &None), b"  a\n  b/c\n");
    assert_eq!(show_tags(&[("refs/tags/v1".to_string(), id)]), b"v1\n");
}

// ---------------------------------------------------------------------
// Diffs and blame
// ---------------------------------------------------------------------

#[test]
fn unified_diff_has_its_exact_text() {
    let a: String = (1..=20).map(|i| format!("{i}\n")).collect();
    let b = a.replace("10\n", "ten\n");
    assert_eq!(
        unified_diff(a.as_bytes(), "a/f", b.as_bytes(), "b/f", 2),
        "--- a/f\n+++ b/f\n@@ -8,5 +8,5 @@\n 8\n 9\n-10\n+ten\n 11\n 12\n",
    );
}

#[test]
fn diff_keeps_a_longest_common_part() {
    let (a, b) = (split_lines(b"a\nb\nc\nd\n"), split_lines(b"b\nx\nd\n"));
    let script = diff_lines(&a, &b);
    let same = script.iter().filter(|c| matches!(c, LineChange::Same(_))).count();
    assert_eq!(same, 2);
    let old: Vec<&[u8]> = script
        .iter()
        .filter_map(|c| match c {
            LineChange::Same(l) | LineChange::Removed(l) => Some(*l),
            LineChange::Added(_) => None,
        })
        .collect();
    assert_eq!(old, a);
}

#[test]
fn repository_diffs_show_each_changed_file() {
    let mut repo = make_repo();
    regular(&mut repo, "f", "one\n");
    repo.add(&[b"f".to_vec()]).unwrap();
    let first = commit(&mut repo, "first");
    assert_eq!(repo.diff_index_vs_head().unwrap(), "");
    assert_eq!(repo.diff_working_vs_index().unwrap(), "");
    regular(&mut repo, "f", "two\n");
    let text =
        "diff --git a/f b/f\n--- a/f\n+++ b/f\n@@ -1,1 +1,1 @@\n-one\n+two\n".to_string();
    assert_eq!(repo.diff_working_vs_index().unwrap(), text);
    repo.add(&[b"f".to_vec()]).unwrap();
    assert_eq!(repo.diff_index_vs_head().unwrap(), text);
    let second = commit(&mut repo, "second");
    let a = repo.resolve_to_tree(&first.to_hex()).unwrap();
    let b = repo.resolve_to_tree(&second.to_hex()).unwrap();
    assert_eq!(repo.diff_trees(&a, &b).unwrap(), text);
    assert_eq!(repo.diff_trees(&a, &a).unwrap(), "");
    let gone = ObjectId::from_bytes([9; 20]);
    assert_eq!(
        repo.diff_trees(&a, &gone),
        Err(DiffError::Odb(OdbError::ObjectNotFound(gone))),
    );
    assert!(matches!(make_repo().diff_index_vs_head(), Err(DiffError::Refs(_))));
    assert_eq!(bare_repo().diff_working_vs_index(), Err(DiffError::NoWorkTree));
}

#[test]
fn blame_follows_files_in_directories() {
    let mut repo = make_repo();
    regular(&mut repo, "src/f", "a\nb\n");
    repo.add(&[b"src".to_vec()]).unwrap();
    let first = commit(&mut repo, "first");
    regular(&mut repo, "src/f", "x\na\nb\n");
    repo.add(&[b"src".to_vec()]).unwrap();
    let second = commit(&mut repo, "second");
    let lines = repo.blame("src/f", &second).unwrap();
    let origins: Vec<ObjectId> = lines.iter().map(|l| l.commit).collect();
    assert_eq!(origins, vec![second, first, first]);
    assert_eq!(
        repo.blame("src", &second).map(|_| ()).unwrap_err(),
        BlameError::FileNotFound("src".to_string()),
    );
    let gone = ObjectId::from_bytes([9; 20]);
    assert_eq!(
        repo.blame("src/f", &gone).map(|_| ()).unwrap_err(),
        BlameError::Odb(OdbError::ObjectNotFound(gone)),
    );
}

#[test]
fn status_errors_name_what_is_wrong() {
    assert_eq!(bare_repo().status().map(|_| ()).unwrap_err(), WorkdirError::NoWorkTree);
    let mut repo = make_repo();
    repo.git_mut().write(b"HEAD", b"junk".to_vec()).unwrap();
    assert_eq!(
        repo.status().map(|_| ()).unwrap_err(),
        WorkdirError::Refs(RefError::InvalidRefContent("HEAD".to_string())),
    );
    let mut repo = make_repo();
    repo.git_mut().write(b"index", b"junk".to_vec()).unwrap();
    assert_eq!(
        repo.status().map(|_| ()).unwrap_err(),
        WorkdirError::Index(IndexError::BadHeader),
    );
}

// ---------------------------------------------------------------------
// Ignore rules
// ---------------------------------------------------------------------

#[test]
fn globs_match_as_their_parts_say() {
    assert!(glob_match(b"a*c", b"abbc"));
    assert!(!glob_match(b"a*c", b"ab/c"));
    assert!(glob_match(b"a?c", b"abc"));
    assert!(!glob_match(b"a?c", b"a/c"));
    assert!(glob_match(b"a/**/b", b"a/x/y/b"));
    assert!(glob_match(b"**", b"any/thing"));
    assert!(!glob_match(b"abc", b"abcd"));
}

#[test]
fn ignore_files_of_directories_apply_below_them() {
    let mut repo = make_repo();
    regular(&mut repo, "src/.gitignore", "*.tmp\n!keep.tmp\n");
    regular(&mut repo, "x", "");
    repo.git_mut().write(b"info/exclude", b"secret\n".to_vec()).unwrap();
    let rules = GitignoreSet::load(repo.work(), repo.git()).unwrap();
    assert!(rules.is_ignored(b"src/a.tmp", false));
    assert!(!rules.is_ignored(b"a.tmp", false));
    assert!(!rules.is_ignored(b"src/keep.tmp", false));
    assert!(rules.is_ignored(b"deep/secret", false));
    let mut bad = make_repo();
    bad.git_mut().write(b"info/exclude", vec![0xff]).unwrap();
    assert_eq!(
        GitignoreSet::load(bad.work(), bad.git()).map(|_| ()).unwrap_err(),
        IoError::InvalidData,
    );
}

#[test]
fn status_shows_what_was_removed_from_the_index() {
    let mut repo = make_repo();
    regular(&mut repo, "a", "1");
    regular(&mut repo, "b", "2");
    regular(&mut repo, "d/c", "3");
    repo.add(&[Vec::new()]).unwrap();
    commit(&mut repo, "all");
    assert_eq!(repo.status().unwrap().changes, vec![]);

    // Staged as removed, and gone from the working tree too.
    let full = repo.read_index().unwrap();
    let mut index = Index::new();
    for e in full.entries() {
        if e.path != b"b" && e.path != b"d/c" {
            index.upsert(e.clone());
        }
    }
    repo.write_index(&index).unwrap();
    repo.work_mut().remove_file(b"d/c").unwrap();
    assert_eq!(
        repo.status().unwrap().changes,
        vec![
            WorkdirChange::Staged(b"b".to_vec()),
            WorkdirChange::Staged(b"d/c".to_vec()),
            WorkdirChange::Untracked(b"b".to_vec()),
        ],
    );
    repo.write_index(&full).unwrap();
    assert_eq!(repo.status().unwrap().changes, vec![WorkdirChange::Deleted(b"d/c".to_vec())]);
}

#[test]
fn names_that_are_no_text_are_staged_as_text() {
    let mut repo = make_repo();
    let file = WorkFile {
        kind: FileKind::Regular,
        data: b"x".to_vec(),
        behind: Behind::Nothing,
        ctime: NOW,
        mtime: NOW,
    };
    repo.work_mut().write(b"n\xff", file).unwrap();
    repo.add(&[b"n\xff".to_vec()]).unwrap();
    let index = repo.read_index().unwrap();
    assert_eq!(index.entries()[0].path, "n\u{fffd}".as_bytes());
}

#[test]
fn nested_trees_are_built_again_after_a_checkout() {
    let mut repo = make_repo();
    regular(&mut repo, "a", "1");
    regular(&mut repo, "d/b", "2");
    regular(&mut repo, "d/e/f", "3");
    put(&mut repo, "d.x", FileKind::Executable, "4");
    repo.add(&[Vec::new()]).unwrap();
    let mut index = repo.read_index().unwrap();
    let mut link = index.entries()[0].clone();
    link.path = b"d/l".to_vec();
    link.mode = 0o120000;
    index.upsert(link);
    let tree = repo.build_tree_from_index(&index).unwrap();
    let again = repo.checkout(&tree, NOW).unwrap();
    assert_eq!(repo.build_tree_from_index(&again), Ok(tree));
}
