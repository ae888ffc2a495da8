//! Links in the working tree, and names that are no names.

use rgit::bytemap::ByteMap;
use rgit::command::adding::AddError;
use rgit::dir::Dir;
use rgit::files::IoError;
use rgit::gitignore::GitignoreSet;
use rgit::index::Time;
use rgit::object::{Blob, EntryMode, Object, ObjectId, ObjectKind, Tree, TreeEntry};
use rgit::odb::Repository;
use rgit::pack::PackWriter;
use rgit::workdir::{WorkdirChange, WorkdirError};
use rgit::worktree::places::read_work_file;
use rgit::worktree::{Behind, FileKind, WorkFile};

const NOW: Time = Time { secs: 7, nanos: 8 };

fn make_repo() -> Repository {
    Repository::init("demo", false, Dir::new(), Dir::new(), &ByteMap::new()).unwrap()
}

fn put_file(repo: &mut Repository, path: &str, kind: FileKind, data: &str, behind: Behind) {
    let file = WorkFile { kind, data: data.as_bytes().to_vec(), behind, ctime: NOW, mtime: NOW };
    repo.work_mut().write(path.as_bytes(), file).unwrap();
}

fn regular(repo: &mut Repository, path: &str, data: &str) {
    put_file(repo, path, FileKind::Regular, data, Behind::Nothing);
}

fn link(repo: &mut Repository, path: &str, target: &str) {
    put_file(repo, path, FileKind::Symlink, target, Behind::Nothing);
}

fn write_blob(repo: &mut Repository, data: &str) -> ObjectId {
    repo.write_object(&Object::Blob(Blob::new(data.as_bytes().to_vec()))).unwrap()
}

fn write_tree(repo: &mut Repository, entries: &[(EntryMode, &str, ObjectId)]) -> ObjectId {
    let entries = entries
        .iter()
        .map(|(mode, name, id)| TreeEntry { mode: *mode, name: name.as_bytes().to_vec(), id: *id })
        .collect();
    repo.write_object(&Object::Tree(Tree { entries })).unwrap()
}

/// The tree with one file or link.
fn tree_with(repo: &mut Repository, mode: EntryMode, name: &str, data: &str) -> ObjectId {
    let blob = write_blob(repo, data);
    write_tree(repo, &[(mode, name, blob)])
}

/// The tree with one subtree.
fn tree_around(repo: &mut Repository, name: &str, inner: ObjectId) -> ObjectId {
    write_tree(repo, &[(EntryMode::Tree, name, inner)])
}

fn kind_and_data(repo: &Repository, path: &str) -> (FileKind, String) {
    let file = repo.work().read(path.as_bytes()).unwrap();
    (file.kind, String::from_utf8(file.data.clone()).unwrap())
}

fn staged(repo: &Repository) -> Vec<String> {
    let index = repo.read_index().unwrap();
    index.entries().iter().map(|e| String::from_utf8(e.path.clone()).unwrap()).collect()
}

#[test]
fn files_are_written_through_links() {
    let mut repo = make_repo();
    regular(&mut repo, "y", "old");
    link(&mut repo, "x", "y");
    let tree = tree_with(&mut repo, EntryMode::Executable, "x", "new");
    let index = repo.checkout(&tree, NOW).unwrap();
    assert_eq!(kind_and_data(&repo, "x"), (FileKind::Symlink, "y".to_string()));
    assert_eq!(kind_and_data(&repo, "y"), (FileKind::Executable, "new".to_string()));
    assert_eq!(index.entries()[0].path, b"x");
    assert_eq!(index.entries()[0].mode, 0o100755);
}

#[test]
fn dangling_links_are_followed_where_a_file_can_be() {
    let mut repo = make_repo();
    link(&mut repo, "x", "fresh");
    let tree = tree_with(&mut repo, EntryMode::Regular, "x", "new");
    repo.checkout(&tree, NOW).unwrap();
    assert_eq!(kind_and_data(&repo, "fresh"), (FileKind::Regular, "new".to_string()));

    let mut repo = make_repo();
    link(&mut repo, "x", "none/fresh");
    let tree = tree_with(&mut repo, EntryMode::Regular, "x", "new");
    assert_eq!(repo.checkout(&tree, NOW).unwrap_err(), WorkdirError::Io(IoError::NotFound));

    let mut repo = make_repo();
    link(&mut repo, "x", "z");
    link(&mut repo, "z", "x");
    let tree = tree_with(&mut repo, EntryMode::Regular, "x", "new");
    assert_eq!(repo.checkout(&tree, NOW).unwrap_err(), WorkdirError::Io(IoError::TooManyLinks));
}

#[test]
fn directories_are_reached_through_links() {
    let mut repo = make_repo();
    regular(&mut repo, "e/other", "o");
    link(&mut repo, "d", "e");
    let inner = tree_with(&mut repo, EntryMode::Regular, "f", "text");
    let tree = tree_around(&mut repo, "d", inner);
    let index = repo.checkout(&tree, NOW).unwrap();
    assert_eq!(kind_and_data(&repo, "d"), (FileKind::Symlink, "e".to_string()));
    assert_eq!(kind_and_data(&repo, "e/f"), (FileKind::Regular, "text".to_string()));
    assert_eq!(index.entries()[0].path, b"d/f");

    // The file is found where it was written.
    repo.write_index(&index).unwrap();
    let changes = repo.status().unwrap().changes;
    assert_eq!(changes[0], WorkdirChange::Staged(b"d/f".to_vec()));
    assert!(!changes.contains(&WorkdirChange::Deleted(b"d/f".to_vec())));
    assert!(changes.contains(&WorkdirChange::Untracked(b"e/f".to_vec())));
    assert_eq!(repo.diff_working_vs_index().unwrap(), "");

    // It is deleted there, too, when it is not staged any more.
    let empty = write_tree(&mut repo, &[]);
    repo.switch_work_tree(&empty, NOW).unwrap();
    assert!(repo.work().read(b"e/f").is_err());
    assert_eq!(kind_and_data(&repo, "e/other").1, "o");
}

#[test]
fn what_is_no_directory_stops_a_subtree() {
    let inner_name = "f";
    for (path, target) in [("d", Some("plain")), ("d", Some("nowhere")), ("d", None)] {
        let mut repo = make_repo();
        regular(&mut repo, "plain", "p");
        match target {
            Some(t) => link(&mut repo, path, t),
            None => regular(&mut repo, path, "p"),
        }
        let inner = tree_with(&mut repo, EntryMode::Regular, inner_name, "text");
        let tree = tree_around(&mut repo, "d", inner);
        assert_eq!(
            repo.checkout(&tree, NOW).unwrap_err(),
            WorkdirError::Io(IoError::AlreadyExists),
        );
    }
}

#[test]
fn links_replace_files_and_links_but_no_directories() {
    let mut repo = make_repo();
    regular(&mut repo, "t", "text");
    link(&mut repo, "x", "t");
    let tree = tree_with(&mut repo, EntryMode::Symlink, "x", "u");
    repo.checkout(&tree, NOW).unwrap();
    assert_eq!(kind_and_data(&repo, "x"), (FileKind::Symlink, "u".to_string()));
    assert_eq!(kind_and_data(&repo, "t").1, "text");

    let mut repo = make_repo();
    regular(&mut repo, "x/inside", "text");
    let tree = tree_with(&mut repo, EntryMode::Symlink, "x", "u");
    assert_eq!(repo.checkout(&tree, NOW).unwrap_err(), WorkdirError::Io(IoError::AlreadyExists));
}

#[test]
fn what_is_behind_links_out_of_the_tree_is_kept() {
    let mut repo = make_repo();
    put_file(&mut repo, "x", FileKind::Symlink, "../out", Behind::File(b"o".to_vec()));
    assert_eq!(read_work_file(repo.work(), b"x").unwrap(), b"o");
    let tree = tree_with(&mut repo, EntryMode::Regular, "x", "new");
    repo.checkout(&tree, NOW).unwrap();
    assert_eq!(kind_and_data(&repo, "x"), (FileKind::Symlink, "../out".to_string()));
    assert_eq!(read_work_file(repo.work(), b"x").unwrap(), b"new");
    // The same link, checked out again, leads to the same file.
    let tree = tree_with(&mut repo, EntryMode::Symlink, "x", "../out");
    repo.checkout(&tree, NOW).unwrap();
    assert_eq!(read_work_file(repo.work(), b"x").unwrap(), b"new");

    let mut repo = make_repo();
    put_file(&mut repo, "d", FileKind::Symlink, "/etc", Behind::Directory);
    assert_eq!(read_work_file(repo.work(), b"d").unwrap_err(), IoError::IsADirectory);
    let inner = tree_with(&mut repo, EntryMode::Regular, "f", "text");
    let tree = tree_around(&mut repo, "d", inner);
    assert_eq!(repo.checkout(&tree, NOW).unwrap_err(), WorkdirError::Io(IoError::Outside));
}

#[test]
fn links_that_were_checked_out_can_be_read_through() {
    let mut repo = make_repo();
    let text = write_blob(&mut repo, "*.log\n");
    let target = write_blob(&mut repo, "rules");
    let tree = write_tree(
        &mut repo,
        &[(EntryMode::Symlink, ".gitignore", target), (EntryMode::Regular, "rules", text)],
    );
    let index = repo.checkout(&tree, NOW).unwrap();
    repo.write_index(&index).unwrap();
    let rules = GitignoreSet::load(repo.work(), repo.git()).unwrap();
    assert!(rules.is_ignored(b"a.log", false));
    // A diff shows what is read through the link.
    assert_eq!(
        repo.diff_working_vs_index().unwrap(),
        "diff --git a/.gitignore b/.gitignore\n--- a/.gitignore\n+++ b/.gitignore\n\
         @@ -1,1 +1,1 @@\n-rules\n\\ No newline at end of file\n+*.log\n",
    );
}

#[test]
fn names_that_stand_for_directories_are_no_files() {
    for name in [".", "..", ".git"] {
        let mut repo = make_repo();
        let tree = tree_with(&mut repo, EntryMode::Regular, name, "text");
        assert_eq!(repo.checkout(&tree, NOW).unwrap_err(), WorkdirError::Io(IoError::IsADirectory));
        let tree = tree_with(&mut repo, EntryMode::Symlink, name, "text");
        assert_eq!(
            repo.checkout(&tree, NOW).unwrap_err(),
            WorkdirError::Io(IoError::AlreadyExists),
        );
        let outer = tree_around(&mut repo, "d", tree);
        let plain = name == ".git";
        assert_eq!(repo.checkout(&outer, NOW).is_ok(), plain);
    }
    let mut repo = make_repo();
    let file = tree_with(&mut repo, EntryMode::Regular, "f", "text");
    let up = tree_around(&mut repo, "..", file);
    let tree = tree_around(&mut repo, "d", up);
    let index = repo.checkout(&tree, NOW).unwrap();
    assert_eq!(kind_and_data(&repo, "f").1, "text");
    assert_eq!(index.entries()[0].path, b"d/../f");
    let here = tree_around(&mut repo, ".", file);
    assert!(repo.checkout(&here, NOW).is_ok());
    assert_eq!(repo.checkout(&up, NOW).unwrap_err(), WorkdirError::Io(IoError::Outside));
}

#[test]
fn links_are_staged_as_what_they_lead_to() {
    let mut repo = make_repo();
    regular(&mut repo, "a", "1");
    regular(&mut repo, "e/b", "2");
    regular(&mut repo, "top/deep/c", "3");
    link(&mut repo, "d/to_a", "../a");
    link(&mut repo, "d/to_e", "../e");
    repo.add(&[b"d".to_vec()]).unwrap();
    assert_eq!(staged(&repo), vec!["a", "e/b"]);
    let index = repo.read_index().unwrap();
    assert!(index.entries().iter().all(|e| e.mode == 0o100644));
    assert_eq!(index.lookup(b"a").unwrap().id, ObjectId::compute(ObjectKind::Blob, b"1"));

    regular(&mut repo, ".gitignore", "hidden/\n");
    regular(&mut repo, "hidden/x", "4");
    link(&mut repo, "d/to_hidden", "../hidden/x");
    repo.add(&[b"d".to_vec()]).unwrap();
    assert_eq!(staged(&repo), vec!["a", "e/b"]);
}

#[test]
fn links_that_cannot_be_followed_are_not_staged() {
    let mut repo = make_repo();
    link(&mut repo, "d/l", "none");
    assert_eq!(repo.add(&[b"d".to_vec()]), Err(AddError::Io(IoError::NotFound)));
    let mut repo = make_repo();
    put_file(&mut repo, "d/l", FileKind::Symlink, "/etc/x", Behind::File(b"x".to_vec()));
    assert_eq!(repo.add(&[b"d".to_vec()]), Err(AddError::Outside(b"d/l".to_vec())));
    let mut repo = make_repo();
    put_file(&mut repo, "d/l", FileKind::Symlink, "/etc/x", Behind::Nothing);
    assert_eq!(repo.add(&[b"d".to_vec()]), Err(AddError::Io(IoError::NotFound)));
    assert_eq!(repo.add(&[b"..".to_vec()]), Err(AddError::Outside(b"..".to_vec())));
    let mut repo = make_repo();
    link(&mut repo, "d/l", "l");
    assert_eq!(repo.add(&[b"d".to_vec()]), Err(AddError::Io(IoError::TooManyLinks)));
    let mut repo = make_repo();
    link(&mut repo, "d/l", "../d");
    assert_eq!(repo.add(&[b"d".to_vec()]), Err(AddError::Endless));
}

#[test]
fn trees_in_a_pack_are_built_again_after_a_checkout() {
    let blob = Object::Blob(Blob::new(b"text".to_vec()));
    let entry = |mode, name: &str, id| TreeEntry { mode, name: name.as_bytes().to_vec(), id };
    let inner = Object::Tree(Tree { entries: vec![entry(EntryMode::Regular, "f", blob.id())] });
    let outer = Object::Tree(Tree {
        entries: vec![
            entry(EntryMode::Tree, "a", inner.id()),
            entry(EntryMode::Tree, "b", inner.id()),
            entry(EntryMode::Executable, "run", blob.id()),
        ],
    });
    let mut writer = PackWriter::new();
    for object in [&blob, &inner, &outer] {
        let frame = object.serialize();
        let start = frame.iter().position(|b| *b == 0).unwrap() + 1;
        writer.add(object.kind(), &frame[start..]);
    }
    let mut git: Dir<Vec<u8>> = Dir::new();
    git.write(b"objects/pack/pack-x.pack", writer.finish().unwrap().0).unwrap();
    git.make_dirs(b"refs").unwrap();
    git.write(b"HEAD", b"ref: refs/heads/main\n".to_vec()).unwrap();
    let work = Some("demo".to_string());
    let mut repo =
        Repository::open("demo/.git".to_string(), work, git, Dir::new(), &ByteMap::new()).unwrap();
    let index = repo.checkout(&outer.id(), NOW).unwrap();
    assert_eq!(repo.build_tree_from_index(&index), Ok(outer.id()));
    assert!(repo.git().files().has(&rgit::odb::loose_file(&inner.id())));
}
