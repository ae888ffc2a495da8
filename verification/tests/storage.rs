//! What is stored is read back, and what is broken is told.

use rgit::bytemap::ByteMap;
use rgit::dir::Dir;
use rgit::files::{Files, IoError};
use rgit::idset::IdSet;
use rgit::index::format::{parse_index, serialize_index};
use rgit::index::{Index, IndexEntry, IndexError, Time};
use rgit::object::{Blob, Commit, EntryMode, Object, ObjectId, ObjectKind, ParseError, Signature};
use rgit::object::{Tag, Tree, TreeEntry};
use rgit::odb::setup::{discover_packs, is_valid_git_dir, locate, Candidate, GitDirFacts};
use rgit::odb::{loose_file, OdbError, Repository};
use rgit::pack::{PackError, PackWriter};
use rgit::refs::{HeadState, RefError};
use sha1::Digest;

fn make_repo() -> Repository {
    Repository::init("demo", false, Dir::new(), Dir::new(), &ByteMap::new()).unwrap()
}

fn id(byte: u8) -> ObjectId {
    ObjectId::from_bytes([byte; 20])
}

fn signature() -> Signature {
    Signature {
        raw: b"A U Thor <a@e.com> 12 +0100".to_vec(),
        name: Some(b"A U Thor".to_vec()),
        email: Some(b"a@e.com".to_vec()),
        timestamp: Some(12),
        timezone: Some(b"+0100".to_vec()),
    }
}

fn entry(path: &[u8], stage: u8) -> IndexEntry {
    IndexEntry {
        ctime: Time { secs: 1, nanos: 2 },
        mtime: Time { secs: 3, nanos: 4 },
        dev: 5,
        ino: 6,
        mode: 0o100755,
        uid: 7,
        gid: 8,
        size: 9,
        id: id(0xab),
        assume_valid: true,
        stage,
        path: path.to_vec(),
    }
}

// ---------------------------------------------------------------------
// Objects
// ---------------------------------------------------------------------

#[test]
fn objects_of_every_kind_are_read_back() {
    let mut repo = make_repo();
    let commit = Commit {
        tree: id(1),
        parents: vec![id(2), id(3)],
        author: signature(),
        committer: signature(),
        extra_headers: vec![(b"gpgsig".to_vec(), b"line\n more".to_vec())],
        message: b"subject\n\nbody".to_vec(),
    };
    let tag = Tag {
        object: id(4),
        object_kind: ObjectKind::Commit,
        name: b"v1".to_vec(),
        tagger: signature(),
        extra_headers: Vec::new(),
        message: b"".to_vec(),
    };
    let objects = [
        Object::Blob(Blob::new(b"\0\xff".to_vec())),
        Object::Commit(commit),
        Object::Tag(tag),
    ];
    for o in &objects {
        let stored = repo.write_object(o).unwrap();
        assert_eq!(&repo.read_object(&stored).unwrap(), o);
        assert_eq!(repo.read_object_raw(&stored).unwrap(), (o.kind(), o.payload()));
        assert!(repo.contains(&stored));
        // Storing again changes nothing.
        let files = repo.git().files().count();
        assert_eq!(repo.write_object(o).unwrap(), stored);
        assert_eq!(repo.git().files().count(), files);
    }
}

#[test]
fn trees_are_read_back_in_canonical_order() {
    let mut repo = make_repo();
    let file = |name: &[u8], mode: EntryMode, byte: u8| TreeEntry {
        mode,
        name: name.to_vec(),
        id: id(byte),
    };
    let tree = Tree {
        entries: vec![
            file(b"b", EntryMode::Tree, 1),
            file(b"b.c", EntryMode::Regular, 2),
            file(b"a", EntryMode::Symlink, 3),
            file(b"a", EntryMode::Regular, 4),
        ],
    };
    let stored = repo.write_object(&Object::Tree(tree)).unwrap();
    let Object::Tree(read) = repo.read_object(&stored).unwrap() else {
        panic!("expected tree")
    };
    let names: Vec<&[u8]> = read.entries.iter().map(|e| e.name.as_slice()).collect();
    assert_eq!(names, vec![b"a".as_slice(), b"b.c", b"b"]);
    assert_eq!(read.entries[0].mode, EntryMode::Symlink);
    assert_eq!(Object::Tree(read).id(), stored);
}

#[test]
fn storing_one_object_leaves_others_alone() {
    let mut repo = make_repo();
    let first = repo.write_object(&Object::Blob(Blob::new(b"first".to_vec()))).unwrap();
    let before = repo.git().read(&loose_file(&first)).unwrap().clone();
    repo.write_object(&Object::Blob(Blob::new(b"second".to_vec()))).unwrap();
    assert_eq!(repo.git().read(&loose_file(&first)).unwrap(), &before);
}

#[test]
fn parse_errors_name_what_is_wrong() {
    let tree = |p: &[u8]| Object::parse_payload(ObjectKind::Tree, p).unwrap_err();
    assert_eq!(tree(b"100644"), ParseError::InvalidTreeEntry);
    assert_eq!(tree(b"100600 a\0"), ParseError::InvalidMode(b"100600".to_vec()));
    assert_eq!(tree(b"100644 a"), ParseError::InvalidTreeEntry);
    assert_eq!(tree(b"100644 a\0short"), ParseError::Truncated);
    assert_eq!(
        Object::parse_loose(b"tree 3\0abc").unwrap_err(),
        ParseError::InvalidTreeEntry,
    );
    assert_eq!(Object::parse_loose(b"x 0\0").unwrap_err(), ParseError::UnknownKind(b"x".to_vec()));
    let commit = |p: &[u8]| Object::parse_payload(ObjectKind::Commit, p).unwrap_err();
    assert_eq!(commit(b"tree x\n\n"), ParseError::InvalidHex);
    assert_eq!(commit(b"tree\n\n"), ParseError::MissingHeader("header value separator"));
    assert_eq!(commit(b"tree x\n"), ParseError::MissingHeader("blank line"));
}

#[test]
fn hex_notation_round_trips() {
    let all: [u8; 20] = std::array::from_fn(|i| (i * 13) as u8);
    let one = ObjectId::from_bytes(all);
    assert_eq!(one.to_hex(), "000d1a2734414e5b6875828f9ca9b6c3d0ddeaf7");
    assert_eq!(ObjectId::from_hex(&one.to_hex()).unwrap(), one);
}

#[test]
fn id_sets_list_their_ids_in_order() {
    let mut set = IdSet::new();
    assert!(set.is_empty());
    for byte in [3, 1, 2] {
        assert!(set.insert(&id(byte)));
    }
    assert_eq!(set.len(), 3);
    assert_eq!(set.to_vec(), vec![id(1), id(2), id(3)]);
    assert!(!set.insert(&id(2)));
    assert!(set.insert(&id(9)));
}

// ---------------------------------------------------------------------
// Directories in memory
// ---------------------------------------------------------------------

#[test]
fn directories_and_files_do_not_mix() {
    let mut dir: Dir<Vec<u8>> = Dir::new();
    dir.write(b"a/b", b"x".to_vec()).unwrap();
    assert!(dir.is_dir(b"a"));
    assert_eq!(dir.read(b"a"), Err(IoError::IsADirectory));
    assert_eq!(dir.read(b"a/b/c"), Err(IoError::NotADirectory));
    assert_eq!(dir.read(b"a/c"), Err(IoError::NotFound));
    assert_eq!(dir.write(b"a/b/c", vec![]), Err(IoError::AlreadyExists));
    assert_eq!(dir.write(b"a/b/c/d", vec![]), Err(IoError::NotADirectory));
    assert_eq!(dir.write(b"a", vec![]), Err(IoError::IsADirectory));
    assert_eq!(dir.make_dirs(b"a/b"), Err(IoError::AlreadyExists));
    assert_eq!(dir.make_dirs(b"a/b/c"), Err(IoError::NotADirectory));
    assert_eq!(dir.remove_file(b"a/b"), Ok(()));
    assert!(dir.remove_file(b"a/b").is_err());
    assert!(dir.exists_at(b"a"));
}

#[test]
fn byte_maps_are_ordered_by_key() {
    let mut map: ByteMap<u64> = ByteMap::new();
    map.put(b"b", 1);
    map.put(b"a", 2);
    map.put(b"b", 3);
    assert_eq!((map.count(), map.key(0).as_slice(), *map.value(1)), (2, b"a".as_slice(), 3));
    assert!(map.delete(b"a") && !map.delete(b"a"));
    assert_eq!(map.get(b"a"), None);
}

// ---------------------------------------------------------------------
// Repositories
// ---------------------------------------------------------------------

#[test]
fn search_for_a_repository_stops_at_another_device() {
    let none = GitDirFacts { head_is_file: false, objects_is_dir: false, refs_is_dir: false };
    let full = GitDirFacts { head_is_file: true, objects_is_dir: true, refs_is_dir: true };
    let here = Candidate { device: 1, dot_git: none, itself: none };
    let there = Candidate { device: 2, dot_git: full, itself: none };
    assert_eq!(locate(&vec![here, there]), None);
    let both = Candidate { device: 1, dot_git: full, itself: full };
    assert!(!locate(&vec![both]).unwrap().bare);
}

#[test]
fn files_in_the_way_keep_a_repository_from_being_made() {
    let mut git: Dir<Vec<u8>> = Dir::new();
    git.write(b"objects", b"file".to_vec()).unwrap();
    assert!(!is_valid_git_dir(&git));
    let result = Repository::init("demo", false, git, Dir::new(), &ByteMap::new());
    assert!(matches!(result, Err(OdbError::Io(IoError::AlreadyExists))));
}

#[test]
fn packed_refs_that_are_no_text_are_refused() {
    let mut git: Dir<Vec<u8>> = Dir::new();
    git.make_dirs(b"objects").unwrap();
    git.make_dirs(b"refs").unwrap();
    git.write(b"HEAD", b"ref: refs/heads/main\n".to_vec()).unwrap();
    git.write(b"packed-refs", vec![0xff]).unwrap();
    let result =
        Repository::open("g".to_string(), None, git, Dir::new(), &ByteMap::new());
    assert_eq!(
        result.map(|_| ()).unwrap_err(),
        OdbError::Refs(RefError::Io(IoError::InvalidData)),
    );
}

#[test]
fn newer_packs_are_searched_first() {
    let mut git: Dir<Vec<u8>> = Dir::new();
    for name in [b"objects/pack/pack-a.pack".as_slice(), b"objects/pack/pack-b.pack"] {
        let mut writer = PackWriter::new();
        writer.add(ObjectKind::Blob, name);
        git.write(name, writer.finish().unwrap().0).unwrap();
    }
    let mut times: ByteMap<u64> = ByteMap::new();
    times.put(b"objects/pack/pack-b.pack", 9);
    let packs = discover_packs(&mut git, &times).unwrap();
    assert_eq!(packs[0].path(), b"objects/pack/pack-b.pack");
    let packs = discover_packs(&mut git, &ByteMap::new()).unwrap();
    assert_eq!(packs[0].path(), b"objects/pack/pack-a.pack");
}

#[test]
fn import_of_a_missing_or_broken_pack_fails() {
    let mut repo = make_repo();
    let mut incoming = Files::new();
    assert_eq!(
        repo.import_pack(&mut incoming, b"x.pack"),
        Err(OdbError::InvalidPack(PackError::Io(IoError::NotFound))),
    );
    let mut writer = PackWriter::new();
    writer.add(ObjectKind::Blob, b"x");
    let mut bytes = writer.finish().unwrap().0;
    *bytes.last_mut().unwrap() ^= 1;
    incoming.put(b"x.pack", bytes);
    assert_eq!(
        repo.import_pack(&mut incoming, b"x.pack"),
        Err(OdbError::InvalidPack(PackError::BadPackSha)),
    );
}

#[test]
fn prefixes_of_ids_are_resolved_in_either_case() {
    let mut repo = make_repo();
    let stored = repo.write_object(&Object::Blob(Blob::new(b"hello\n".to_vec()))).unwrap();
    assert_eq!(repo.resolve_id("CE01").unwrap(), stored);
    assert_eq!(repo.resolve_id(&stored.to_hex().to_uppercase()).unwrap(), stored);
    assert_eq!(repo.resolve_id("ce02"), Err(OdbError::ObjectNotFound(ObjectId::zero())));
    assert_eq!(repo.resolve_id("ce0"), Err(OdbError::InvalidPrefix("ce0".to_string())));
    let other = ObjectId::from_hex("ce01ffffffffffffffffffffffffffffffffffff").unwrap();
    repo.git_mut().write(&loose_file(&other), vec![]).unwrap();
    assert_eq!(
        repo.resolve_id("ce01"),
        Err(OdbError::AmbiguousId {
            prefix: "ce01".to_string(),
            candidates: vec![stored, other],
        }),
    );
}

#[test]
fn loose_objects_go_before_packed_ones() {
    let mut repo = make_repo();
    let mut incoming = Files::new();
    let mut writer = PackWriter::new();
    writer.add(ObjectKind::Blob, b"both");
    incoming.put(b"x.pack", writer.finish().unwrap().0);
    repo.import_pack(&mut incoming, b"x.pack").unwrap();
    let mut git: Dir<Vec<u8>> = Dir::new();
    git.make_dirs(b"refs").unwrap();
    let files = repo.git().files();
    for i in 0..files.count() {
        git.write(files.key(i), files.value(i).clone()).unwrap();
    }
    let both = ObjectId::compute(ObjectKind::Blob, b"both");
    git.write(&loose_file(&both), b"garbage".to_vec()).unwrap();
    let repo = Repository::open("g".to_string(), None, git, Dir::new(), &ByteMap::new()).unwrap();
    assert!(matches!(repo.read_object(&both), Err(OdbError::CorruptObject { .. })));
}

// ---------------------------------------------------------------------
// Refs
// ---------------------------------------------------------------------

#[test]
fn ref_errors_name_what_is_wrong() {
    let mut repo = make_repo();
    repo.git_mut().write(b"refs/heads/text", b"not an id\n".to_vec()).unwrap();
    repo.git_mut().write(b"refs/heads/bytes", vec![0xff]).unwrap();
    repo.git_mut().write(b"refs/heads/out", b"ref: ../x\n".to_vec()).unwrap();
    let name = |s: &str| s.to_string();
    assert_eq!(
        repo.read_ref("refs/heads/text"),
        Err(RefError::InvalidRefContent(name("refs/heads/text"))),
    );
    assert_eq!(repo.read_ref("refs/heads/bytes"), Err(RefError::Io(IoError::InvalidData)));
    assert_eq!(repo.read_ref("refs/heads/out"), Err(RefError::InvalidRefName(name("../x"))));
    assert_eq!(repo.read_ref("refs/heads"), Err(RefError::Io(IoError::IsADirectory)));
    assert_eq!(repo.read_ref("refs/none"), Err(RefError::RefNotFound(name("refs/none"))));
    assert_eq!(repo.set_head_symbolic("heads/x"), Err(RefError::InvalidRefName(name("heads/x"))));
    assert_eq!(repo.list_refs("refs/"), Err(RefError::Io(IoError::InvalidData)));
}

#[test]
fn head_follows_the_branch_it_is_on() {
    let mut repo = make_repo();
    repo.move_head(&id(1)).unwrap();
    assert_eq!(repo.read_ref("refs/heads/main").unwrap(), id(1));
    assert_eq!(repo.read_ref("HEAD").unwrap(), id(1));
    repo.write_ref("refs/heads/other", &id(2)).unwrap();
    assert_eq!(repo.read_ref("HEAD").unwrap(), id(1));
    repo.set_head_symbolic("refs/heads/other").unwrap();
    assert_eq!(repo.read_head().unwrap(), HeadState::Symbolic("refs/heads/other".to_string()));
    assert_eq!(repo.read_ref("HEAD").unwrap(), id(2));
    repo.set_head_detached(&id(3)).unwrap();
    repo.move_head(&id(4)).unwrap();
    assert_eq!(repo.read_head().unwrap(), HeadState::Detached(id(4)));
    assert_eq!(repo.read_ref("refs/heads/other").unwrap(), id(2));
}

// ---------------------------------------------------------------------
// The index
// ---------------------------------------------------------------------

#[test]
fn index_round_trips_with_all_fields() {
    let mut index = Index::new();
    index.upsert(entry(b"b", 0));
    index.upsert(entry(b"a", 2));
    index.upsert(entry(b"a", 1));
    index.push_extension("TREE".to_string(), vec![1, 2, 3]);
    let bytes = serialize_index(&index);
    let read = parse_index(&bytes).unwrap();
    assert_eq!(read.entries(), index.entries());
    assert_eq!(read.extensions(), index.extensions());
    assert_eq!(serialize_index(&read), bytes);
    // One entry of 62 bytes and a path of one byte takes up 64 bytes.
    assert_eq!(bytes.len(), 12 + 3 * 64 + 8 + 3 + 20);
}

#[test]
fn extension_blocks_are_kept_byte_for_byte() {
    let mut body = b"DIRC\0\0\0\x02\0\0\0\0".to_vec();
    body.extend_from_slice(b"TREE\0\0\0\x02ab\xff\xfe\xfd\xfc\0\0\0\x01c");
    let trailer: [u8; 20] = sha1::Sha1::digest(&body).into();
    body.extend_from_slice(&trailer);
    let index = parse_index(&body).unwrap();
    assert_eq!(index.blocks()[1], (vec![0xff, 0xfe, 0xfd, 0xfc], b"c".to_vec()));
    assert_eq!(index.extensions()[0], ("TREE".to_string(), b"ab".to_vec()));
    assert_eq!(serialize_index(&index), body);
}

#[test]
fn broken_indexes_are_refused() {
    let mut index = Index::new();
    index.upsert(entry(b"file", 0));
    let bytes = serialize_index(&index);
    let with_trailer = |body: &[u8]| {
        let mut out = body.to_vec();
        let trailer: [u8; 20] = sha1::Sha1::digest(body).into();
        out.extend_from_slice(&trailer);
        out
    };
    let body = &bytes[..bytes.len() - 20];
    let error = |b: &[u8]| parse_index(b).unwrap_err();
    assert_eq!(error(b"DIRC"), IndexError::BadHeader);
    assert_eq!(error(&with_trailer(b"CRID\0\0\0\x02\0\0\0\0")), IndexError::BadHeader);
    let mut flipped = bytes.clone();
    flipped[20] ^= 1;
    assert_eq!(error(&flipped), IndexError::BadTrailer);
    assert_eq!(error(&with_trailer(&body[..40])), IndexError::MalformedEntry);
    let mut more = body.to_vec();
    more[11] = 2;
    assert_eq!(error(&with_trailer(&more)), IndexError::MalformedEntry);
}

#[test]
fn staging_keeps_stages_apart() {
    let mut index = Index::new();
    index.upsert(entry(b"f", 1));
    index.upsert(entry(b"f", 3));
    index.upsert(entry(b"g", 0));
    assert!(index.lookup(b"f").is_none());
    assert_eq!(index.entries().len(), 3);
    index.upsert(entry(b"f", 0));
    assert_eq!(index.lookup(b"f").unwrap().stage, 0);
    assert_eq!(index.entries().len(), 2);
    assert_eq!(index.remove(b"none"), 0);
}

#[test]
fn index_that_is_a_directory_cannot_be_read_or_written() {
    let mut repo = make_repo();
    repo.git_mut().make_dirs(b"index").unwrap();
    assert_eq!(
        repo.read_index().map(|_| ()).unwrap_err(),
        IndexError::Io(IoError::IsADirectory),
    );
    assert_eq!(
        repo.write_index(&Index::new()),
        Err(IndexError::Io(IoError::IsADirectory)),
    );
}

#[test]
fn headers_of_tags_are_kept_in_order() {
    let payload = b"object 0101010101010101010101010101010101010101\ntype commit\ntag v1\n\
        tagger T <t@e.com> 1 +0000\nencoding latin1\ntag again\ngpgsig one\n two\n\nmessage\n";
    let mut frame = format!("tag {}\0", payload.len()).into_bytes();
    frame.extend_from_slice(payload);
    let object = Object::parse_loose(&frame).unwrap();
    match &object {
        Object::Tag(t) => {
            assert_eq!(t.name, b"v1");
            assert_eq!(
                t.extra_headers,
                vec![
                    (b"encoding".to_vec(), b"latin1".to_vec()),
                    (b"tag".to_vec(), b"again".to_vec()),
                    (b"gpgsig".to_vec(), b"one\n two".to_vec()),
                ],
            );
        }
        _ => panic!("no tag"),
    }
    assert_eq!(object.serialize(), frame);
}

#[test]
fn canonical_bytes_are_written_as_they_were_read() {
    let commit = b"tree 0101010101010101010101010101010101010101\n\
        parent 0202020202020202020202020202020202020202\n\
        parent 0303030303030303030303030303030303030303\n\
        author A <a@e.com> 1 +0000\ncommitter B <b@e.com> 2 +0000\n\
        encoding x\nauthor C <c@e.com> 3 +0000\n\nbody";
    let mut tree = Vec::new();
    for (mode, name) in [("100644", "a"), ("40000", "a.d"), ("100755", "a0")] {
        tree.extend_from_slice(mode.as_bytes());
        tree.push(b' ');
        tree.extend_from_slice(name.as_bytes());
        tree.push(0);
        tree.extend_from_slice(&[7; 20]);
    }
    for (kind, payload) in [("commit", &commit[..]), ("tree", &tree[..]), ("blob", &b"\0x"[..])] {
        let mut frame = format!("{kind} {}\0", payload.len()).into_bytes();
        frame.extend_from_slice(payload);
        assert_eq!(Object::parse_loose(&frame).unwrap().serialize(), frame);
    }
}

#[test]
fn names_of_signatures_may_be_empty() {
    let parse = |raw: &[u8]| {
        let mut payload = b"tree 0101010101010101010101010101010101010101\nauthor ".to_vec();
        payload.extend_from_slice(raw);
        payload.extend_from_slice(b"\ncommitter C <c@e.com> 2 +0000\n\n");
        match Object::parse_payload(ObjectKind::Commit, &payload).unwrap() {
            Object::Commit(c) => c.author,
            _ => panic!("no commit"),
        }
    };
    let empty = parse(b"<a@e.com> 1 +0000");
    assert_eq!(empty.name, Some(Vec::new()));
    assert_eq!(empty.email, Some(b"a@e.com".to_vec()));
    assert_eq!(parse(b" 1 +0000").name, Some(Vec::new()));
    assert_eq!(parse(b"Ann 1 +0000").name, Some(b"Ann".to_vec()));
}
