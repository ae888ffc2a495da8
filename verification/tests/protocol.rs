//! Push requests, replies, URLs and authentication.

use rgit::bytemap::ByteMap;
use rgit::dir::Dir;
use rgit::files::{Files, IoError};
use rgit::object::{Blob, Commit, EntryMode, Object, ObjectId, Signature, Tag, Tree, TreeEntry};
use rgit::object::ObjectKind;
use rgit::odb::{OdbError, Repository};
use rgit::idset::IdSet;
use rgit::pack::{build_index, Pack};
use rgit::transport::advertisement::{parse_ssh_ref, read_packet_start, PacketStart};
use rgit::transport::request::{all_up_to_date, resolve_updates};
use rgit::transport::url::{choose_route, push_url, refs_url, Route};
use rgit::transport::{
    auth_header, build_push_body, collect_reachable_objects, parse_push_result,
    parse_ref_advertisement, parse_ssh_url, pkt_line_decode_all, pkt_line_encode, status_error,
    RefUpdate, RemoteRef, TransportCredentials, TransportError,
};

fn make_repo() -> Repository {
    Repository::init("demo", false, Dir::new(), Dir::new(), &ByteMap::new()).unwrap()
}

fn signature() -> Signature {
    Signature {
        raw: b"t <t@e.com> 1700000000 +0000".to_vec(),
        name: Some(b"t".to_vec()),
        email: Some(b"t@e.com".to_vec()),
        timestamp: Some(1_700_000_000),
        timezone: Some(b"+0000".to_vec()),
    }
}

fn write_blob(repo: &mut Repository, data: &[u8]) -> ObjectId {
    repo.write_object(&Object::Blob(Blob::new(data.to_vec()))).unwrap()
}

fn write_tree(repo: &mut Repository, mode: EntryMode, name: &[u8], id: ObjectId) -> ObjectId {
    let entries = vec![TreeEntry { mode, name: name.to_vec(), id }];
    repo.write_object(&Object::Tree(Tree { entries })).unwrap()
}

fn write_commit(repo: &mut Repository, tree: ObjectId, parents: Vec<ObjectId>) -> ObjectId {
    repo.write_object(&Object::Commit(Commit {
        tree,
        parents,
        author: signature(),
        committer: signature(),
        extra_headers: vec![],
        message: b"msg\n".to_vec(),
    }))
    .unwrap()
}

fn id(byte: u8) -> ObjectId {
    ObjectId::from_bytes([byte; 20])
}

#[test]
fn authentication_is_basic_with_base_64() {
    let creds = |user: &str, token: &str| TransportCredentials {
        username: user.to_string(),
        token: token.to_string(),
    };
    assert_eq!(
        auth_header(&creds("Aladdin", "open sesame")),
        "Basic QWxhZGRpbjpvcGVuIHNlc2FtZQ==",
    );
    assert_eq!(auth_header(&creds("", "")), "Basic Og==");
    assert_eq!(auth_header(&creds("a", "b")), "Basic YTpi");
    assert_eq!(auth_header(&creds("ab", "c")), "Basic YWI6Yw==");
    assert_eq!(auth_header(&creds("ab", "cd\u{ff}?>")), "Basic YWI6Y2TDvz8+");
}

#[test]
fn packet_lengths_over_four_digits_grow() {
    let encoded = pkt_line_encode(&vec![b'x'; 65_532]);
    assert!(encoded.starts_with(b"10000xxx"));
    let largest = pkt_line_encode(&vec![b'x'; 65_531]);
    assert!(largest.starts_with(b"ffffxxx"));
    assert_eq!(pkt_line_decode_all(&largest).unwrap(), vec![vec![b'x'; 65_531]]);
}

#[test]
fn malformed_packets_are_refused() {
    for bad in [b"0003x".as_slice(), b"0009abc", b"00 5x", b"-005x", b"\xff\xff00"] {
        assert_eq!(pkt_line_decode_all(bad), Err(TransportError::PktLine));
    }
    // Fewer than four bytes at the end are left over.
    assert_eq!(pkt_line_decode_all(b"0005x000").unwrap(), vec![b"x".to_vec()]);
    // A length may have a plus sign and capital digits.
    assert_eq!(pkt_line_decode_all(b"+005x000Axxxxxx").unwrap().len(), 2);
}

#[test]
fn packet_starts_are_told_apart() {
    assert_eq!(read_packet_start(b"0000"), Ok(PacketStart::Flush));
    assert_eq!(read_packet_start(b"0004"), Ok(PacketStart::Data(0)));
    assert_eq!(read_packet_start(b"00ff"), Ok(PacketStart::Data(251)));
    assert_eq!(read_packet_start(b"0003"), Err(TransportError::PktLine));
    assert_eq!(read_packet_start(b"zzzz"), Err(TransportError::PktLine));
}

#[test]
fn advertisement_passes_over_what_is_no_ref() {
    let hex = "c".repeat(40);
    let mut body = pkt_line_encode(b"version 1\n");
    body.extend_from_slice(&pkt_line_encode(b"short"));
    body.extend_from_slice(&pkt_line_encode(format!("{hex}\trefs/heads/x").as_bytes()));
    body.extend_from_slice(&pkt_line_encode(format!("{hex} refs/heads/y\0caps").as_bytes()));
    let refs = parse_ref_advertisement(&body).unwrap();
    assert_eq!(refs, vec![RemoteRef { name: "refs/heads/y".to_string(), id: id(0xcc) }]);
    let bad = pkt_line_encode(format!("{} refs/heads/y", "g".repeat(40)).as_bytes());
    assert_eq!(parse_ref_advertisement(&bad), Err(TransportError::PktLine));
}

#[test]
fn ssh_advertisement_is_lenient() {
    let hex = "d".repeat(40);
    let line = |name: &str| format!("{hex} {name}\n").into_bytes();
    let found = parse_ssh_ref(&line("refs/heads/main\0report-status")).unwrap();
    assert_eq!(found, Some(RemoteRef { name: "refs/heads/main".to_string(), id: id(0xdd) }));
    assert_eq!(parse_ssh_ref(&line("capabilities^{}")), Ok(None));
    assert_eq!(parse_ssh_ref(b"short"), Ok(None));
    assert_eq!(parse_ssh_ref(format!("{} x", "g".repeat(40)).as_bytes()), Ok(None));
    let mut bad = vec![0xff; 40];
    bad.extend_from_slice(b" x");
    assert_eq!(parse_ssh_ref(&bad), Err(TransportError::PktLine));
}

#[test]
fn push_report_is_read() {
    let mut body = pkt_line_encode(b"unpack ok\n");
    body.extend_from_slice(&pkt_line_encode(b"ok refs/heads/main\n"));
    body.extend_from_slice(&pkt_line_encode(b"ng refs/heads/x non-fast-forward update\n"));
    body.extend_from_slice(&pkt_line_encode(b"ng refs/heads/y\n"));
    body.extend_from_slice(&pkt_line_encode(b"something else\n"));
    body.extend_from_slice(b"0000");
    let result = parse_push_result(&body).unwrap();
    assert!(result.unpack_ok);
    assert_eq!(
        result.per_ref,
        vec![
            ("refs/heads/main".to_string(), Ok(())),
            ("refs/heads/x".to_string(), Err("non-fast-forward update".to_string())),
            ("refs/heads/y".to_string(), Err(String::new())),
        ],
    );
    assert!(!parse_push_result(b"").unwrap().unpack_ok);
}

#[test]
fn failed_unpack_is_an_error_of_the_server() {
    let body = pkt_line_encode(b"unpack index-pack abnormal exit\n");
    match parse_push_result(&body) {
        Err(TransportError::Server(m)) => {
            assert_eq!(m, "unpack failed: index-pack abnormal exit");
        }
        other => panic!("unexpected {other:?}"),
    }
    assert!(matches!(parse_push_result(b"zzzz"), Err(TransportError::PktLine)));
}

#[test]
fn http_status_tells_errors_apart() {
    assert_eq!(status_error(401, "no"), TransportError::AuthRequired);
    assert_eq!(status_error(404, "gone"), TransportError::Http("gone".to_string()));
}

#[test]
fn urls_are_built_without_doubled_slashes() {
    assert_eq!(
        refs_url("https://h/r.git//"),
        "https://h/r.git/info/refs?service=git-receive-pack",
    );
    assert_eq!(push_url("https://h/r.git"), "https://h/r.git/git-receive-pack");
}

#[test]
fn routes_depend_on_the_scheme() {
    assert_eq!(choose_route("git@h:r", false), Ok(Route::Ssh));
    assert_eq!(choose_route("ssh://h/r", false), Ok(Route::Ssh));
    assert_eq!(choose_route("https://h/r", true), Ok(Route::Http));
    assert_eq!(choose_route("http://h/r", true), Ok(Route::Http));
    assert_eq!(choose_route("https://h/r", false), Err(TransportError::AuthRequired));
    assert_eq!(
        choose_route("ftp://h/r", true),
        Err(TransportError::Http("unsupported url scheme: ftp://h/r".to_string())),
    );
}

#[test]
fn ssh_urls_are_taken_apart() {
    let parts = |url: &str| {
        let u = parse_ssh_url(url).unwrap();
        (u.user, u.host, u.path)
    };
    let owned = |a: &str, b: &str, c: &str| (a.to_string(), b.to_string(), c.to_string());
    assert_eq!(parts("git@github.com:o/r.git"), owned("git", "github.com", "o/r.git"));
    assert_eq!(parts("ssh://me@h:22/a/b"), owned("me", "h", "/a/b"));
    assert_eq!(parts("ssh://h/a"), owned("git", "h", "/a"));
    let message = |url: &str| match parse_ssh_url(url) {
        Err(TransportError::Http(m)) => m,
        other => panic!("unexpected {other:?}"),
    };
    assert_eq!(message("ssh://h"), "ssh url missing path: ssh://h");
    assert_eq!(message("host:path"), "unrecognized ssh url: host:path");
    assert_eq!(message("a@b"), "unrecognized ssh url: a@b");
}

#[test]
fn updates_start_where_the_remote_is() {
    let remote = vec![
        RemoteRef { name: "refs/heads/a".to_string(), id: id(1) },
        RemoteRef { name: "refs/heads/a".to_string(), id: id(2) },
    ];
    let update = |old: ObjectId, new: ObjectId, name: &str| RefUpdate {
        old_id: old,
        new_id: new,
        ref_name: name.to_string(),
    };
    let zero = ObjectId::zero();
    let resolved = resolve_updates(
        &[
            update(zero, id(1), "refs/heads/a"),
            update(zero, id(1), "refs/heads/b"),
            update(id(7), id(1), "refs/heads/a"),
        ],
        &remote,
    );
    let olds: Vec<ObjectId> = resolved.iter().map(|u| u.old_id).collect();
    assert_eq!(olds, vec![id(1), zero, id(7)]);
    assert!(!all_up_to_date(&resolved));
    assert!(all_up_to_date(&resolved[..1]));
}

#[test]
fn push_body_has_commands_and_all_objects() {
    let mut repo = make_repo();
    let blob = write_blob(&mut repo, b"data");
    let sub = write_tree(&mut repo, EntryMode::Regular, b"f", blob);
    let tree = write_tree(&mut repo, EntryMode::Tree, b"dir", sub);
    let first = write_commit(&mut repo, tree, vec![]);
    let second = write_commit(&mut repo, tree, vec![first]);
    let zero = ObjectId::zero();
    let updates = vec![
        RefUpdate { old_id: first, new_id: second, ref_name: "refs/heads/main".to_string() },
        RefUpdate { old_id: first, new_id: zero, ref_name: "refs/heads/old".to_string() },
    ];
    let body = build_push_body(&repo, &updates).unwrap();
    let at = body.windows(8).position(|w| w == b"0000PACK").unwrap();
    let commands = pkt_line_decode_all(&body[..at]).unwrap();
    let line = |a: &ObjectId, b: &ObjectId, rest: &str| {
        format!("{} {} {rest}", a.to_hex(), b.to_hex()).into_bytes()
    };
    assert_eq!(
        commands,
        vec![
            line(&first, &second, "refs/heads/main\0report-status\n"),
            line(&first, &zero, "refs/heads/old\n"),
        ],
    );
    let mut files = Files::new();
    files.put(b"sent.pack", body[at + 4..].to_vec());
    build_index(&mut files, b"sent.pack").unwrap();
    let pack = Pack::open(&files, b"sent.pack").unwrap();
    for sent in [blob, sub, tree, first, second] {
        assert!(pack.contains(&sent));
    }
    assert_eq!(pack.ids().len(), 5);
}

#[test]
fn push_of_a_missing_object_fails() {
    let repo = make_repo();
    let updates =
        vec![RefUpdate { old_id: id(0), new_id: id(9), ref_name: "refs/heads/x".to_string() }];
    assert_eq!(
        build_push_body(&repo, &updates),
        Err(TransportError::Odb(OdbError::ObjectNotFound(id(9)))),
    );
}

#[test]
fn tags_lead_to_their_objects() {
    let mut repo = make_repo();
    let blob = write_blob(&mut repo, b"tagged");
    let tree = write_tree(&mut repo, EntryMode::Regular, b"f", blob);
    let tag = repo
        .write_object(&Object::Tag(Tag {
            object: tree,
            object_kind: ObjectKind::Tree,
            name: b"v1".to_vec(),
            tagger: signature(),
            extra_headers: Vec::new(),
            message: b"release\n".to_vec(),
        }))
        .unwrap();
    let mut out = IdSet::new();
    collect_reachable_objects(&repo, &tag, &mut out).unwrap();
    assert_eq!(out.len(), 3);
    for found in [tag, tree, blob] {
        assert!(out.contains(&found));
    }
    // What is in the set already is not looked into again.
    let mut seeded = IdSet::new();
    seeded.insert(&tree);
    collect_reachable_objects(&repo, &tag, &mut seeded).unwrap();
    assert!(!seeded.contains(&blob));
}

#[test]
fn unreadable_loose_object_stops_the_walk() {
    let mut repo = make_repo();
    repo.git_mut().make_dirs(&rgit::odb::loose_file(&id(5))).unwrap();
    let mut out = IdSet::new();
    assert_eq!(
        collect_reachable_objects(&repo, &id(5), &mut out),
        Err(TransportError::Odb(OdbError::Io(IoError::IsADirectory))),
    );
}

#[test]
fn objects_elsewhere_do_not_matter_to_a_push() {
    let mut repo = make_repo();
    let blob = write_blob(&mut repo, b"kept");
    // A tree that calls a blob a tree, and one whose blob is missing.
    write_tree(&mut repo, EntryMode::Tree, b"wrong", blob);
    let lost = write_tree(&mut repo, EntryMode::Regular, b"f", id(9));
    let tree = write_tree(&mut repo, EntryMode::Regular, b"f", blob);
    let commit = write_commit(&mut repo, tree, vec![]);
    let mut out = IdSet::new();
    collect_reachable_objects(&repo, &commit, &mut out).unwrap();
    assert_eq!(out.len(), 3);
    // The contents of files are not read.
    let mut out = IdSet::new();
    collect_reachable_objects(&repo, &lost, &mut out).unwrap();
    assert!(out.contains(&lost) && out.contains(&id(9)));
}
