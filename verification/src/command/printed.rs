//! What is printed of objects, logs, changes, branches and tags.

use vstd::prelude::*;
use vstd::utf8::encode_utf8;

use super::display::{
    branch_line, branch_lines, change_line, change_lines, entry_line, facet_text, indented,
    indented_lines, log_entry, log_text, object_text, passed_over, short_name, shown, status_text,
    tag_lines, tree_lines, Facet,
};
use crate::bytes::ascii;
use crate::diff::lines;
use crate::gitignore::{ignores, RuleView};
use crate::notation::{decimal, hex};
use crate::object::{CommitView, EntryMode, ObjectKind, ObjectView, TagView, TreeEntryView};
use crate::odb::{OdbErrorView, RepoView, Store};
use crate::refs::bare_line;
use crate::workdir::ChangeView;

verus! {

// ---------------------------------------------------------------------
// Trees
// ---------------------------------------------------------------------

/// The mode of an entry in six octal digits.
pub open spec fn mode_digits(mode: EntryMode) -> Seq<char> {
    match mode {
        EntryMode::Tree => "040000"@,
        EntryMode::Regular => "100644"@,
        EntryMode::Executable => "100755"@,
        EntryMode::Symlink => "120000"@,
        EntryMode::Gitlink => "160000"@,
    }
}

/// Law: the line of a tree entry has its mode in six digits, the kind of its
/// object, the id, and behind a tab the name.
pub proof fn law_entry_line(e: TreeEntryView)
    ensures
        entry_line(e) == ascii(mode_digits(e.mode)) + seq![32u8] + ascii(
            if e.mode == EntryMode::Tree {
                "tree"@
            } else if e.mode == EntryMode::Gitlink {
                "commit"@
            } else {
                "blob"@
            },
        ) + seq![32u8] + hex(e.id) + seq![9u8] + shown(e.name) + seq![10u8],
{
    reveal_strlit("040000");
    reveal_strlit("40000");
    reveal_strlit("100644");
    reveal_strlit("100755");
    reveal_strlit("120000");
    reveal_strlit("160000");
    if e.mode == EntryMode::Tree {
        assert(seq![48u8] + ascii("40000"@) =~= ascii("040000"@));
    }
}

/// Lines look at the entries before their number only.
proof fn tree_lines_front(a: Seq<TreeEntryView>, b: Seq<TreeEntryView>, n: nat)
    requires
        n <= a.len(),
    ensures
        tree_lines(a + b, n) == tree_lines(a, n),
    decreases n,
{
    if n > 0 {
        tree_lines_front(a, b, (n - 1) as nat);
        assert((a + b)[n - 1] == a[n - 1]);
    }
}

/// Law: a tree is shown by the lines of its entries, in order.
pub proof fn law_tree_lines(id: Seq<u8>, es: Seq<TreeEntryView>, e: TreeEntryView)
    ensures
        object_text(id, ObjectView::Tree(Seq::empty())) == Seq::<u8>::empty(),
        object_text(id, ObjectView::Tree(es.push(e))) == object_text(id, ObjectView::Tree(es))
            + entry_line(e),
{
    tree_lines_front(es, seq![e], es.len());
    assert(es + seq![e] =~= es.push(e));
    assert(es.push(e)[es.len() as int] == e);
}

// ---------------------------------------------------------------------
// Commits and tags
// ---------------------------------------------------------------------

/// Indented lines look at the lines before their number only.
proof fn indented_front(a: Seq<Seq<u8>>, b: Seq<Seq<u8>>, n: nat)
    requires
        n <= a.len(),
    ensures
        indented_lines(a + b, n) == indented_lines(a, n),
    decreases n,
{
    if n > 0 {
        indented_front(a, b, (n - 1) as nat);
        assert((a + b)[n - 1] == a[n - 1]);
    }
}

/// Law: a message is shown line by line, each behind four spaces and with a
/// line feed behind it.
pub proof fn law_indented(message: Seq<u8>, ls: Seq<Seq<u8>>, l: Seq<u8>)
    ensures
        indented(message) == indented_lines(lines(shown(message)), lines(shown(message)).len()),
        indented_lines(Seq::empty(), 0) == Seq::<u8>::empty(),
        indented_lines(ls.push(l), ls.len() + 1) == indented_lines(ls, ls.len()) + seq![
            32u8,
            32u8,
            32u8,
            32u8,
        ] + bare_line(l) + seq![10u8],
{
    reveal_strlit("    ");
    indented_front(ls, seq![l], ls.len());
    assert(ls + seq![l] =~= ls.push(l));
    assert(ls.push(l)[ls.len() as int] == l);
    assert(ascii("    "@) =~= seq![32u8, 32u8, 32u8, 32u8]);
}

/// Law: a commit in a log is its id, its author, an empty line, its indented
/// message and an empty line.
pub proof fn law_log_entry(id: Seq<u8>, c: CommitView)
    ensures
        log_entry(id, c) == ascii("commit "@) + hex(id) + seq![10u8] + ascii("Author: "@) + shown(
            c.author.raw,
        ) + seq![10u8, 10u8] + indented(c.message) + seq![10u8],
{
    assert(log_entry(id, c) =~= ascii("commit "@) + hex(id) + seq![10u8] + ascii("Author: "@)
        + shown(c.author.raw) + seq![10u8, 10u8] + indented(c.message) + seq![10u8]);
}

/// Whether a commit has another as its first parent.
pub open spec fn has_first_parent(s: Store, id: Seq<u8>, parent: Seq<u8>) -> bool {
    s.object(id) matches Ok(ObjectView::Commit(c)) && c.parents.len() > 0 && c.parents[0] == parent
}

/// Whether some ids are those of commits, each the first parent of the one
/// before.
pub open spec fn first_parents(s: Store, ids: Seq<Seq<u8>>) -> bool {
    forall|i: int, j: int|
        0 <= i && j == i + 1 && j < ids.len() ==> has_first_parent(
            s,
            #[trigger] ids[i],
            #[trigger] ids[j],
        )
}

/// The entries of some commits.
pub open spec fn entries_of(s: Store, ids: Seq<Seq<u8>>) -> Seq<u8>
    decreases ids.len(),
{
    if ids.len() == 0 {
        Seq::empty()
    } else {
        log_entry(ids[0], s.object(ids[0])->Ok_0->Commit_0) + entries_of(s, ids.skip(1))
    }
}

/// Law: a log shows the commits along first parents, from the one it begins
/// with to the last of them, or as many as it may.
pub proof fn law_log(s: Store, ids: Seq<Seq<u8>>, n: nat)
    requires
        ids.len() > 0,
        first_parents(s, ids),
        s.object(ids.last()) matches Ok(ObjectView::Commit(c)) && c.parents.len() == 0,
    ensures
        log_text(s, ids[0], n).1 is None,
        n >= ids.len() ==> log_text(s, ids[0], n).0 == entries_of(s, ids),
        n < ids.len() ==> log_text(s, ids[0], n).0 == entries_of(s, ids.take(n as int)),
    decreases ids.len(),
{
    if n == 0 {
        assert(ids.take(0).len() == 0);
    } else {
        let t = ids.skip(1);
        if ids.len() == 1 {
            assert(ids.last() == ids[0]);
            assert(t.len() == 0);
            assert(entries_of(s, t).len() == 0);
            assert(entries_of(s, ids) =~= log_entry(ids[0], s.object(ids[0])->Ok_0->Commit_0));
        } else {
            assert(has_first_parent(s, ids[0], ids[1]));
            assert(ids[1] == t[0]);
            assert(first_parents(s, t)) by {
                assert forall|i: int, j: int|
                    0 <= i && j == i + 1 && j < t.len() implies has_first_parent(
                    s,
                    #[trigger] t[i],
                    #[trigger] t[j],
                ) by {
                    assert(has_first_parent(s, ids[i + 1], ids[j + 1]));
                }
            }
            assert(t.last() == ids.last());
            law_log(s, t, (n - 1) as nat);
            if n < ids.len() {
                assert(ids.take(n as int).skip(1) =~= t.take(n - 1));
                assert(ids.take(n as int)[0] == ids[0]);
            }
        }
    }
}

/// Law: a blob is shown as it is, a commit with its id, author, committer and
/// indented message, and a tag with its id, tagger, target and message.
pub proof fn law_object_text(id: Seq<u8>, data: Seq<u8>, c: CommitView, t: TagView)
    ensures
        object_text(id, ObjectView::Blob(data)) == data,
        object_text(id, ObjectView::Commit(c)) == ascii("commit "@) + hex(id) + seq![10u8] + ascii(
            "Author: "@,
        ) + shown(c.author.raw) + seq![10u8] + ascii("Committer: "@) + shown(c.committer.raw)
            + seq![10u8, 10u8] + indented(c.message),
        object_text(id, ObjectView::Tag(t)) == ascii("tag "@) + hex(id) + seq![10u8] + ascii(
            "Tagger: "@,
        ) + shown(t.tagger.raw) + seq![10u8] + ascii("Target: "@) + hex(t.object) + seq![32u8, 40u8]
            + ascii(t.object_kind.token()) + seq![41u8, 10u8, 10u8] + t.message,
{
    reveal_strlit(" (");
    reveal_strlit(")");
    assert(ascii(" ("@) =~= seq![32u8, 40u8]);
    assert(ascii(")"@) =~= seq![41u8]);
    assert(object_text(id, ObjectView::Commit(c)) =~= ascii("commit "@) + hex(id) + seq![10u8]
        + ascii("Author: "@) + shown(c.author.raw) + seq![10u8] + ascii("Committer: "@) + shown(
        c.committer.raw,
    ) + seq![10u8, 10u8] + indented(c.message));
    assert(object_text(id, ObjectView::Tag(t)) =~= ascii("tag "@) + hex(id) + seq![10u8] + ascii(
        "Tagger: "@,
    ) + shown(t.tagger.raw) + seq![10u8] + ascii("Target: "@) + hex(t.object) + seq![32u8, 40u8]
        + ascii(t.object_kind.token()) + seq![41u8, 10u8, 10u8] + t.message);
}

/// Law: of a stored object its kind, its size or its contents are printed: a
/// tree's contents as its lines, and others as they are.
pub proof fn law_facets(repo: RepoView, id: Seq<u8>, kind: ObjectKind, payload: Seq<u8>)
    requires
        repo.store().raw(id) == Ok::<_, OdbErrorView>((kind, payload)),
    ensures
        facet_text(repo, id, Facet::Kind) == Ok::<_, OdbErrorView>(
            ascii(
                match kind {
                    ObjectKind::Blob => "blob"@,
                    ObjectKind::Tree => "tree"@,
                    ObjectKind::Commit => "commit"@,
                    ObjectKind::Tag => "tag"@,
                },
            ).push(10),
        ),
        facet_text(repo, id, Facet::Size) == Ok::<_, OdbErrorView>(
            decimal(payload.len()).push(10),
        ),
        kind != ObjectKind::Tree ==> facet_text(repo, id, Facet::Contents) == Ok::<
            _,
            OdbErrorView,
        >(payload),
        repo.store().object(id) matches Ok(ObjectView::Tree(es)) ==> kind == ObjectKind::Tree
            ==> facet_text(repo, id, Facet::Contents) == Ok::<_, OdbErrorView>(
            object_text(id, ObjectView::Tree(es)),
        ),
{
}

// ---------------------------------------------------------------------
// Changes
// ---------------------------------------------------------------------

/// The lines look at the changes before their number only.
proof fn change_lines_front(
    a: Seq<ChangeView>,
    b: Seq<ChangeView>,
    n: nat,
    sets: Seq<(Seq<u8>, Seq<RuleView>)>,
)
    requires
        n <= a.len(),
    ensures
        change_lines(a + b, n, sets) == change_lines(a, n, sets),
    decreases n,
{
    if n > 0 {
        change_lines_front(a, b, (n - 1) as nat, sets);
        assert((a + b)[n - 1] == a[n - 1]);
    }
}

/// Law: changes are printed one after the other; just the untracked files
/// that are ignored are passed over.
pub proof fn law_change_lines(
    cs: Seq<ChangeView>,
    c: ChangeView,
    sets: Seq<(Seq<u8>, Seq<RuleView>)>,
)
    ensures
        ({
            let skip = c matches ChangeView::Untracked(p) && ignores(sets, p, false);
            change_lines(cs.push(c), cs.len() + 1, sets) == if skip {
                change_lines(cs, cs.len(), sets)
            } else {
                change_lines(cs, cs.len(), sets) + change_line(c)
            }
        }),
{
    change_lines_front(cs, seq![c], cs.len(), sets);
    assert(cs + seq![c] =~= cs.push(c));
    assert(cs.push(c)[cs.len() as int] == c);
}

/// Law: the line of a change says what became of which file.
pub proof fn law_change_line(p: Seq<u8>)
    ensures
        change_line(ChangeView::Staged(p)) == ascii("staged:    "@) + shown(p) + seq![10u8],
        change_line(ChangeView::Modified(p)) == ascii("modified:  "@) + shown(p) + seq![10u8],
        change_line(ChangeView::Deleted(p)) == ascii("deleted:   "@) + shown(p) + seq![10u8],
        change_line(ChangeView::Untracked(p)) == ascii("untracked: "@) + shown(p) + seq![10u8],
{
}

/// There are no lines where all changes are passed over.
proof fn no_change_lines(
    cs: Seq<ChangeView>,
    n: nat,
    sets: Seq<(Seq<u8>, Seq<RuleView>)>,
)
    requires
        n <= cs.len(),
    ensures
        change_lines(cs, n, sets).len() == 0 <==> forall|i: int|
            0 <= i < n ==> passed_over(#[trigger] cs[i], sets),
    decreases n,
{
    if n > 0 {
        no_change_lines(cs, (n - 1) as nat, sets);
        assert(change_line(cs[n - 1]).len() > 0);
        if change_lines(cs, n, sets).len() == 0 {
            assert forall|i: int| 0 <= i < n implies passed_over(#[trigger] cs[i], sets) by {}
        }
    }
}

/// Law: the working tree is called clean if and only if every change is an
/// untracked file that is ignored; otherwise the changes are printed.
pub proof fn law_status_text(cs: Seq<ChangeView>, sets: Seq<(Seq<u8>, Seq<RuleView>)>)
    ensures
        ({
            let clean = forall|i: int|
                0 <= i < cs.len() ==> (#[trigger] cs[i] matches ChangeView::Untracked(p) && ignores(
                    sets,
                    p,
                    false,
                ));
            status_text(cs, sets) == if clean {
                ascii("nothing to commit, working tree clean"@).push(10)
            } else {
                change_lines(cs, cs.len(), sets)
            }
        }),
{
    no_change_lines(cs, cs.len(), sets);
    let m = ascii("nothing to commit, working tree clean"@);
    assert(m + Seq::<u8>::empty() + seq![10u8] =~= m.push(10));
    assert((forall|i: int| 0 <= i < cs.len() ==> passed_over(#[trigger] cs[i], sets)) <==> (forall|
        i: int,
    |
        0 <= i < cs.len() ==> (#[trigger] cs[i] matches ChangeView::Untracked(p) && ignores(
            sets,
            p,
            false,
        ))));
}

// ---------------------------------------------------------------------
// Branches and tags
// ---------------------------------------------------------------------

/// Branch lines look at the refs before their number only.
proof fn branch_lines_front(
    a: Seq<(Seq<char>, Seq<u8>)>,
    b: Seq<(Seq<char>, Seq<u8>)>,
    n: nat,
    head: Option<Seq<char>>,
)
    requires
        n <= a.len(),
    ensures
        branch_lines(a + b, n, head) == branch_lines(a, n, head),
        tag_lines(a + b, n) == tag_lines(a, n),
    decreases n,
{
    if n > 0 {
        branch_lines_front(a, b, (n - 1) as nat, head);
        assert((a + b)[n - 1] == a[n - 1]);
    }
}

/// Law: branches and tags are listed one after the other, a line for each.
pub proof fn law_ref_lines(
    rs: Seq<(Seq<char>, Seq<u8>)>,
    r: (Seq<char>, Seq<u8>),
    head: Option<Seq<char>>,
)
    ensures
        branch_lines(rs.push(r), rs.len() + 1, head) == branch_lines(rs, rs.len(), head)
            + branch_line(r.0, head),
        tag_lines(rs.push(r), rs.len() + 1) == tag_lines(rs, rs.len()) + short_name(
            encode_utf8(r.0),
            ascii("refs/tags/"@),
        ) + seq![10u8],
{
    branch_lines_front(rs, seq![r], rs.len(), head);
    assert(rs + seq![r] =~= rs.push(r));
    assert(rs.push(r)[rs.len() as int] == r);
}

/// Law: the line of a branch begins with a star if HEAD is on it, and else
/// with a space; its name follows behind a space, without `refs/heads/`.
pub proof fn law_branch_line(name: Seq<char>, head: Option<Seq<char>>, rest: Seq<u8>)
    requires
        encode_utf8(name) == ascii("refs/heads/"@) + rest,
    ensures
        branch_line(name, head) == (if head == Some(name) {
            seq![42u8, 32u8]
        } else {
            seq![32u8, 32u8]
        }) + rest + seq![10u8],
{
    law_short_name(ascii("refs/heads/"@), rest);
    assert(branch_line(name, head) =~= (if head == Some(name) {
        seq![42u8, 32u8]
    } else {
        seq![32u8, 32u8]
    }) + rest + seq![10u8]);
}

/// Law: a short name is the name without the prefix; a name without the prefix
/// is shown as it is.
pub proof fn law_short_name(prefix: Seq<u8>, rest: Seq<u8>)
    ensures
        short_name(prefix + rest, prefix) == rest,
        !prefix.is_prefix_of(rest) ==> short_name(rest, prefix) == rest,
{
    assert(prefix =~= (prefix + rest).take(prefix.len() as int));
    assert((prefix + rest).skip(prefix.len() as int) =~= rest);
}

} // verus!
