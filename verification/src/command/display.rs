//! How objects, refs and changes are shown.

use vstd::prelude::*;
use vstd::utf8::{encode_utf8, is_ascii_chars};

use crate::bytes::{ascii, has_prefix, push_all, push_text, text, DIGIT_ZERO, LF, SPACE};
use crate::diff::{lines, lines_view, split_lines};
use crate::gitignore::{ignores, GitignoreSet, RuleView};
use crate::notation::{decimal, hex, lossy_string, push_decimal, text_of};
use crate::object::tree::octal_facts;
use crate::object::{
    kind_token_facts, CommitView, EntryMode, Object, ObjectId, ObjectKind, ObjectView, Tree,
    TreeEntry, TreeEntryView,
};
use crate::odb::{OdbError, OdbErrorView, RepoView, Repository, Store};
use crate::refs::{bare_line, refs_view, strip_line};
use crate::workdir::{changes_view, ChangeView, WorkdirChange};

verus! {

/// Horizontal tab.
pub const TAB: u8 = 9;

/// `*`
pub const STAR: u8 = 42;

/// Bytes as they are shown: as UTF-8, with a replacement character for what
/// is not UTF-8.
pub open spec fn shown(b: Seq<u8>) -> Seq<u8> {
    encode_utf8(text_of(b))
}

/// Appends bytes as they are shown.
fn push_shown(out: &mut Vec<u8>, b: &[u8])
    ensures
        final(out)@ == old(out)@ + shown(b@),
{
    let s = lossy_string(b);
    push_all(out, s.as_str().as_bytes());
}

// ---------------------------------------------------------------------
// Trees
// ---------------------------------------------------------------------

/// The kind of object that an entry of the mode stands for.
pub open spec fn entry_kind(mode: EntryMode) -> Seq<char> {
    match mode {
        EntryMode::Tree => "tree"@,
        EntryMode::Gitlink => "commit"@,
        _ => "blob"@,
    }
}

/// A mode with six digits.
pub open spec fn six_digits(mode: EntryMode) -> Seq<u8> {
    if mode == EntryMode::Tree {
        seq![DIGIT_ZERO] + ascii(mode.octal())
    } else {
        ascii(mode.octal())
    }
}

/// The line for a tree entry.
pub open spec fn entry_line(e: TreeEntryView) -> Seq<u8> {
    six_digits(e.mode) + seq![SPACE] + ascii(entry_kind(e.mode)) + seq![SPACE] + hex(e.id)
        + seq![TAB] + shown(e.name) + seq![LF]
}

/// The lines for the first `n` entries of a tree.
pub open spec fn tree_lines(es: Seq<TreeEntryView>, n: nat) -> Seq<u8>
    decreases n,
{
    if n == 0 {
        Seq::empty()
    } else {
        tree_lines(es, (n - 1) as nat) + entry_line(es[n - 1])
    }
}

/// Appends the line for a tree entry.
fn push_entry_line(out: &mut Vec<u8>, e: &TreeEntry)
    ensures
        final(out)@ == old(out)@ + entry_line(e@),
{
    proof {
        octal_facts(e.mode);
        reveal_strlit("tree");
        reveal_strlit("commit");
        reveal_strlit("blob");
    }
    if e.mode == EntryMode::Tree {
        out.push(DIGIT_ZERO);
    }
    push_all(out, e.mode.as_octal());
    out.push(SPACE);
    match e.mode {
        EntryMode::Tree => push_text(out, "tree"),
        EntryMode::Gitlink => push_text(out, "commit"),
        _ => push_text(out, "blob"),
    }
    out.push(SPACE);
    push_all(out, &e.id.to_hex_bytes());
    out.push(TAB);
    push_shown(out, &e.name);
    out.push(LF);
    assert(out@ =~= old(out)@ + entry_line(e@));
}

/// Lists the entries of a tree.
pub fn show_tree(tree: &Tree) -> (r: Vec<u8>)
    ensures
        r@ == tree_lines(tree@, tree@.len()),
{
    let mut out: Vec<u8> = Vec::new();
    let mut i: usize = 0;
    assert(out@ =~= tree_lines(tree@, 0));
    while i < tree.entries.len()
        invariant
            i <= tree.entries@.len(),
            out@ == tree_lines(tree@, i as nat),
        decreases tree.entries.len() - i,
    {
        assert(tree@[i as int] == tree.entries@[i as int]@);
        push_entry_line(&mut out, &tree.entries[i]);
        i += 1;
    }
    out
}

// ---------------------------------------------------------------------
// Commits and tags
// ---------------------------------------------------------------------

/// The first `n` lines, indented.
pub open spec fn indented_lines(ls: Seq<Seq<u8>>, n: nat) -> Seq<u8>
    decreases n,
{
    if n == 0 {
        Seq::empty()
    } else {
        indented_lines(ls, (n - 1) as nat) + ascii("    "@) + bare_line(ls[n - 1]) + seq![LF]
    }
}

/// A message, indented.
pub open spec fn indented(message: Seq<u8>) -> Seq<u8> {
    indented_lines(lines(shown(message)), lines(shown(message)).len())
}

/// Appends a message, indented.
fn push_indented(out: &mut Vec<u8>, message: &[u8])
    ensures
        final(out)@ == old(out)@ + indented(message@),
{
    let s = lossy_string(message);
    let ls = split_lines(s.as_str().as_bytes());
    let ghost v = lines_view(ls@);
    let mut i: usize = 0;
    assert(out@ =~= old(out)@ + indented_lines(v, 0));
    while i < ls.len()
        invariant
            i <= ls@.len(),
            v == lines_view(ls@),
            out@ == old(out)@ + indented_lines(v, i as nat),
        decreases ls.len() - i,
    {
        proof {
            reveal_strlit("    ");
            assert(v[i as int] == ls@[i as int]@);
        }
        push_text(out, "    ");
        push_all(out, strip_line(ls[i]));
        out.push(LF);
        assert(out@ =~= old(out)@ + indented_lines(v, (i + 1) as nat));
        i += 1;
    }
}

/// A line with a label.
pub open spec fn labelled(label: Seq<char>, value: Seq<u8>) -> Seq<u8> {
    ascii(label) + value + seq![LF]
}

/// Appends a line with a label.
fn push_labelled(out: &mut Vec<u8>, label: &str, value: &[u8])
    requires
        is_ascii_chars(label@),
    ensures
        final(out)@ == old(out)@ + labelled(label@, value@),
{
    push_text(out, label);
    push_all(out, value);
    out.push(LF);
    assert(out@ =~= old(out)@ + labelled(label@, value@));
}

/// A commit in a log.
pub open spec fn log_entry(id: Seq<u8>, c: CommitView) -> Seq<u8> {
    labelled("commit "@, hex(id)) + labelled("Author: "@, shown(c.author.raw)) + seq![LF]
        + indented(c.message) + seq![LF]
}

/// The log of up to `n` commits, from one along first parents, and the
/// error that it ends with, if any.
pub open spec fn log_text(s: Store, id: Seq<u8>, n: nat) -> (Seq<u8>, Option<OdbErrorView>)
    decreases n,
{
    if n == 0 {
        (Seq::empty(), None)
    } else {
        match s.object(id) {
            Err(e) => (Seq::empty(), Some(e)),
            Ok(ObjectView::Commit(c)) => if c.parents.len() == 0 {
                (log_entry(id, c), None)
            } else {
                let (rest, fault) = log_text(s, c.parents[0], (n - 1) as nat);
                (log_entry(id, c) + rest, fault)
            },
            Ok(_) => (Seq::empty(), None),
        }
    }
}

/// How an object is shown.
pub open spec fn object_text(id: Seq<u8>, o: ObjectView) -> Seq<u8> {
    match o {
        ObjectView::Blob(data) => data,
        ObjectView::Tree(es) => tree_lines(es, es.len()),
        ObjectView::Commit(c) => labelled("commit "@, hex(id)) + labelled(
            "Author: "@,
            shown(c.author.raw),
        ) + labelled("Committer: "@, shown(c.committer.raw)) + seq![LF] + indented(c.message),
        ObjectView::Tag(t) => labelled("tag "@, hex(id)) + labelled(
            "Tagger: "@,
            shown(t.tagger.raw),
        ) + labelled("Target: "@, hex(t.object) + ascii(" ("@) + ascii(t.object_kind.token())
            + ascii(")"@)) + seq![LF] + t.message,
    }
}

/// Shows an object.
pub fn show_object(id: &ObjectId, o: &Object) -> (r: Vec<u8>)
    ensures
        r@ == object_text(id@, o@),
{
    proof {
        reveal_strlit("commit ");
        reveal_strlit("Author: ");
        reveal_strlit("Committer: ");
        reveal_strlit("tag ");
        reveal_strlit("Tagger: ");
        reveal_strlit("Target: ");
        reveal_strlit(" (");
        reveal_strlit(")");
    }
    let mut out: Vec<u8> = Vec::new();
    match o {
        Object::Blob(b) => push_all(&mut out, &b.data),
        Object::Tree(t) => return show_tree(t),
        Object::Commit(c) => {
            push_labelled(&mut out, "commit ", &id.to_hex_bytes());
            let author = lossy_string(&c.author.raw);
            push_labelled(&mut out, "Author: ", author.as_str().as_bytes());
            let committer = lossy_string(&c.committer.raw);
            push_labelled(&mut out, "Committer: ", committer.as_str().as_bytes());
            out.push(LF);
            push_indented(&mut out, &c.message);
        },
        Object::Tag(t) => {
            push_labelled(&mut out, "tag ", &id.to_hex_bytes());
            let tagger = lossy_string(&t.tagger.raw);
            push_labelled(&mut out, "Tagger: ", tagger.as_str().as_bytes());
            let mut target = t.object.to_hex_bytes();
            push_text(&mut target, " (");
            proof {
                kind_token_facts(t.object_kind);
            }
            push_text(&mut target, t.object_kind.as_str());
            push_text(&mut target, ")");
            push_labelled(&mut out, "Target: ", &target);
            out.push(LF);
            push_all(&mut out, &t.message);
        },
    }
    assert(out@ =~= object_text(id@, o@));
    out
}

impl Repository {
    /// The log of up to `limit` commits from one along first parents. Where
    /// a commit cannot be read, the log so far is followed by the error.
    pub fn log_from(&self, id: &ObjectId, limit: usize) -> (r: (Vec<u8>, Option<OdbError>))
        ensures
            log_text(self@.store(), id@, limit as nat) == (r.0@, match r.1 {
                Some(e) => Some(e@),
                None => None,
            }),
    {
        let ghost s = self@.store();
        let mut out: Vec<u8> = Vec::new();
        let mut at: ObjectId = *id;
        let mut left: usize = limit;
        proof {
            assert(out@ + log_text(s, id@, limit as nat).0 =~= log_text(s, id@, limit as nat).0);
        }
        while left > 0
            invariant
                s == self@.store(),
                log_text(s, id@, limit as nat) == (
                    out@ + log_text(s, at@, left as nat).0,
                    log_text(s, at@, left as nat).1,
                ),
            decreases left,
        {
            proof {
                reveal_strlit("commit ");
                reveal_strlit("Author: ");
                assert(out@ + Seq::<u8>::empty() =~= out@);
            }
            let c = match self.read_object(&at) {
                Err(e) => return (out, Some(e)),
                Ok(Object::Commit(c)) => c,
                Ok(_) => return (out, None),
            };
            let ghost before = out@;
            push_labelled(&mut out, "commit ", &at.to_hex_bytes());
            let author = lossy_string(&c.author.raw);
            push_labelled(&mut out, "Author: ", author.as_str().as_bytes());
            out.push(LF);
            push_indented(&mut out, &c.message);
            out.push(LF);
            assert(out@ =~= before + log_entry(at@, c@));
            if c.parents.len() == 0 {
                return (out, None);
            }
            let next: ObjectId = c.parents[0];
            proof {
                assert(c@.parents[0] == next@);
                let rest = log_text(s, next@, (left - 1) as nat).0;
                assert(before + (log_entry(at@, c@) + rest) =~= out@ + rest);
            }
            at = next;
            left -= 1;
        }
        assert(out@ + Seq::<u8>::empty() =~= out@);
        (out, None)
    }
}

// ---------------------------------------------------------------------
// What is stored
// ---------------------------------------------------------------------

/// What is asked of a stored object.
#[derive(Debug, Clone, Copy, PartialEq, Eq, Structural)]
pub enum Facet {
    /// Its kind.
    Kind,
    /// How many bytes its payload has.
    Size,
    /// Its payload; of a tree, its entries.
    Contents,
}

/// What is printed of a stored object.
pub open spec fn facet_text(repo: RepoView, id: Seq<u8>, facet: Facet) -> Result<
    Seq<u8>,
    OdbErrorView,
> {
    match repo.store().raw(id) {
        Err(e) => Err(e),
        Ok((kind, payload)) => match facet {
            Facet::Kind => Ok(ascii(kind.token()).push(LF)),
            Facet::Size => Ok(decimal(payload.len()).push(LF)),
            Facet::Contents => if kind != ObjectKind::Tree {
                Ok(payload)
            } else {
                match repo.store().object(id) {
                    Err(e) => Err(e),
                    Ok(ObjectView::Tree(es)) => Ok(tree_lines(es, es.len())),
                    Ok(_) => Ok(Seq::empty()),
                }
            },
        },
    }
}

impl Repository {
    /// What is printed of a stored object.
    pub fn show_facet(&self, id: &ObjectId, facet: Facet) -> (r: Result<Vec<u8>, OdbError>)
        ensures
            match r {
                Ok(t) => facet_text(self@, id@, facet) == Ok::<_, OdbErrorView>(t@),
                Err(e) => facet_text(self@, id@, facet) == Err::<Seq<u8>, _>(e@),
            },
    {
        let (kind, payload) = match self.read_object_raw(id) {
            Ok(x) => x,
            Err(e) => return Err(e),
        };
        match facet {
            Facet::Kind => {
                let mut out: Vec<u8> = Vec::new();
                proof {
                    kind_token_facts(kind);
                }
                push_text(&mut out, kind.as_str());
                out.push(LF);
                assert(out@ =~= ascii(kind.token()).push(LF));
                Ok(out)
            },
            Facet::Size => {
                let mut out: Vec<u8> = Vec::new();
                push_decimal(&mut out, payload.len());
                out.push(LF);
                assert(out@ =~= decimal(payload@.len()).push(LF));
                Ok(out)
            },
            Facet::Contents => {
                if kind != ObjectKind::Tree {
                    return Ok(payload);
                }
                match self.read_object(id) {
                    Err(e) => Err(e),
                    Ok(Object::Tree(t)) => Ok(show_tree(&t)),
                    Ok(_) => {
                        let out: Vec<u8> = Vec::new();
                        assert(out@ =~= Seq::<u8>::empty());
                        Ok(out)
                    },
                }
            },
        }
    }
}

// ---------------------------------------------------------------------
// Changes and refs
// ---------------------------------------------------------------------

/// Whether a change is passed over: an untracked file that is ignored.
pub open spec fn passed_over(c: ChangeView, sets: Seq<(Seq<u8>, Seq<RuleView>)>) -> bool {
    c matches ChangeView::Untracked(path) && ignores(sets, path, false)
}

/// The line for a change.
pub open spec fn change_line(c: ChangeView) -> Seq<u8> {
    match c {
        ChangeView::Staged(p) => labelled("staged:    "@, shown(p)),
        ChangeView::Modified(p) => labelled("modified:  "@, shown(p)),
        ChangeView::Deleted(p) => labelled("deleted:   "@, shown(p)),
        ChangeView::Untracked(p) => labelled("untracked: "@, shown(p)),
    }
}

/// The lines for the first `n` changes.
pub open spec fn change_lines(
    cs: Seq<ChangeView>,
    n: nat,
    sets: Seq<(Seq<u8>, Seq<RuleView>)>,
) -> Seq<u8>
    decreases n,
{
    if n == 0 {
        Seq::empty()
    } else if passed_over(cs[n - 1], sets) {
        change_lines(cs, (n - 1) as nat, sets)
    } else {
        change_lines(cs, (n - 1) as nat, sets) + change_line(cs[n - 1])
    }
}

/// What is printed of the changes.
pub open spec fn status_text(
    cs: Seq<ChangeView>,
    sets: Seq<(Seq<u8>, Seq<RuleView>)>,
) -> Seq<u8> {
    if change_lines(cs, cs.len(), sets).len() == 0 {
        labelled("nothing to commit, working tree clean"@, Seq::empty())
    } else {
        change_lines(cs, cs.len(), sets)
    }
}

/// Appends the line for a change.
fn push_change_line(out: &mut Vec<u8>, c: &WorkdirChange)
    ensures
        final(out)@ == old(out)@ + change_line(c@),
{
    proof {
        reveal_strlit("staged:    ");
        reveal_strlit("modified:  ");
        reveal_strlit("deleted:   ");
        reveal_strlit("untracked: ");
    }
    match c {
        WorkdirChange::Staged(p) => {
            let s = lossy_string(p);
            push_labelled(out, "staged:    ", s.as_str().as_bytes());
        },
        WorkdirChange::Modified(p) => {
            let s = lossy_string(p);
            push_labelled(out, "modified:  ", s.as_str().as_bytes());
        },
        WorkdirChange::Deleted(p) => {
            let s = lossy_string(p);
            push_labelled(out, "deleted:   ", s.as_str().as_bytes());
        },
        WorkdirChange::Untracked(p) => {
            let s = lossy_string(p);
            push_labelled(out, "untracked: ", s.as_str().as_bytes());
        },
    }
}

/// Shows the changes that are not ignored.
pub fn show_status(changes: &[WorkdirChange], rules: &GitignoreSet) -> (r: Vec<u8>)
    ensures
        r@ == status_text(changes_view(changes@), rules@),
{
    let ghost cs = changes_view(changes@);
    let mut out: Vec<u8> = Vec::new();
    let mut i: usize = 0;
    assert(out@ =~= change_lines(cs, 0, rules@));
    while i < changes.len()
        invariant
            i <= changes@.len(),
            cs == changes_view(changes@),
            out@ == change_lines(cs, i as nat, rules@),
        decreases changes.len() - i,
    {
        assert(cs[i as int] == changes@[i as int]@);
        let skip = match &changes[i] {
            WorkdirChange::Untracked(path) => rules.is_ignored(path, false),
            _ => false,
        };
        if !skip {
            push_change_line(&mut out, &changes[i]);
        }
        i += 1;
    }
    if out.len() == 0 {
        proof {
            reveal_strlit("nothing to commit, working tree clean");
            assert(out@ =~= Seq::<u8>::empty());
        }
        let nothing: Vec<u8> = Vec::new();
        assert(nothing@ =~= Seq::<u8>::empty());
        push_labelled(&mut out, "nothing to commit, working tree clean", &nothing);
        assert(out@ =~= labelled("nothing to commit, working tree clean"@, Seq::empty()));
    }
    out
}

/// A ref's name without the prefix.
pub open spec fn short_name(name: Seq<u8>, prefix: Seq<u8>) -> Seq<u8> {
    if prefix.is_prefix_of(name) {
        name.skip(prefix.len() as int)
    } else {
        name
    }
}

/// The line for a branch; the one that HEAD is on is marked.
pub open spec fn branch_line(name: Seq<char>, head: Option<Seq<char>>) -> Seq<u8> {
    seq![
        if head == Some(name) {
            STAR
        } else {
            SPACE
        },
        SPACE,
    ] + short_name(encode_utf8(name), ascii("refs/heads/"@)) + seq![LF]
}

/// The lines for the first `n` branches.
pub open spec fn branch_lines(
    refs: Seq<(Seq<char>, Seq<u8>)>,
    n: nat,
    head: Option<Seq<char>>,
) -> Seq<u8>
    decreases n,
{
    if n == 0 {
        Seq::empty()
    } else {
        branch_lines(refs, (n - 1) as nat, head) + branch_line(refs[n - 1].0, head)
    }
}

/// The lines for the first `n` tags.
pub open spec fn tag_lines(refs: Seq<(Seq<char>, Seq<u8>)>, n: nat) -> Seq<u8>
    decreases n,
{
    if n == 0 {
        Seq::empty()
    } else {
        tag_lines(refs, (n - 1) as nat) + short_name(
            encode_utf8(refs[n - 1].0),
            ascii("refs/tags/"@),
        ) + seq![LF]
    }
}

/// Appends a ref's name without the prefix.
fn push_short(out: &mut Vec<u8>, name: &[u8], prefix: &str)
    requires
        is_ascii_chars(prefix@),
    ensures
        final(out)@ == old(out)@ + short_name(name@, ascii(prefix@)),
{
    let p = text(prefix);
    if has_prefix(name, p) {
        assert(name@.subrange(p@.len() as int, name@.len() as int) =~= name@.skip(p@.len() as int));
        push_all(out, &name[p.len()..name.len()]);
    } else {
        push_all(out, name);
    }
}

/// The text of an optional string.
pub open spec fn opt_text(s: Option<String>) -> Option<Seq<char>> {
    match s {
        Some(x) => Some(x@),
        None => None,
    }
}

/// Lists branches; `head` is the one that HEAD is on.
pub fn show_branches(refs: &[(String, ObjectId)], head: &Option<String>) -> (r: Vec<u8>)
    ensures
        r@ == branch_lines(refs_view(refs@), refs@.len(), opt_text(*head)),
{
    let ghost v = refs_view(refs@);
    let ghost h = opt_text(*head);
    let mut out: Vec<u8> = Vec::new();
    let mut i: usize = 0;
    assert(out@ =~= branch_lines(v, 0, h));
    while i < refs.len()
        invariant
            i <= refs@.len(),
            v == refs_view(refs@),
            h == opt_text(*head),
            out@ == branch_lines(v, i as nat, h),
        decreases refs.len() - i,
    {
        proof {
            reveal_strlit("refs/heads/");
            assert(v[i as int].0 == refs@[i as int].0@);
        }
        let ghost before = out@;
        let name = refs[i].0.as_str();
        let marked = match head {
            Some(x) => crate::notation::same_text(x.as_str(), name),
            None => false,
        };
        out.push(if marked { STAR } else { SPACE });
        out.push(SPACE);
        push_short(&mut out, name.as_bytes(), "refs/heads/");
        out.push(LF);
        assert(out@ =~= before + branch_line(v[i as int].0, h));
        i += 1;
    }
    out
}

/// Lists tags.
pub fn show_tags(refs: &[(String, ObjectId)]) -> (r: Vec<u8>)
    ensures
        r@ == tag_lines(refs_view(refs@), refs@.len()),
{
    let ghost v = refs_view(refs@);
    let mut out: Vec<u8> = Vec::new();
    let mut i: usize = 0;
    assert(out@ =~= tag_lines(v, 0));
    while i < refs.len()
        invariant
            i <= refs@.len(),
            v == refs_view(refs@),
            out@ == tag_lines(v, i as nat),
        decreases refs.len() - i,
    {
        proof {
            reveal_strlit("refs/tags/");
            assert(v[i as int].0 == refs@[i as int].0@);
        }
        let ghost before = out@;
        push_short(&mut out, refs[i].0.as_str().as_bytes(), "refs/tags/");
        out.push(LF);
        assert(out@ =~= before + short_name(encode_utf8(v[i as int].0), ascii("refs/tags/"@))
            + seq![LF]);
        i += 1;
    }
    out
}

} // verus!
