//! Which commit introduced each line of a file.
//!
//! The first parents of a commit are followed. A line that the edit script
//! from the parent's file keeps is looked for in the parent; one that it
//! adds was introduced by the commit.

use vstd::prelude::*;
use vstd::utf8::encode_utf8;

use crate::bytes::{same_bytes, to_vec};
use crate::diff::{
    diff_lines, edit_script, lines, lines_view, script_view, split_lines, Change, LineChange,
};
use crate::files::IoError;
use crate::object::commit::ids_view;
use crate::object::{
    EntryMode, Object, ObjectId, ObjectView, ParseError, ParseErrorView, Tree, TreeEntryView,
};
use crate::odb::{OdbError, OdbErrorView, Repository, Store};
use crate::refs::{RefError, RefErrorView};
use crate::treewalk::{object_bound, parts, parts_view, split_path};

pub mod laws;
pub mod steps;

verus! {

/// Errors of blame.
#[derive(Debug, Clone, PartialEq, Eq)]
pub enum BlameError {
    /// A file could not be read.
    Io(IoError),
    /// The object database failed.
    Odb(OdbError),
    /// The refs failed.
    Refs(RefError),
    /// An object cannot be parsed.
    Object(ParseError),
    /// The commit has no such file.
    FileNotFound(String),
}

/// What a [`BlameError`] says.
pub enum BlameErrorView {
    Io(IoError),
    Odb(OdbErrorView),
    Refs(RefErrorView),
    Object(ParseErrorView),
    FileNotFound(Seq<char>),
}

impl View for BlameError {
    type V = BlameErrorView;

    open spec fn view(&self) -> BlameErrorView {
        match self {
            BlameError::Io(e) => BlameErrorView::Io(*e),
            BlameError::Odb(e) => BlameErrorView::Odb(e@),
            BlameError::Refs(e) => BlameErrorView::Refs(e@),
            BlameError::Object(e) => BlameErrorView::Object(e@),
            BlameError::FileNotFound(p) => BlameErrorView::FileNotFound(p@),
        }
    }
}

/// A line and the commit that introduced it.
#[derive(Debug, Clone)]
pub struct BlameLine {
    pub commit: ObjectId,
    pub line: Vec<u8>,
}

/// What the lines of a list say: commit and line.
pub open spec fn blame_view(ls: Seq<BlameLine>) -> Seq<(Seq<u8>, Seq<u8>)> {
    ls.map_values(|l: BlameLine| (l.commit@, l.line@))
}

// ---------------------------------------------------------------------
// Files of a commit
// ---------------------------------------------------------------------

/// The parts of a path that are not empty.
pub open spec fn named_parts(ps: Seq<Seq<u8>>) -> Seq<Seq<u8>>
    decreases ps.len(),
{
    if ps.len() == 0 {
        ps
    } else if ps.last().len() == 0 {
        named_parts(ps.drop_last())
    } else {
        named_parts(ps.drop_last()).push(ps.last())
    }
}

/// The first entry with a name.
pub open spec fn entry_named(es: Seq<TreeEntryView>, name: Seq<u8>) -> Option<TreeEntryView>
    decreases es.len(),
{
    if es.len() == 0 {
        None
    } else if es[0].name == name {
        Some(es[0])
    } else {
        entry_named(es.drop_first(), name)
    }
}

/// Whether the entry is a file or link.
pub open spec fn is_file_mode(mode: EntryMode) -> bool {
    mode == EntryMode::Regular || mode == EntryMode::Executable || mode == EntryMode::Symlink
}

/// The id of the file that the parts from the `k`-th on lead to in a tree:
/// `None` if there is none, or why a tree cannot be read.
pub open spec fn file_in_tree(s: Store, tree: Seq<u8>, ps: Seq<Seq<u8>>, k: nat) -> Result<
    Option<Seq<u8>>,
    OdbErrorView,
>
    decreases ps.len() - k,
{
    if k >= ps.len() {
        Ok(None)
    } else {
        match s.object(tree) {
            Err(e) => Err(e),
            Ok(ObjectView::Tree(es)) => match entry_named(es, ps[k as int]) {
                None => Ok(None),
                Some(e) => if k == ps.len() - 1 {
                    if is_file_mode(e.mode) {
                        Ok(Some(e.id))
                    } else {
                        Ok(None)
                    }
                } else if e.mode == EntryMode::Tree {
                    file_in_tree(s, e.id, ps, k + 1)
                } else {
                    Ok(None)
                },
            },
            Ok(_) => Ok(None),
        }
    }
}

/// The lines of a file of a commit: `None` if there is no such file, or why
/// an object cannot be read.
pub open spec fn file_lines(s: Store, commit: Seq<u8>, path: Seq<u8>) -> Result<
    Option<Seq<Seq<u8>>>,
    OdbErrorView,
> {
    match s.object(commit) {
        Err(e) => Err(e),
        Ok(ObjectView::Commit(c)) => match file_in_tree(s, c.tree, named_parts(parts(path)), 0) {
            Err(e) => Err(e),
            Ok(None) => Ok(None),
            Ok(Some(id)) => match s.object(id) {
                Err(e) => Err(e),
                Ok(ObjectView::Blob(data)) => Ok(Some(lines(data))),
                Ok(_) => Ok(None),
            },
        },
        Ok(_) => Ok(None),
    }
}

/// The parts of a path that are not empty.
fn split_named(path: &[u8]) -> (r: Vec<Vec<u8>>)
    ensures
        parts_view(r@) == named_parts(parts(path@)),
{
    let all = split_path(path);
    let ghost v = parts_view(all@);
    let mut out: Vec<Vec<u8>> = Vec::new();
    let mut i: usize = 0;
    assert(parts_view(out@) =~= named_parts(v.take(0)));
    while i < all.len()
        invariant
            i <= all@.len(),
            v == parts_view(all@),
            parts_view(out@) == named_parts(v.take(i as int)),
        decreases all.len() - i,
    {
        let ghost before = out@;
        proof {
            assert(v.take(i + 1).drop_last() =~= v.take(i as int));
            assert(v.take(i + 1).last() == all@[i as int]@);
        }
        if all[i].len() > 0 {
            let part = to_vec(&all[i]);
            out.push(part);
            assert(parts_view(out@) =~= parts_view(before).push(v[i as int]));
        }
        i += 1;
    }
    assert(v.take(i as int) =~= v);
    out
}

/// Finds the first entry with a name.
fn find_entry(tree: &Tree, name: &[u8]) -> (r: Option<(EntryMode, ObjectId)>)
    ensures
        match r {
            Some((mode, id)) => entry_named(tree@, name@) matches Some(e) && e.mode == mode && e.id
                == id@,
            None => entry_named(tree@, name@) is None,
        },
{
    let ghost v = tree@;
    let mut i: usize = 0;
    assert(v.skip(0) =~= v);
    while i < tree.entries.len()
        invariant
            i <= tree.entries@.len(),
            v == tree@,
            entry_named(v.skip(i as int), name@) == entry_named(v, name@),
        decreases tree.entries.len() - i,
    {
        let e = &tree.entries[i];
        proof {
            assert(v.skip(i as int)[0] == e@);
            assert(v.skip(i as int).drop_first() =~= v.skip(i + 1));
        }
        if same_bytes(&e.name, name) {
            return Some((e.mode, e.id));
        }
        i += 1;
    }
    None
}

/// Finds the file that the parts of a path lead to in a tree.
fn find_path_in_tree(repo: &Repository, tree: &ObjectId, ps: &Vec<Vec<u8>>) -> (r: Result<
    Option<ObjectId>,
    OdbError,
>)
    ensures
        match r {
            Ok(Some(id)) => file_in_tree(repo@.store(), tree@, parts_view(ps@), 0) == Ok::<
                _,
                OdbErrorView,
            >(Some(id@)),
            Ok(None) => file_in_tree(repo@.store(), tree@, parts_view(ps@), 0) == Ok::<
                Option<Seq<u8>>,
                OdbErrorView,
            >(None),
            Err(e) => file_in_tree(repo@.store(), tree@, parts_view(ps@), 0) == Err::<
                Option<Seq<u8>>,
                _,
            >(e@),
        },
{
    let ghost s = repo@.store();
    let ghost v = parts_view(ps@);
    let ghost goal = file_in_tree(s, tree@, v, 0);
    let mut current: ObjectId = *tree;
    let mut k: usize = 0;
    while k < ps.len()
        invariant
            k <= ps@.len(),
            s == repo@.store(),
            v == parts_view(ps@),
            goal == file_in_tree(s, tree@, v, 0),
            goal == file_in_tree(s, current@, v, k as nat),
        decreases ps.len() - k,
    {
        assert(v[k as int] == ps@[k as int]@);
        let t = match repo.read_object(&current) {
            Err(e) => return Err(e),
            Ok(Object::Tree(t)) => t,
            Ok(_) => return Ok(None),
        };
        let (mode, id) = match find_entry(&t, &ps[k]) {
            Some(x) => x,
            None => return Ok(None),
        };
        if k == ps.len() - 1 {
            return if mode == EntryMode::Regular || mode == EntryMode::Executable || mode
                == EntryMode::Symlink {
                Ok(Some(id))
            } else {
                Ok(None)
            };
        }
        if mode != EntryMode::Tree {
            return Ok(None);
        }
        current = id;
        k += 1;
    }
    Ok(None)
}

/// The lines of a list of byte strings.
pub open spec fn vecs_view(ls: Seq<Vec<u8>>) -> Seq<Seq<u8>> {
    ls.map_values(|l: Vec<u8>| l@)
}

/// Copies lines.
fn own_lines(ls: &Vec<&[u8]>) -> (r: Vec<Vec<u8>>)
    ensures
        vecs_view(r@) == lines_view(ls@),
{
    let mut out: Vec<Vec<u8>> = Vec::new();
    let mut i: usize = 0;
    assert(vecs_view(out@) =~= lines_view(ls@).take(0));
    while i < ls.len()
        invariant
            i <= ls@.len(),
            vecs_view(out@) == lines_view(ls@).take(i as int),
        decreases ls.len() - i,
    {
        let ghost before = out@;
        let line = to_vec(ls[i]);
        out.push(line);
        assert(vecs_view(out@) =~= vecs_view(before).push(ls@[i as int]@));
        assert(vecs_view(out@) =~= lines_view(ls@).take(i + 1));
        i += 1;
    }
    assert(vecs_view(out@) =~= lines_view(ls@));
    out
}

/// Borrows lines.
fn borrow_lines<'a>(ls: &'a Vec<Vec<u8>>) -> (r: Vec<&'a [u8]>)
    ensures
        lines_view(r@) == vecs_view(ls@),
{
    let mut out: Vec<&'a [u8]> = Vec::new();
    let mut i: usize = 0;
    assert(lines_view(out@) =~= vecs_view(ls@).take(0));
    while i < ls.len()
        invariant
            i <= ls@.len(),
            lines_view(out@) == vecs_view(ls@).take(i as int),
        decreases ls.len() - i,
    {
        let ghost before = out@;
        out.push(ls[i].as_slice());
        assert(lines_view(out@) =~= lines_view(before).push(ls@[i as int]@));
        assert(lines_view(out@) =~= vecs_view(ls@).take(i + 1));
        i += 1;
    }
    assert(lines_view(out@) =~= vecs_view(ls@));
    out
}

/// Reads the lines of a file of a commit.
fn read_file_at(repo: &Repository, commit: &ObjectId, path: &[u8]) -> (r: Result<
    Option<Vec<Vec<u8>>>,
    OdbError,
>)
    ensures
        match r {
            Ok(Some(ls)) => file_lines(repo@.store(), commit@, path@) == Ok::<_, OdbErrorView>(
                Some(vecs_view(ls@)),
            ),
            Ok(None) => file_lines(repo@.store(), commit@, path@) == Ok::<
                Option<Seq<Seq<u8>>>,
                OdbErrorView,
            >(None),
            Err(e) => file_lines(repo@.store(), commit@, path@) == Err::<
                Option<Seq<Seq<u8>>>,
                _,
            >(e@),
        },
{
    let c = match repo.read_object(commit) {
        Err(e) => return Err(e),
        Ok(Object::Commit(c)) => c,
        Ok(_) => return Ok(None),
    };
    let ps = split_named(path);
    let id = match find_path_in_tree(repo, &c.tree, &ps) {
        Err(e) => return Err(e),
        Ok(None) => return Ok(None),
        Ok(Some(id)) => id,
    };
    match repo.read_object(&id) {
        Err(e) => Err(e),
        Ok(Object::Blob(b)) => {
            let ls = split_lines(&b.data);
            Ok(Some(own_lines(&ls)))
        },
        Ok(_) => Ok(None),
    }
}

// ---------------------------------------------------------------------
// Attribution
// ---------------------------------------------------------------------

/// Which lines of the new side a script keeps from the old side.
pub open spec fn kept_marks(script: Seq<Change>) -> Seq<bool>
    decreases script.len(),
{
    if script.len() == 0 {
        Seq::empty()
    } else {
        match script.last() {
            Change::Same(_) => kept_marks(script.drop_last()).push(true),
            Change::Added(_) => kept_marks(script.drop_last()).push(false),
            Change::Removed(_) => kept_marks(script.drop_last()),
        }
    }
}

/// The lines that a script keeps.
pub open spec fn kept_lines(script: Seq<Change>) -> Seq<Seq<u8>>
    decreases script.len(),
{
    if script.len() == 0 {
        Seq::empty()
    } else {
        match script.last() {
            Change::Same(l) => kept_lines(script.drop_last()).push(l),
            _ => kept_lines(script.drop_last()),
        }
    }
}

/// How many of the marks are set.
pub open spec fn count_kept(marks: Seq<bool>) -> nat
    decreases marks.len(),
{
    if marks.len() == 0 {
        0
    } else if marks.last() {
        count_kept(marks.drop_last()) + 1
    } else {
        count_kept(marks.drop_last())
    }
}

/// The origins of lines of which some were kept from the parent: theirs are
/// those found in the parent, and `commit` is that of the others.
pub open spec fn merge_origins(marks: Seq<bool>, commit: Seq<u8>, parent: Seq<Seq<u8>>) -> Seq<
    Seq<u8>,
>
    decreases marks.len(),
{
    if marks.len() == 0 {
        Seq::empty()
    } else {
        let t = marks.drop_last();
        merge_origins(t, commit, parent).push(
            if marks.last() {
                parent[count_kept(t) as int]
            } else {
                commit
            },
        )
    }
}

/// The first parent of a commit and the file's lines there: `None` if there
/// is no parent or the parent has no such file, or why an object cannot be
/// read.
pub open spec fn parent_file(s: Store, commit: Seq<u8>, path: Seq<u8>) -> Result<
    Option<(Seq<u8>, Seq<Seq<u8>>)>,
    OdbErrorView,
> {
    match s.object(commit) {
        Err(e) => Err(e),
        Ok(ObjectView::Commit(c)) => if c.parents.len() == 0 {
            Ok(None)
        } else {
            match file_lines(s, c.parents[0], path) {
                Err(e) => Err(e),
                Ok(None) => Ok(None),
                Ok(Some(ls)) => Ok(Some((c.parents[0], ls))),
            }
        },
        Ok(_) => Ok(None),
    }
}

/// The commits that introduced some lines of a file at `commit`, or why an
/// object cannot be read. `fuel` bounds the number of commits.
pub open spec fn origins(
    s: Store,
    path: Seq<u8>,
    commit: Seq<u8>,
    current: Seq<Seq<u8>>,
    fuel: nat,
) -> Result<Seq<Seq<u8>>, OdbErrorView>
    decreases fuel,
{
    let all_here = Seq::new(current.len(), |i: int| commit);
    if current.len() == 0 {
        Ok(all_here)
    } else if fuel == 0 {
        Err(OdbErrorView::CyclicObjects(commit))
    } else {
        match parent_file(s, commit, path) {
            Err(e) => Err(e),
            Ok(None) => Ok(all_here),
            Ok(Some((p, before))) => {
                let script = edit_script(before, current);
                match origins(s, path, p, kept_lines(script), (fuel - 1) as nat) {
                    Err(e) => Err(e),
                    Ok(parent) => Ok(merge_origins(kept_marks(script), commit, parent)),
                }
            },
        }
    }
}

/// Each line of a file of a commit with the commit that introduced it, or
/// why that cannot be told.
pub open spec fn blamed(s: Store, path: Seq<char>, head: Seq<u8>) -> Result<
    Seq<(Seq<u8>, Seq<u8>)>,
    BlameErrorView,
> {
    let p = encode_utf8(path);
    match file_lines(s, head, p) {
        Err(e) => Err(BlameErrorView::Odb(e)),
        Ok(None) => Err(BlameErrorView::FileNotFound(path)),
        Ok(Some(ls)) => match origins(s, p, head, ls, object_bound(s)) {
            Err(e) => Err(BlameErrorView::Odb(e)),
            Ok(o) => Ok(Seq::new(ls.len(), |i: int| (o[i], ls[i]))),
        },
    }
}

/// One commit on the way back: which of its lines came from the parent.
struct Step {
    commit: ObjectId,
    marks: Vec<bool>,
}

/// The origins at the beginning of the way, given those at its end.
spec fn unwound(steps: Seq<Step>, o: Seq<Seq<u8>>) -> Seq<Seq<u8>>
    decreases steps.len(),
{
    if steps.len() == 0 {
        o
    } else {
        unwound(
            steps.drop_last(),
            merge_origins(steps.last().marks@, steps.last().commit@, o),
        )
    }
}

/// Whether every origin that is asked for is there.
spec fn steps_fit(steps: Seq<Step>, n: nat) -> bool
    decreases steps.len(),
{
    if steps.len() == 0 {
        true
    } else {
        count_kept(steps.last().marks@) == n && steps_fit(
            steps.drop_last(),
            steps.last().marks@.len(),
        )
    }
}

/// A script has a mark for each line of the new side, and a set one for
/// each kept line.
proof fn script_marks(script: Seq<Change>)
    ensures
        count_kept(kept_marks(script)) == kept_lines(script).len(),
        kept_marks(script).len() == crate::diff::laws::new_side(script).len(),
    decreases script.len(),
{
    if script.len() > 0 {
        let t = script.drop_last();
        script_marks(t);
        match script.last() {
            Change::Same(_) => {
                assert(kept_marks(t).push(true).drop_last() =~= kept_marks(t));
            },
            Change::Added(_) => {
                assert(kept_marks(t).push(false).drop_last() =~= kept_marks(t));
            },
            Change::Removed(_) => {},
        }
    }
}

/// Merging gives an origin for each mark.
proof fn merge_len(marks: Seq<bool>, commit: Seq<u8>, parent: Seq<Seq<u8>>)
    ensures
        merge_origins(marks, commit, parent).len() == marks.len(),
    decreases marks.len(),
{
    if marks.len() > 0 {
        merge_len(marks.drop_last(), commit, parent);
    }
}

/// There is an origin for each line.
pub proof fn origins_len(
    s: Store,
    path: Seq<u8>,
    commit: Seq<u8>,
    current: Seq<Seq<u8>>,
    fuel: nat,
)
    ensures
        origins(s, path, commit, current, fuel) matches Ok(o) ==> o.len() == current.len(),
    decreases fuel,
{
    if current.len() > 0 && fuel > 0 {
        if let Ok(Some((p, before))) = parent_file(s, commit, path) {
            let script = edit_script(before, current);
            crate::diff::laws::law_script(before, current);
            script_marks(script);
            if let Ok(parent) = origins(s, path, p, kept_lines(script), (fuel - 1) as nat) {
                merge_len(kept_marks(script), commit, parent);
            }
        }
    }
}

/// Splits a script into marks and kept lines.
fn split_script<'a>(script: &Vec<LineChange<'a>>) -> (r: (Vec<bool>, Vec<Vec<u8>>))
    ensures
        r.0@ == kept_marks(script_view(script@)),
        vecs_view(r.1@) == kept_lines(script_view(script@)),
{
    let ghost v = script_view(script@);
    let mut marks: Vec<bool> = Vec::new();
    let mut kept: Vec<Vec<u8>> = Vec::new();
    let mut i: usize = 0;
    assert(marks@ =~= kept_marks(v.take(0)));
    assert(vecs_view(kept@) =~= kept_lines(v.take(0)));
    while i < script.len()
        invariant
            i <= script@.len(),
            v == script_view(script@),
            marks@ == kept_marks(v.take(i as int)),
            vecs_view(kept@) == kept_lines(v.take(i as int)),
        decreases script.len() - i,
    {
        let ghost before = kept@;
        proof {
            assert(v.take(i + 1).drop_last() =~= v.take(i as int));
            assert(v.take(i + 1).last() == script@[i as int]@);
        }
        match &script[i] {
            LineChange::Same(l) => {
                marks.push(true);
                let line = to_vec(l);
                kept.push(line);
                assert(vecs_view(kept@) =~= vecs_view(before).push(l@));
            },
            LineChange::Added(_) => {
                marks.push(false);
            },
            LineChange::Removed(_) => {},
        }
        i += 1;
    }
    assert(v.take(i as int) =~= v);
    (marks, kept)
}

/// Merges the origins found in the parent with those of a commit.
fn merge_step(step: &Step, parent: &Vec<ObjectId>) -> (r: Vec<ObjectId>)
    requires
        count_kept(step.marks@) == parent@.len(),
    ensures
        ids_view(r@) == merge_origins(step.marks@, step.commit@, ids_view(parent@)),
{
    let ghost m = step.marks@;
    let ghost pv = ids_view(parent@);
    let mut out: Vec<ObjectId> = Vec::new();
    let mut used: usize = 0;
    let mut i: usize = 0;
    assert(ids_view(out@) =~= merge_origins(m.take(0), step.commit@, pv));
    while i < step.marks.len()
        invariant
            i <= step.marks@.len(),
            m == step.marks@,
            pv == ids_view(parent@),
            count_kept(m) == parent@.len(),
            used == count_kept(m.take(i as int)),
            ids_view(out@) == merge_origins(m.take(i as int), step.commit@, pv),
        decreases step.marks.len() - i,
    {
        let ghost before = out@;
        proof {
            assert(m.take(i + 1).drop_last() =~= m.take(i as int));
            assert(m.take(i + 1).last() == m[i as int]);
            count_kept_grows(m, i + 1);
            assert(parent.len() == parent@.len());
        }
        if step.marks[i] {
            let id: ObjectId = parent[used];
            out.push(id);
            assert(ids_view(out@) =~= ids_view(before).push(pv[used as int]));
            used += 1;
        } else {
            out.push(step.commit);
            assert(ids_view(out@) =~= ids_view(before).push(step.commit@));
        }
        i += 1;
    }
    assert(m.take(i as int) =~= m);
    out
}

/// More marks, no fewer set ones.
proof fn count_kept_grows(marks: Seq<bool>, k: int)
    requires
        0 <= k <= marks.len(),
    ensures
        count_kept(marks.take(k)) <= count_kept(marks),
    decreases marks.len(),
{
    if k < marks.len() {
        count_kept_grows(marks.drop_last(), k);
        assert(marks.drop_last().take(k) =~= marks.take(k));
    } else {
        assert(marks.take(k) =~= marks);
    }
}

/// `n` times the same commit.
fn all_from(commit: &ObjectId, n: usize) -> (r: Vec<ObjectId>)
    ensures
        ids_view(r@) == Seq::new(n as nat, |i: int| commit@),
{
    let mut out: Vec<ObjectId> = Vec::new();
    let mut i: usize = 0;
    while i < n
        invariant
            i <= n,
            ids_view(out@) == Seq::new(i as nat, |i: int| commit@),
        decreases n - i,
    {
        let ghost before = out@;
        out.push(*commit);
        assert(ids_view(out@) =~= ids_view(before).push(commit@));
        assert(ids_view(out@) =~= Seq::new((i + 1) as nat, |i: int| commit@));
        i += 1;
    }
    assert(ids_view(out@) =~= Seq::new(n as nat, |i: int| commit@));
    out
}

/// Goes back over the steps.
fn unwind(steps: Vec<Step>, found: Vec<ObjectId>) -> (r: Vec<ObjectId>)
    requires
        steps_fit(steps@, found@.len()),
    ensures
        ids_view(r@) == unwound(steps@, ids_view(found@)),
{
    let ghost goal = unwound(steps@, ids_view(found@));
    let mut steps = steps;
    let mut found = found;
    while steps.len() > 0
        invariant
            steps_fit(steps@, found@.len()),
            unwound(steps@, ids_view(found@)) == goal,
        decreases steps.len(),
    {
        let ghost before = steps@;
        match steps.pop() {
            Some(step) => {
                proof {
                    assert(before.last() == step);
                    assert(steps@ =~= before.drop_last());
                    merge_len(step.marks@, step.commit@, ids_view(found@));
                }
                found = merge_step(&step, &found);
                assert(ids_view(found@).len() == found@.len());
            },
            None => {},
        }
    }
    found
}

/// Reads the file at the first parent of a commit.
fn read_parent_file(repo: &Repository, commit: &ObjectId, path: &[u8]) -> (r: Result<
    Option<(ObjectId, Vec<Vec<u8>>)>,
    OdbError,
>)
    ensures
        match r {
            Ok(Some((p, ls))) => parent_file(repo@.store(), commit@, path@) == Ok::<
                _,
                OdbErrorView,
            >(Some((p@, vecs_view(ls@)))),
            Ok(None) => parent_file(repo@.store(), commit@, path@) == Ok::<
                Option<(Seq<u8>, Seq<Seq<u8>>)>,
                OdbErrorView,
            >(None),
            Err(e) => parent_file(repo@.store(), commit@, path@) == Err::<
                Option<(Seq<u8>, Seq<Seq<u8>>)>,
                _,
            >(e@),
        },
{
    let c = match repo.read_object(commit) {
        Err(e) => return Err(e),
        Ok(Object::Commit(c)) => c,
        Ok(_) => return Ok(None),
    };
    if c.parents.len() == 0 {
        return Ok(None);
    }
    let parent: ObjectId = c.parents[0];
    assert(c@.parents[0] == parent@);
    match read_file_at(repo, &parent, path) {
        Err(e) => Err(e),
        Ok(None) => Ok(None),
        Ok(Some(ls)) => Ok(Some((parent, ls))),
    }
}

/// Compares the parent's lines with those of a commit: which are kept.
fn compare_lines(before: &Vec<Vec<u8>>, current: &Vec<Vec<u8>>) -> (r: (Vec<bool>, Vec<Vec<u8>>))
    ensures
        ({
            let script = edit_script(vecs_view(before@), vecs_view(current@));
            &&& r.0@ == kept_marks(script)
            &&& vecs_view(r.1@) == kept_lines(script)
            &&& r.0@.len() == current@.len()
            &&& count_kept(r.0@) == r.1@.len()
        }),
{
    let before_refs = borrow_lines(before);
    let current_refs = borrow_lines(current);
    let script = diff_lines(&before_refs, &current_refs);
    let r = split_script(&script);
    proof {
        let sc = edit_script(vecs_view(before@), vecs_view(current@));
        crate::diff::laws::law_script(vecs_view(before@), vecs_view(current@));
        script_marks(sc);
        assert(vecs_view(r.1@).len() == r.1@.len());
        assert(vecs_view(current@).len() == current@.len());
    }
    r
}

/// The commits that introduced the lines of a file at a commit.
fn trace_lines(repo: &Repository, path: &[u8], head: &ObjectId, ls: &Vec<Vec<u8>>) -> (r: Result<
    Vec<ObjectId>,
    OdbError,
>)
    ensures
        match r {
            Ok(o) => origins(
                repo@.store(),
                path@,
                head@,
                vecs_view(ls@),
                object_bound(repo@.store()),
            ) == Ok::<_, OdbErrorView>(ids_view(o@)),
            Err(e) => origins(
                repo@.store(),
                path@,
                head@,
                vecs_view(ls@),
                object_bound(repo@.store()),
            ) == Err::<Seq<Seq<u8>>, _>(e@),
        },
{
    let ghost s = repo@.store();
    let mut fuel: usize = repo.object_bound();
    let ghost goal = origins(s, path@, head@, vecs_view(ls@), object_bound(repo@.store()));
    let mut steps: Vec<Step> = Vec::new();
    let mut commit: ObjectId = *head;
    let mut current: Vec<Vec<u8>> = copy_lines(ls);
    loop
        invariant
            s == repo@.store(),
            steps_fit(steps@, current@.len()),
            goal == origins(
                s,
                path@,
                head@,
                vecs_view(ls@),
                object_bound(repo@.store()),
            ),
            goal == match origins(s, path@, commit@, vecs_view(current@), fuel as nat) {
                Err(e) => Err::<Seq<Seq<u8>>, _>(e),
                Ok(o) => Ok::<_, OdbErrorView>(unwound(steps@, o)),
            },
        decreases fuel,
    {
        let n: usize = current.len();
        assert(vecs_view(current@).len() == n);
        if n > 0 && fuel == 0 {
            return Err(OdbError::CyclicObjects(commit));
        }
        let previous = if n == 0 {
            None
        } else {
            match read_parent_file(repo, &commit, path) {
                Err(e) => return Err(e),
                Ok(p) => p,
            }
        };
        let (parent, before) = match previous {
            Some(x) => x,
            None => {
                let found = all_from(&commit, n);
                assert(ids_view(found@).len() == found@.len());
                return Ok(unwind(steps, found));
            },
        };
        let (marks, kept) = compare_lines(&before, &current);
        let ghost old_steps = steps@;
        let step = Step { commit, marks };
        steps.push(step);
        proof {
            assert(steps@.drop_last() =~= old_steps);
            assert(steps@.last() == step);
        }
        current = kept;
        commit = parent;
        fuel -= 1;
    }
}

/// Copies lines.
fn copy_lines(ls: &Vec<Vec<u8>>) -> (r: Vec<Vec<u8>>)
    ensures
        vecs_view(r@) == vecs_view(ls@),
{
    let refs = borrow_lines(ls);
    own_lines(&refs)
}

impl Repository {
    /// Finds for each line of a file at a commit the commit that introduced
    /// it.
    pub fn blame(&self, path: &str, head_commit: &ObjectId) -> (r: Result<
        Vec<BlameLine>,
        BlameError,
    >)
        ensures
            match r {
                Ok(ls) => blamed(self@.store(), path@, head_commit@) == Ok::<_, BlameErrorView>(
                    blame_view(ls@),
                ),
                Err(e) => blamed(self@.store(), path@, head_commit@) == Err::<
                    Seq<(Seq<u8>, Seq<u8>)>,
                    _,
                >(e@),
            },
    {
        let p = path.as_bytes();
        let ls = match read_file_at(self, head_commit, p) {
            Err(e) => return Err(BlameError::Odb(e)),
            Ok(None) => return Err(BlameError::FileNotFound(path.to_owned())),
            Ok(Some(ls)) => ls,
        };
        let commits = match trace_lines(self, p, head_commit, &ls) {
            Err(e) => return Err(BlameError::Odb(e)),
            Ok(o) => o,
        };
        let ghost lv = vecs_view(ls@);
        let ghost ov = ids_view(commits@);
        let ghost goal = Seq::new(lv.len(), |i: int| (ov[i], lv[i]));
        proof {
            origins_len(
                self@.store(),
                p@,
                head_commit@,
                lv,
                object_bound(self@.store()),
            );
        }
        let mut out: Vec<BlameLine> = Vec::new();
        let mut i: usize = 0;
        assert(blame_view(out@) =~= goal.take(0));
        while i < ls.len()
            invariant
                i <= ls@.len(),
                ls@.len() == commits@.len(),
                lv == vecs_view(ls@),
                ov == ids_view(commits@),
                goal == Seq::new(lv.len(), |i: int| (ov[i], lv[i])),
                blame_view(out@) == goal.take(i as int),
            decreases ls.len() - i,
        {
            let ghost before = out@;
            let line = BlameLine { commit: commits[i], line: to_vec(&ls[i]) };
            out.push(line);
            assert(blame_view(out@) =~= blame_view(before).push((ov[i as int], lv[i as int])));
            assert(goal.take(i + 1) =~= goal.take(i as int).push(goal[i as int]));
            i += 1;
        }
        assert(goal.take(i as int) =~= goal);
        Ok(out)
    }
}

} // verus!
