//! How blame goes back from a commit to its first parent.

use vstd::prelude::*;
use vstd::utf8::encode_utf8;

use super::laws::{commits_ranked, first_parents_lead, on_the_way};
use super::{
    blamed, count_kept, entry_named, file_in_tree, file_lines, kept_lines, kept_marks,
    merge_origins, named_parts, origins, origins_len,
};
use crate::diff::laws::{law_lines_join, law_script, new_side, same_count};
use crate::diff::{edit_script, lines, Change};
use crate::object::{EntryMode, ObjectView, TreeEntryView};
use crate::odb::{OdbErrorView, Store};
use crate::treewalk::{object_bound, parts};

verus! {

// ---------------------------------------------------------------------
// Files
// ---------------------------------------------------------------------

/// Whether an entry is the first one with a name.
pub open spec fn first_named(es: Seq<TreeEntryView>, name: Seq<u8>, i: int) -> bool {
    &&& 0 <= i < es.len()
    &&& es[i].name == name
    &&& forall|j: int| 0 <= j < i ==> (#[trigger] es[j]).name != name
}

/// Whether the parts lead from a tree to a file: each part but the last names
/// a subtree, by the first entry of that name, and the last one a file or
/// link.
pub open spec fn leads_to_file(s: Store, tree: Seq<u8>, ps: Seq<Seq<u8>>, id: Seq<u8>) -> bool
    decreases ps.len(),
{
    ps.len() > 0 && (s.object(tree) matches Ok(ObjectView::Tree(es)) && exists|i: int| #[trigger]
        first_named(es, ps[0], i) && if ps.len() == 1 {
            es[i].mode != EntryMode::Tree && es[i].mode != EntryMode::Gitlink && es[i].id == id
        } else {
            es[i].mode == EntryMode::Tree && leads_to_file(s, es[i].id, ps.drop_first(), id)
        })
}

/// The first entry with a name.
proof fn entry_named_first(es: Seq<TreeEntryView>, name: Seq<u8>)
    ensures
        match entry_named(es, name) {
            Some(e) => exists|i: int| #[trigger] first_named(es, name, i) && es[i] == e,
            None => forall|i: int| !#[trigger] first_named(es, name, i),
        },
    decreases es.len(),
{
    if es.len() > 0 {
        let t = es.drop_first();
        if es[0].name == name {
            assert(first_named(es, name, 0));
        } else {
            entry_named_first(t, name);
            match entry_named(t, name) {
                Some(e) => {
                    let i = choose|i: int| #[trigger] first_named(t, name, i) && t[i] == e;
                    assert forall|j: int| 0 <= j < i + 1 implies (#[trigger] es[j]).name
                        != name by {
                        if j > 0 {
                            assert(es[j] == t[j - 1]);
                        }
                    }
                    assert(first_named(es, name, i + 1));
                },
                None => {
                    assert forall|i: int| !#[trigger] first_named(es, name, i) by {
                        if first_named(es, name, i) {
                            assert forall|j: int| 0 <= j < i - 1 implies (#[trigger] t[j]).name
                                != name by {
                                assert(t[j] == es[j + 1]);
                            }
                            assert(first_named(t, name, i - 1));
                        }
                    }
                },
            }
        }
    }
}

/// There is only one first entry.
proof fn first_named_one(es: Seq<TreeEntryView>, name: Seq<u8>, i: int, j: int)
    requires
        first_named(es, name, i),
        first_named(es, name, j),
    ensures
        i == j,
{
    if i < j {
        assert(es[i].name != name);
    } else if j < i {
        assert(es[j].name != name);
    }
}

/// What parts lead to, by the first entry.
proof fn leads_step(s: Store, tree: Seq<u8>, ps: Seq<Seq<u8>>, id: Seq<u8>, es: Seq<TreeEntryView>)
    requires
        ps.len() > 0,
        s.object(tree) == Ok::<ObjectView, OdbErrorView>(ObjectView::Tree(es)),
    ensures
        leads_to_file(s, tree, ps, id) <==> (entry_named(es, ps[0]) matches Some(e)
            && if ps.len() == 1 {
            e.mode != EntryMode::Tree && e.mode != EntryMode::Gitlink && e.id == id
        } else {
            e.mode == EntryMode::Tree && leads_to_file(s, e.id, ps.drop_first(), id)
        }),
{
    entry_named_first(es, ps[0]);
    if let Some(e) = entry_named(es, ps[0]) {
        let i = choose|i: int| #[trigger] first_named(es, ps[0], i) && es[i] == e;
        if leads_to_file(s, tree, ps, id) {
            let m = choose|m: int| #[trigger]
                first_named(es, ps[0], m) && if ps.len() == 1 {
                    es[m].mode != EntryMode::Tree && es[m].mode != EntryMode::Gitlink && es[m].id
                        == id
                } else {
                    es[m].mode == EntryMode::Tree && leads_to_file(s, es[m].id, ps.drop_first(), id)
                };
            first_named_one(es, ps[0], i, m);
        }
    }
}

/// The file that parts lead to is found.
proof fn file_found(s: Store, tree: Seq<u8>, ps: Seq<Seq<u8>>, k: nat, id: Seq<u8>)
    requires
        k <= ps.len(),
    ensures
        file_in_tree(s, tree, ps, k) == Ok::<_, OdbErrorView>(Some(id)) <==> leads_to_file(
            s,
            tree,
            ps.skip(k as int),
            id,
        ),
    decreases ps.len() - k,
{
    let rest = ps.skip(k as int);
    if k < ps.len() {
        assert(rest[0] == ps[k as int]);
        assert(rest.drop_first() =~= ps.skip((k + 1) as int));
        if let Ok(ObjectView::Tree(es)) = s.object(tree) {
            leads_step(s, tree, rest, id, es);
            if let Some(e) = entry_named(es, rest[0]) {
                if k + 1 < ps.len() {
                    file_found(s, e.id, ps, k + 1, id);
                }
            }
        }
    }
}

/// Law: the lines of a file of a commit are those of the blob that the parts
/// of the path lead to in the commit's tree; joined together they are its
/// contents.
pub proof fn law_file_lines(s: Store, commit: Seq<u8>, path: Seq<u8>, tree: Seq<u8>, id: Seq<u8>)
    requires
        s.object(commit) matches Ok(ObjectView::Commit(c)) && c.tree == tree,
    ensures
        leads_to_file(s, tree, named_parts(parts(path)), id) ==> match s.object(id) {
            Ok(ObjectView::Blob(data)) => file_lines(s, commit, path) == Ok::<_, OdbErrorView>(
                Some(lines(data)),
            ) && crate::diff::laws::joined(lines(data)) == data,
            Ok(_) => file_lines(s, commit, path) == Ok::<Option<Seq<Seq<u8>>>, OdbErrorView>(None),
            Err(e) => file_lines(s, commit, path) == Err::<Option<Seq<Seq<u8>>>, _>(e),
        },
        file_lines(s, commit, path) matches Ok(Some(ls)) ==> exists|b: Seq<u8>| #[trigger]
            leads_to_file(s, tree, named_parts(parts(path)), b) && (s.object(b) matches Ok(
                ObjectView::Blob(data),
            ) && ls == lines(data)),
{
    let ps = named_parts(parts(path));
    assert(ps.skip(0) =~= ps);
    file_found(s, tree, ps, 0, id);
    if let Ok(ObjectView::Blob(data)) = s.object(id) {
        law_lines_join(data);
    }
    if let Ok(Some(b)) = file_in_tree(s, tree, ps, 0) {
        file_found(s, tree, ps, 0, b);
    }
}

/// Law: the named parts of a path are its parts but the empty ones, in order.
pub proof fn law_named_parts(a: Seq<Seq<u8>>, b: Seq<Seq<u8>>, x: Seq<u8>)
    ensures
        named_parts(a + b) == named_parts(a) + named_parts(b),
        x.len() > 0 ==> named_parts(seq![x]) == seq![x],
        x.len() == 0 ==> named_parts(seq![x]) == Seq::<Seq<u8>>::empty(),
    decreases b.len(),
{
    reveal_with_fuel(named_parts, 2);
    assert(seq![x].drop_last() =~= Seq::<Seq<u8>>::empty());
    if x.len() > 0 {
        assert(Seq::<Seq<u8>>::empty().push(x) =~= seq![x]);
    }
    if b.len() == 0 {
        assert(a + b =~= a);
        assert(named_parts(a) + named_parts(b) =~= named_parts(a));
    } else {
        let t = b.drop_last();
        law_named_parts(a, t, x);
        assert((a + b).drop_last() =~= a + t);
        assert((a + b).last() == b.last());
        if b.last().len() > 0 {
            assert((named_parts(a) + named_parts(t)).push(b.last()) =~= named_parts(a)
                + named_parts(t).push(b.last()));
        }
    }
}

// ---------------------------------------------------------------------
// Origins
// ---------------------------------------------------------------------

/// Where the line of the `j`-th step of a script stands on the new side.
pub open spec fn new_place(script: Seq<Change>, j: int) -> int {
    new_side(script.take(j)).len() as int
}

/// How many lines a script keeps before its `j`-th step.
pub open spec fn kept_before(script: Seq<Change>, j: int) -> int {
    same_count(script.take(j)) as int
}

/// The line of a step.
pub open spec fn step_line(c: Change) -> Seq<u8> {
    match c {
        Change::Same(l) => l,
        Change::Removed(l) => l,
        Change::Added(l) => l,
    }
}

/// What the steps of a script say of the new side's lines.
proof fn marks_at(script: Seq<Change>, j: int)
    requires
        0 <= j < script.len(),
        !(script[j] is Removed),
    ensures
        kept_marks(script).len() == new_side(script).len(),
        count_kept(kept_marks(script)) == same_count(script),
        kept_lines(script).len() == same_count(script),
        0 <= new_place(script, j) < kept_marks(script).len(),
        kept_marks(script)[new_place(script, j)] == (script[j] is Same),
        new_side(script)[new_place(script, j)] == step_line(script[j]),
        count_kept(kept_marks(script).take(new_place(script, j))) == kept_before(script, j),
        script[j] is Same ==> kept_before(script, j) < kept_lines(script).len()
            && kept_lines(script)[kept_before(script, j)] == step_line(script[j]),
    decreases script.len(),
{
    let t = script.drop_last();
    marks_counts(script);
    marks_counts(t);
    let m = kept_marks(script);
    let mt = kept_marks(t);
    if j == script.len() - 1 {
        assert(script.take(j) =~= t);
        assert(m.take(mt.len() as int) =~= mt);
    } else {
        marks_at(t, j);
        assert(t.take(j) =~= script.take(j));
        let i = new_place(script, j);
        assert(m[i] == mt[i]);
        assert(m.take(i) =~= mt.take(i));
    }
}

/// The lengths of what a script says.
proof fn marks_counts(script: Seq<Change>)
    ensures
        kept_marks(script).len() == new_side(script).len(),
        count_kept(kept_marks(script)) == same_count(script),
        kept_lines(script).len() == same_count(script),
    decreases script.len(),
{
    if script.len() > 0 {
        let t = script.drop_last();
        marks_counts(t);
        assert(kept_marks(t).push(true).drop_last() =~= kept_marks(t));
        assert(kept_marks(t).push(false).drop_last() =~= kept_marks(t));
    }
}

/// The origin at each mark.
proof fn merged_at(marks: Seq<bool>, commit: Seq<u8>, parent: Seq<Seq<u8>>, i: int)
    requires
        0 <= i < marks.len(),
    ensures
        merge_origins(marks, commit, parent).len() == marks.len(),
        merge_origins(marks, commit, parent)[i] == if marks[i] {
            parent[count_kept(marks.take(i)) as int]
        } else {
            commit
        },
    decreases marks.len(),
{
    let t = marks.drop_last();
    merged_len(t, commit, parent);
    if i == marks.len() - 1 {
        assert(marks.take(i) =~= t);
    } else {
        merged_at(t, commit, parent, i);
        assert(t.take(i) =~= marks.take(i));
    }
}

/// There is an origin for each mark.
proof fn merged_len(marks: Seq<bool>, commit: Seq<u8>, parent: Seq<Seq<u8>>)
    ensures
        merge_origins(marks, commit, parent).len() == marks.len(),
    decreases marks.len(),
{
    if marks.len() > 0 {
        merged_len(marks.drop_last(), commit, parent);
    }
}

/// Whether a commit is a commit with a first parent whose tree has the file,
/// with the given lines.
pub open spec fn is_older(
    s: Store,
    commit: Seq<u8>,
    path: Seq<u8>,
    parent: Seq<u8>,
    before: Seq<Seq<u8>>,
) -> bool {
    &&& s.object(commit) matches Ok(ObjectView::Commit(c)) && c.parents.len() > 0 && c.parents[0]
        == parent
    &&& file_lines(s, parent, path) == Ok::<_, OdbErrorView>(Some(before))
}

/// Law: of some lines of a file at a commit whose first parent has the file,
/// those that the edit script from the parent's file adds were introduced by
/// the commit, and those that it keeps were introduced where the parent's
/// lines were.
pub proof fn law_origins_step(
    s: Store,
    path: Seq<u8>,
    commit: Seq<u8>,
    current: Seq<Seq<u8>>,
    fuel: nat,
    parent: Seq<u8>,
    before: Seq<Seq<u8>>,
)
    requires
        origins(s, path, commit, current, fuel) is Ok,
        current.len() > 0,
        is_older(s, commit, path, parent, before),
    ensures
        ({
            let o = origins(s, path, commit, current, fuel)->Ok_0;
            let script = edit_script(before, current);
            &&& forall|j: int|
                0 <= j < script.len() && (#[trigger] script[j]) is Added ==> o[new_place(
                    script,
                    j,
                )] == commit && current[new_place(script, j)] == step_line(script[j])
            &&& exists|kept: Seq<Seq<u8>>|
                {
                    let older = (#[trigger] origins(s, path, parent, kept, (fuel - 1) as nat))->Ok_0;
                    &&& origins(s, path, parent, kept, (fuel - 1) as nat) is Ok
                    &&& kept.len() == same_count(script)
                    &&& older.len() == kept.len()
                    &&& forall|j: int|
                        0 <= j < script.len() && (#[trigger] script[j]) is Same ==> {
                            &&& current[new_place(script, j)] == step_line(script[j])
                            &&& kept[kept_before(script, j)] == step_line(script[j])
                            &&& o[new_place(script, j)] == older[kept_before(script, j)]
                        }
                }
        }),
{
    let o = origins(s, path, commit, current, fuel)->Ok_0;
    let script = edit_script(before, current);
    law_script(before, current);
    marks_counts(script);
    let kept = kept_lines(script);
    let older = origins(s, path, parent, kept, (fuel - 1) as nat)->Ok_0;
    origins_len(s, path, parent, kept, (fuel - 1) as nat);
    assert(o == merge_origins(kept_marks(script), commit, older));
    assert forall|j: int| 0 <= j < script.len() && (#[trigger] script[j]) is Added implies o[new_place(
        script,
        j,
    )] == commit && current[new_place(script, j)] == step_line(script[j]) by {
        marks_at(script, j);
        merged_at(kept_marks(script), commit, older, new_place(script, j));
    }
    assert forall|j: int| 0 <= j < script.len() && (#[trigger] script[j]) is Same implies {
        &&& current[new_place(script, j)] == step_line(script[j])
        &&& kept[kept_before(script, j)] == step_line(script[j])
        &&& o[new_place(script, j)] == older[kept_before(script, j)]
    } by {
        marks_at(script, j);
        merged_at(kept_marks(script), commit, older, new_place(script, j));
    }
    assert(origins(s, path, parent, kept, (fuel - 1) as nat) is Ok);
}

/// Law: where a commit has no parent, or its first parent has no such file,
/// all lines were introduced by the commit.
pub proof fn law_origins_end(
    s: Store,
    path: Seq<u8>,
    commit: Seq<u8>,
    current: Seq<Seq<u8>>,
    fuel: nat,
    i: int,
)
    requires
        origins(s, path, commit, current, fuel) is Ok,
        0 <= i < current.len(),
        s.object(commit) matches Ok(ObjectView::Commit(c)) ==> c.parents.len() == 0 || file_lines(
            s,
            c.parents[0],
            path,
        ) == Ok::<Option<Seq<Seq<u8>>>, OdbErrorView>(None),
    ensures
        origins(s, path, commit, current, fuel)->Ok_0[i] == commit,
{
}

/// Law: blame gives the lines of the head's file with their origins, and finds
/// no file just where the head has none.
pub proof fn law_blame_origins(s: Store, path: Seq<char>, head: Seq<u8>)
    ensures
        match file_lines(s, head, encode_utf8(path)) {
            Ok(Some(ls)) => match origins(s, encode_utf8(path), head, ls, object_bound(s)) {
                Ok(o) => blamed(s, path, head) matches Ok(b) && b.len() == ls.len() && b.len()
                    == o.len() && forall|i: int| 0 <= i < b.len() ==> #[trigger] b[i] == (o[i], ls[i]),
                Err(e) => blamed(s, path, head) == Err::<
                    Seq<(Seq<u8>, Seq<u8>)>,
                    super::BlameErrorView,
                >(super::BlameErrorView::Odb(e)),
            },
            Ok(None) => blamed(s, path, head) == Err::<
                Seq<(Seq<u8>, Seq<u8>)>,
                super::BlameErrorView,
            >(super::BlameErrorView::FileNotFound(path)),
            Err(e) => blamed(s, path, head) == Err::<
                Seq<(Seq<u8>, Seq<u8>)>,
                super::BlameErrorView,
            >(super::BlameErrorView::Odb(e)),
        },
{
    if let Ok(Some(ls)) = file_lines(s, head, encode_utf8(path)) {
        origins_len(s, encode_utf8(path), head, ls, object_bound(s));
    }
}

/// Law: blame names the head for a line that the edit script from the first
/// parent's file adds, and for a line that it keeps a commit that the first
/// parent leads back to.
pub proof fn law_blame_step(
    s: Store,
    path: Seq<char>,
    head: Seq<u8>,
    parent: Seq<u8>,
    before: Seq<Seq<u8>>,
    j: int,
)
    requires
        blamed(s, path, head) is Ok,
        is_older(s, head, encode_utf8(path), parent, before),
        0 <= j < edit_script(
            before,
            file_lines(s, head, encode_utf8(path))->Ok_0->0,
        ).len(),
    ensures
        ({
            let ls = file_lines(s, head, encode_utf8(path))->Ok_0->0;
            let script = edit_script(before, ls);
            let b = blamed(s, path, head)->Ok_0;
            &&& script[j] is Added ==> b[new_place(script, j)].0 == head
            &&& script[j] is Same ==> on_the_way(s, parent, b[new_place(script, j)].0)
            &&& !(script[j] is Removed) ==> b[new_place(script, j)].1 == step_line(script[j])
        }),
{
    let p = encode_utf8(path);
    let ls = file_lines(s, head, p)->Ok_0->0;
    let script = edit_script(before, ls);
    let fuel = object_bound(s);
    law_blame_origins(s, path, head);
    if !(script[j] is Removed) {
        marks_at(script, j);
        law_script(before, ls);
        law_origins_step(s, p, head, ls, fuel, parent, before);
        if script[j] is Same {
            let o = origins(s, p, head, ls, fuel)->Ok_0;
            let kept = choose|kept: Seq<Seq<u8>>|
                {
                    let older = (#[trigger] origins(s, p, parent, kept, (fuel - 1) as nat))->Ok_0;
                    &&& origins(s, p, parent, kept, (fuel - 1) as nat) is Ok
                    &&& kept.len() == same_count(script)
                    &&& older.len() == kept.len()
                    &&& forall|j: int|
                        0 <= j < script.len() && (#[trigger] script[j]) is Same ==> {
                            &&& ls[new_place(script, j)] == step_line(script[j])
                            &&& kept[kept_before(script, j)] == step_line(script[j])
                            &&& o[new_place(script, j)] == older[kept_before(script, j)]
                        }
                };
            super::laws::origins_on_the_way(
                s,
                p,
                parent,
                kept,
                (fuel - 1) as nat,
                kept_before(script, j),
            );
        }
    }
}

/// A first parent that is led back to has no higher rank.
proof fn rank_falls(
    s: Store,
    rank: spec_fn(Seq<u8>) -> nat,
    a: Seq<u8>,
    b: Seq<u8>,
    n: nat,
)
    requires
        commits_ranked(s, rank),
        first_parents_lead(s, a, b, n),
    ensures
        rank(b) <= rank(a),
    decreases n,
{
    if n > 0 {
        if let Ok(ObjectView::Commit(c)) = s.object(a) {
            rank_falls(s, rank, c.parents[0], b, (n - 1) as nat);
        }
    }
}

/// Law: where no commit is its own ancestor, blame names the head for a line
/// of its file if and only if the head has no parent, or its first parent has
/// no such file, or the edit script from that file adds the line.
pub proof fn law_blamed_on_head(
    s: Store,
    path: Seq<char>,
    head: Seq<u8>,
    parent: Seq<u8>,
    before: Seq<Seq<u8>>,
    rank: spec_fn(Seq<u8>) -> nat,
    j: int,
)
    requires
        blamed(s, path, head) is Ok,
        commits_ranked(s, rank),
        is_older(s, head, encode_utf8(path), parent, before),
        0 <= j < edit_script(
            before,
            file_lines(s, head, encode_utf8(path))->Ok_0->0,
        ).len(),
    ensures
        ({
            let script = edit_script(before, file_lines(s, head, encode_utf8(path))->Ok_0->0);
            !(script[j] is Removed) ==> (blamed(s, path, head)->Ok_0[new_place(script, j)].0 == head
                <==> script[j] is Added)
        }),
{
    law_blame_step(s, path, head, parent, before, j);
    let script = edit_script(before, file_lines(s, head, encode_utf8(path))->Ok_0->0);
    let b = blamed(s, path, head)->Ok_0;
    if script[j] is Same {
        let x = b[new_place(script, j)].0;
        let n = choose|n: nat| first_parents_lead(s, parent, x, n);
        rank_falls(s, rank, parent, x, n);
        assert(s.object(head) is Ok);
    }
}

/// Each line of the new side comes from a step.
proof fn step_at(script: Seq<Change>, i: int) -> (k: int)
    requires
        0 <= i < new_side(script).len(),
    ensures
        0 <= k < script.len(),
        !(script[k] is Removed),
        new_place(script, k) == i,
    decreases script.len(),
{
    let t = script.drop_last();
    let n = script.len() - 1;
    if i < new_side(t).len() {
        let k = step_at(t, i);
        assert(t.take(k) =~= script.take(k));
        assert(script[k] == t[k]);
        k
    } else {
        assert(script.take(n) =~= t);
        n
    }
}

/// Whether a line among some lines of a file at a commit is the commit's own:
/// the commit has no parent, or its first parent has no such file, or the edit
/// script from that file adds the line.
pub open spec fn introduces(
    s: Store,
    path: Seq<u8>,
    commit: Seq<u8>,
    current: Seq<Seq<u8>>,
    i: int,
) -> bool {
    &&& 0 <= i < current.len()
    &&& forall|parent: Seq<u8>, before: Seq<Seq<u8>>| #[trigger]
        is_older(s, commit, path, parent, before) ==> exists|k: int|
            0 <= k < edit_script(before, current).len() && (#[trigger] edit_script(
                before,
                current,
            )[k]) is Added && new_place(edit_script(before, current), k) == i
}

/// Law: the commit that is found for a line has introduced it: among the lines
/// that were followed back to that commit, it is one of the commit's own.
pub proof fn law_origin_introduces(
    s: Store,
    path: Seq<u8>,
    commit: Seq<u8>,
    current: Seq<Seq<u8>>,
    fuel: nat,
    i: int,
)
    requires
        origins(s, path, commit, current, fuel) is Ok,
        0 <= i < current.len(),
    ensures
        exists|followed: Seq<Seq<u8>>, j: int| #[trigger]
            introduces(s, path, origins(s, path, commit, current, fuel)->Ok_0[i], followed, j)
                && followed[j] == current[i],
    decreases fuel,
{
    let o = origins(s, path, commit, current, fuel)->Ok_0;
    if exists|parent: Seq<u8>, before: Seq<Seq<u8>>| #[trigger]
        is_older(s, commit, path, parent, before) {
        let (parent, before) = choose|parent: Seq<u8>, before: Seq<Seq<u8>>| #[trigger]
            is_older(s, commit, path, parent, before);
        let script = edit_script(before, current);
        law_script(before, current);
        let k = step_at(script, i);
        marks_at(script, k);
        law_origins_step(s, path, commit, current, fuel, parent, before);
        if script[k] is Added {
            assert(o[i] == commit);
            assert(introduces(s, path, commit, current, i)) by {
                assert forall|p: Seq<u8>, b: Seq<Seq<u8>>| #[trigger]
                    is_older(s, commit, path, p, b) implies exists|k: int|
                    0 <= k < edit_script(b, current).len() && (#[trigger] edit_script(
                        b,
                        current,
                    )[k]) is Added && new_place(edit_script(b, current), k) == i by {
                    assert(b == before);
                    assert(edit_script(b, current)[k] is Added);
                }
            }
        } else {
            let kept = choose|kept: Seq<Seq<u8>>|
                {
                    let older = (#[trigger] origins(
                        s,
                        path,
                        parent,
                        kept,
                        (fuel - 1) as nat,
                    ))->Ok_0;
                    &&& origins(s, path, parent, kept, (fuel - 1) as nat) is Ok
                    &&& kept.len() == same_count(script)
                    &&& older.len() == kept.len()
                    &&& forall|j: int|
                        0 <= j < script.len() && (#[trigger] script[j]) is Same ==> {
                            &&& current[new_place(script, j)] == step_line(script[j])
                            &&& kept[kept_before(script, j)] == step_line(script[j])
                            &&& o[new_place(script, j)] == older[kept_before(script, j)]
                        }
                };
            let m = kept_before(script, k);
            assert(script[k] is Same);
            law_origin_introduces(s, path, parent, kept, (fuel - 1) as nat, m);
        }
    } else {
        assert(o[i] == commit) by {
            if let Ok(ObjectView::Commit(c)) = s.object(commit) {
                if c.parents.len() > 0 {
                    match file_lines(s, c.parents[0], path) {
                        Ok(Some(ls)) => {
                            assert(is_older(s, commit, path, c.parents[0], ls));
                        },
                        _ => {},
                    }
                }
            }
            law_origins_end(s, path, commit, current, fuel, i);
        }
        assert(introduces(s, path, commit, current, i));
    }
}

/// What a line of a blame is made of.
proof fn blamed_lines(s: Store, path: Seq<char>, head: Seq<u8>, i: int) -> (r: (
    Seq<Seq<u8>>,
    Seq<Seq<u8>>,
))
    requires
        blamed(s, path, head) is Ok,
        0 <= i < blamed(s, path, head)->Ok_0.len(),
    ensures
        origins(s, encode_utf8(path), head, r.0, object_bound(s)) == Ok::<_, OdbErrorView>(r.1),
        i < r.0.len(),
        blamed(s, path, head)->Ok_0[i] == (r.1[i], r.0[i]),
{
    let p = encode_utf8(path);
    law_blame_origins(s, path, head);
    let ls = file_lines(s, head, p)->Ok_0->0;
    let b = blamed(s, path, head)->Ok_0;
    let o = origins(s, p, head, ls, object_bound(s))->Ok_0;
    assert(b[i] == (o[i], ls[i]));
    (ls, o)
}

/// Law: the commit that blame names for a line has introduced it: it has no
/// parent, or its first parent has no such file, or the edit script from the
/// first parent's file to the lines that were followed back to it adds the
/// line.
pub proof fn law_blame_introduces(s: Store, path: Seq<char>, head: Seq<u8>, i: int)
    requires
        blamed(s, path, head) is Ok,
        0 <= i < blamed(s, path, head)->Ok_0.len(),
    ensures
        exists|followed: Seq<Seq<u8>>, j: int| #[trigger]
            introduces(s, encode_utf8(path), blamed(s, path, head)->Ok_0[i].0, followed, j)
                && followed[j] == blamed(s, path, head)->Ok_0[i].1,
{
    let p = encode_utf8(path);
    let b = blamed(s, path, head)->Ok_0;
    let (ls, o) = blamed_lines(s, path, head, i);
    let x = b[i].0;
    assert(x == o[i] && b[i].1 == ls[i]);
    law_origin_introduces(s, p, head, ls, object_bound(s), i);
    let (followed, j) = choose|followed: Seq<Seq<u8>>, j: int| #[trigger]
        introduces(s, p, o[i], followed, j) && followed[j] == ls[i];
    assert(introduces(s, p, x, followed, j) && followed[j] == b[i].1);
}

/// Law: the origins of some lines can be told where there is no older file, and
/// where there is one and the origins of the lines that are kept can be told.
pub proof fn law_origins_told(
    s: Store,
    path: Seq<u8>,
    commit: Seq<u8>,
    current: Seq<Seq<u8>>,
    fuel: nat,
    parent: Seq<u8>,
    before: Seq<Seq<u8>>,
)
    requires
        fuel > 0,
    ensures
        s.object(commit) matches Ok(ObjectView::Commit(c)) ==> (c.parents.len() == 0 || file_lines(
            s,
            c.parents[0],
            path,
        ) == Ok::<Option<Seq<Seq<u8>>>, OdbErrorView>(None)) ==> origins(
            s,
            path,
            commit,
            current,
            fuel,
        ) is Ok,
        is_older(s, commit, path, parent, before) && origins(
            s,
            path,
            parent,
            kept_lines(edit_script(before, current)),
            (fuel - 1) as nat,
        ) is Ok ==> origins(s, path, commit, current, fuel) is Ok,
{
}

} // verus!
