//! What blame promises.

use vstd::prelude::*;
use vstd::utf8::encode_utf8;

use super::{
    blamed, count_kept, entry_named, file_in_tree, file_lines, kept_lines, kept_marks,
    merge_origins, named_parts, origins, origins_len, parent_file, BlameErrorView,
};
use crate::diff::laws::{law_script, new_side, old_side};
use crate::diff::{edit_script, Change};
use crate::object::ObjectView;
use crate::odb::Store;
use crate::treewalk::laws::{
    countable, law_stored_ids, readable, readable_bound, reading_finds_no_cycle,
};
use crate::treewalk::{object_bound, parts};

verus! {

/// Law: blame gives the lines of the file, all of them and in their order.
pub proof fn law_blame_lines(s: Store, path: Seq<char>, head: Seq<u8>)
    requires
        blamed(s, path, head) is Ok,
    ensures
        ({
            let ls = file_lines(s, head, encode_utf8(path))->Ok_0->0;
            let b = blamed(s, path, head)->Ok_0;
            &&& b.len() == ls.len()
            &&& forall|i: int| 0 <= i < b.len() ==> (#[trigger] b[i]).1 == ls[i]
        }),
{
}

/// Whether the file at a commit has the line.
pub open spec fn has_line(s: Store, commit: Seq<u8>, path: Seq<u8>, line: Seq<u8>) -> bool {
    file_lines(s, commit, path) matches Ok(Some(ls)) && ls.contains(line)
}

/// Kept lines are lines of the old side, and stand among the new side's at
/// the set marks.
proof fn kept_lines_old(script: Seq<Change>)
    ensures
        forall|i: int|
            0 <= i < kept_lines(script).len() ==> old_side(script).contains(
                #[trigger] kept_lines(script)[i],
            ),
        kept_marks(script).len() == new_side(script).len(),
        count_kept(kept_marks(script)) == kept_lines(script).len(),
    decreases script.len(),
{
    if script.len() > 0 {
        let t = script.drop_last();
        kept_lines_old(t);
        let k = kept_lines(script);
        match script.last() {
            Change::Same(l) => {
                assert(kept_marks(t).push(true).drop_last() =~= kept_marks(t));
                let o = old_side(script);
                assert forall|i: int| 0 <= i < k.len() implies o.contains(#[trigger] k[i]) by {
                    if i < kept_lines(t).len() {
                        assert(k[i] == kept_lines(t)[i]);
                        assert(old_side(t).contains(kept_lines(t)[i]));
                        let j = choose|j: int|
                            0 <= j < old_side(t).len() && old_side(t)[j] == kept_lines(t)[i];
                        assert(o[j] == k[i]);
                    } else {
                        assert(o[o.len() - 1] == l);
                    }
                }
            },
            Change::Added(_) => {
                assert(kept_marks(t).push(false).drop_last() =~= kept_marks(t));
            },
            Change::Removed(l) => {
                let o = old_side(script);
                assert forall|i: int| 0 <= i < k.len() implies o.contains(#[trigger] k[i]) by {
                    assert(old_side(t).contains(kept_lines(t)[i]));
                    let j = choose|j: int|
                        0 <= j < old_side(t).len() && old_side(t)[j] == kept_lines(t)[i];
                    assert(o[j] == k[i]);
                }
            },
        }
    }
}

/// The origin of a line that was kept is that found for it in the parent;
/// that of another is the commit.
proof fn merged_origin(script: Seq<Change>, commit: Seq<u8>, parent: Seq<Seq<u8>>, i: int)
    requires
        0 <= i < kept_marks(script).len(),
        parent.len() == kept_lines(script).len(),
    ensures
        ({
            let o = merge_origins(kept_marks(script), commit, parent);
            &&& o.len() == kept_marks(script).len()
            &&& o[i] == commit || exists|k: int|
                0 <= k < parent.len() && o[i] == #[trigger] parent[k] && kept_lines(script)[k]
                    == new_side(script)[i]
        }),
    decreases script.len(),
{
    let t = script.drop_last();
    let marks = kept_marks(script);
    let o = merge_origins(marks, commit, parent);
    kept_lines_old(t);
    kept_lines_old(script);
    match script.last() {
        Change::Removed(_) => {
            merged_origin(t, commit, parent, i);
        },
        Change::Same(l) => {
            let mt = kept_marks(t);
            assert(mt.push(true).drop_last() =~= mt);
            let front = parent.drop_last();
            merge_prefix(mt, commit, parent, front);
            if i < mt.len() {
                merged_origin(t, commit, front, i);
                let ot = merge_origins(mt, commit, front);
                assert(o[i] == ot[i]);
                if ot[i] != commit {
                    let k = choose|k: int|
                        0 <= k < front.len() && ot[i] == #[trigger] front[k] && kept_lines(t)[k]
                            == new_side(t)[i];
                    assert(parent[k] == front[k]);
                }
            } else {
                let k = count_kept(mt) as int;
                merge_len_is(mt, commit, parent);
                assert(o[i] == parent[k]);
                assert(kept_lines(script)[k] == l);
                assert(new_side(script)[i] == l);
            }
        },
        Change::Added(l) => {
            let mt = kept_marks(t);
            assert(mt.push(false).drop_last() =~= mt);
            merge_len_is(mt, commit, parent);
            if i < mt.len() {
                merged_origin(t, commit, parent, i);
                let ot = merge_origins(mt, commit, parent);
                assert(o[i] == ot[i]);
                if ot[i] != commit {
                    let k = choose|k: int|
                        0 <= k < parent.len() && ot[i] == #[trigger] parent[k] && kept_lines(t)[k]
                            == new_side(t)[i];
                    assert(parent[k] == o[i]);
                }
            }
        },
    }
}

/// Merging gives an origin for each mark.
proof fn merge_len_is(marks: Seq<bool>, commit: Seq<u8>, parent: Seq<Seq<u8>>)
    ensures
        merge_origins(marks, commit, parent).len() == marks.len(),
    decreases marks.len(),
{
    if marks.len() > 0 {
        merge_len_is(marks.drop_last(), commit, parent);
    }
}

/// Merging uses only as many origins as there are set marks.
proof fn merge_prefix(marks: Seq<bool>, commit: Seq<u8>, a: Seq<Seq<u8>>, b: Seq<Seq<u8>>)
    requires
        count_kept(marks) <= a.len(),
        count_kept(marks) <= b.len(),
        forall|k: int| 0 <= k < count_kept(marks) ==> a[k] == b[k],
    ensures
        merge_origins(marks, commit, a) == merge_origins(marks, commit, b),
        merge_origins(marks, commit, a).len() == marks.len(),
    decreases marks.len(),
{
    if marks.len() > 0 {
        merge_prefix(marks.drop_last(), commit, a, b);
    }
}

/// Each line stands in the file of the commit it is attributed to.
proof fn origins_have_lines(
    s: Store,
    path: Seq<u8>,
    commit: Seq<u8>,
    current: Seq<Seq<u8>>,
    fuel: nat,
)
    requires
        forall|i: int| 0 <= i < current.len() ==> has_line(s, commit, path, #[trigger] current[i]),
        origins(s, path, commit, current, fuel) is Ok,
    ensures
        ({
            let o = origins(s, path, commit, current, fuel)->Ok_0;
            &&& o.len() == current.len()
            &&& forall|i: int|
                0 <= i < current.len() ==> has_line(s, #[trigger] o[i], path, current[i])
        }),
    decreases fuel,
{
    origins_len(s, path, commit, current, fuel);
    let o = origins(s, path, commit, current, fuel)->Ok_0;
    if current.len() > 0 {
        if let Ok(Some((p, before))) = parent_file(s, commit, path) {
            let script = edit_script(before, current);
            law_script(before, current);
            kept_lines_old(script);
            let kept = kept_lines(script);
            assert forall|i: int| 0 <= i < kept.len() implies has_line(
                s,
                p,
                path,
                #[trigger] kept[i],
            ) by {
                assert(old_side(script).contains(kept[i]));
            }
            origins_have_lines(s, path, p, kept, (fuel - 1) as nat);
            let parent = origins(s, path, p, kept, (fuel - 1) as nat)->Ok_0;
            assert forall|i: int| 0 <= i < current.len() implies has_line(
                s,
                #[trigger] o[i],
                path,
                current[i],
            ) by {
                merged_origin(script, commit, parent, i);
                assert(has_line(s, commit, path, current[i]));
                if o[i] != commit {
                    let k = choose|k: int|
                        0 <= k < parent.len() && o[i] == #[trigger] parent[k] && kept[k]
                            == new_side(script)[i];
                    assert(has_line(s, parent[k], path, kept[k]));
                }
            }
        }
        assert forall|i: int| 0 <= i < current.len() implies has_line(
            s,
            #[trigger] o[i],
            path,
            current[i],
        ) by {
            assert(has_line(s, commit, path, current[i]));
        }
    }
}

/// Law: each line stands in the file of the commit that blame names for it.
pub proof fn law_blamed_commit_has_line(s: Store, path: Seq<char>, head: Seq<u8>, i: int)
    requires
        blamed(s, path, head) is Ok,
        0 <= i < blamed(s, path, head)->Ok_0.len(),
    ensures
        has_line(
            s,
            blamed(s, path, head)->Ok_0[i].0,
            encode_utf8(path),
            blamed(s, path, head)->Ok_0[i].1,
        ),
{
    let p = encode_utf8(path);
    let ls = file_lines(s, head, p)->Ok_0->0;
    assert forall|k: int| 0 <= k < ls.len() implies has_line(s, head, p, #[trigger] ls[k]) by {
        assert(ls.contains(ls[k]));
    }
    origins_have_lines(s, p, head, ls, object_bound(s));
    let o = origins(s, p, head, ls, object_bound(s))->Ok_0;
    assert(has_line(s, o[i], p, ls[i]));
}

/// Whether first parents lead from `a` to `b` in `n` steps.
pub open spec fn first_parents_lead(s: Store, a: Seq<u8>, b: Seq<u8>, n: nat) -> bool
    decreases n,
{
    if n == 0 {
        a == b
    } else {
        match s.object(a) {
            Ok(ObjectView::Commit(c)) => c.parents.len() > 0 && first_parents_lead(
                s,
                c.parents[0],
                b,
                (n - 1) as nat,
            ),
            _ => false,
        }
    }
}

/// Whether `b` is `a` or lies behind it on the way back along first
/// parents.
pub open spec fn on_the_way(s: Store, a: Seq<u8>, b: Seq<u8>) -> bool {
    exists|n: nat| first_parents_lead(s, a, b, n)
}

/// What lies behind a first parent lies behind the commit.
proof fn one_step_back(s: Store, commit: Seq<u8>, parent: Seq<u8>, b: Seq<u8>)
    requires
        on_the_way(s, parent, b),
        s.object(commit) matches Ok(ObjectView::Commit(c)) && c.parents.len() > 0 && c.parents[0]
            == parent,
    ensures
        on_the_way(s, commit, b),
{
    let n = choose|n: nat| first_parents_lead(s, parent, b, n);
    assert(first_parents_lead(s, commit, b, n + 1));
}

/// Origins lie on the way back.
#[verifier::spinoff_prover]
pub proof fn origins_on_the_way(
    s: Store,
    path: Seq<u8>,
    commit: Seq<u8>,
    current: Seq<Seq<u8>>,
    fuel: nat,
    i: int,
)
    requires
        origins(s, path, commit, current, fuel) is Ok,
        0 <= i < current.len(),
    ensures
        0 <= i < origins(s, path, commit, current, fuel)->Ok_0.len(),
        on_the_way(s, commit, origins(s, path, commit, current, fuel)->Ok_0[i]),
    decreases fuel,
{
    origins_len(s, path, commit, current, fuel);
    assert(on_the_way(s, commit, commit)) by {
        assert(first_parents_lead(s, commit, commit, 0));
    }
    let r = origins(s, path, commit, current, fuel)->Ok_0;
    if r[i] != commit {
        if let Ok(Some((p, before))) = parent_file(s, commit, path) {
            let script = edit_script(before, current);
            let kept = kept_lines(script);
            let o = origins(s, path, p, kept, (fuel - 1) as nat)->Ok_0;
            law_script(before, current);
            kept_lines_old(script);
            origins_len(s, path, p, kept, (fuel - 1) as nat);
            merged_origin(script, commit, o, i);
            let k = choose|k: int|
                0 <= k < o.len() && r[i] == #[trigger] o[k] && kept[k] == new_side(script)[i];
            origins_on_the_way(s, path, p, kept, (fuel - 1) as nat, k);
            one_step_back(s, commit, p, r[i]);
        }
    }
}

/// Law: the commit that blame names for a line lies on the way back from
/// the head along first parents.
pub proof fn law_blamed_commit_on_the_way(s: Store, path: Seq<char>, head: Seq<u8>, i: int)
    requires
        blamed(s, path, head) is Ok,
        0 <= i < blamed(s, path, head)->Ok_0.len(),
    ensures
        on_the_way(s, head, blamed(s, path, head)->Ok_0[i].0),
{
    let p = encode_utf8(path);
    let ls = file_lines(s, head, p)->Ok_0->0;
    origins_on_the_way(s, p, head, ls, object_bound(s), i);
}

/// Whether `rank` is smaller for each first parent than for its commit, so
/// that no commit is its own ancestor that way.
pub open spec fn commits_ranked(s: Store, rank: spec_fn(Seq<u8>) -> nat) -> bool {
    forall|id: Seq<u8>| #[trigger]
        s.object(id) matches Ok(ObjectView::Commit(c)) ==> c.parents.len() > 0 ==> rank(
            c.parents[0],
        ) < rank(id)
}

/// Looking for a file alone finds no cycle.
proof fn tree_lookup_ends(s: Store, tree: Seq<u8>, ps: Seq<Seq<u8>>, k: nat)
    ensures
        file_in_tree(s, tree, ps, k) matches Err(e) ==> e !is CyclicObjects,
    decreases ps.len() - k,
{
    reading_finds_no_cycle(s, tree);
    if k < ps.len() {
        match s.object(tree) {
            Ok(ObjectView::Tree(es)) => match entry_named(es, ps[k as int]) {
                Some(e) => {
                    tree_lookup_ends(s, e.id, ps, k + 1);
                },
                None => {},
            },
            _ => {},
        }
    }
}

/// Reading a file's lines alone finds no cycle.
proof fn file_lines_end(s: Store, commit: Seq<u8>, path: Seq<u8>)
    ensures
        file_lines(s, commit, path) matches Err(e) ==> e !is CyclicObjects,
{
    reading_finds_no_cycle(s, commit);
    match s.object(commit) {
        Ok(ObjectView::Commit(c)) => {
            let ps = named_parts(parts(path));
            tree_lookup_ends(s, c.tree, ps, 0);
            match file_in_tree(s, c.tree, ps, 0) {
                Ok(Some(id)) => {
                    reading_finds_no_cycle(s, id);
                },
                _ => {},
            }
        },
        _ => {},
    }
}

/// With all commits before of greater rank, there is fuel enough.
proof fn origins_end(
    s: Store,
    path: Seq<u8>,
    commit: Seq<u8>,
    current: Seq<Seq<u8>>,
    fuel: nat,
    rank: spec_fn(Seq<u8>) -> nat,
    before: Set<Seq<u8>>,
)
    requires
        commits_ranked(s, rank),
        readable(s).finite(),
        commit.len() == 20,
        readable(s).difference(before).len() < fuel,
        forall|a: Seq<u8>| #[trigger] before.contains(a) ==> rank(commit) < rank(a),
    ensures
        origins(s, path, commit, current, fuel) matches Err(e) ==> e !is CyclicObjects,
    decreases fuel,
{
    reading_finds_no_cycle(s, commit);
    if current.len() > 0 {
        match s.object(commit) {
            Ok(ObjectView::Commit(c)) => {
                if c.parents.len() > 0 {
                    let p = c.parents[0];
                    file_lines_end(s, p, path);
                    match file_lines(s, p, path) {
                        Ok(Some(ls)) => {
                            let script = edit_script(ls, current);
                            assert(!before.contains(commit));
                            readable(s).lemma_set_insert_diff_decreases(before, commit);
                            assert(c.parents.contains(p));
                            law_stored_ids(s, commit, p);
                            origins_end(
                                s,
                                path,
                                p,
                                kept_lines(script),
                                (fuel - 1) as nat,
                                rank,
                                before.insert(commit),
                            );
                        },
                        _ => {},
                    }
                }
            },
            _ => {},
        }
    }
}

/// Law: where no commit is its own ancestor by first parents, blame never
/// says that one is.
pub proof fn law_blame_ends(
    s: Store,
    path: Seq<char>,
    head: Seq<u8>,
    rank: spec_fn(Seq<u8>) -> nat,
)
    requires
        countable(s),
        head.len() == 20,
        commits_ranked(s, rank),
    ensures
        !(blamed(s, path, head) matches Err(BlameErrorView::Odb(e)) && e is CyclicObjects),
{
    let p = encode_utf8(path);
    readable_bound(s);
    file_lines_end(s, head, p);
    match file_lines(s, head, p) {
        Ok(Some(ls)) => {
            assert(readable(s).difference(Set::empty()) =~= readable(s));
            origins_end(s, p, head, ls, object_bound(s), rank, Set::empty());
        },
        _ => {},
    }
}

} // verus!
