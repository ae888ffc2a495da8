//! What lines, edit scripts and unified diffs promise.

use vstd::prelude::*;

use super::{
    edit_script, group_end, group_end_spec, hunk_end, hunk_start, hunks, lcs, line_len, lines,
    new_lines, new_range, next_change, next_change_spec, old_lines, old_range, unified, Change,
};
use crate::bytes::LF;
use crate::treewalk::laws::tree_files_finite;
use super::repo::{lenient_files, map_diff, trees_diff};
use crate::bytemap::{sorted_keys, sorted_keys_lists};
use crate::odb::{OdbErrorView, Store};
use crate::treewalk::object_bound;

verus! {

// ---------------------------------------------------------------------
// Lines
// ---------------------------------------------------------------------

/// Lines joined together.
pub open spec fn joined(ls: Seq<Seq<u8>>) -> Seq<u8>
    decreases ls.len(),
{
    if ls.len() == 0 {
        Seq::empty()
    } else {
        ls[0] + joined(ls.drop_first())
    }
}

/// What [`line_len`] is.
proof fn line_len_spec(s: Seq<u8>)
    requires
        s.len() > 0,
    ensures
        0 < line_len(s) <= s.len(),
        forall|j: int| 0 <= j < line_len(s) - 1 ==> s[j] != LF,
        s[line_len(s) - 1] == LF || line_len(s) == s.len(),
    decreases s.len(),
{
    if s[0] == LF {
    } else {
        let t = s.drop_first();
        if t.len() > 0 {
            line_len_spec(t);
            assert forall|j: int| 0 <= j < line_len(s) - 1 implies s[j] != LF by {
                if j > 0 {
                    assert(t[j - 1] != LF);
                }
            }
        } else {
            assert(line_len(t) == 0);
        }
    }
}

/// Law: the lines of a text joined together are the text.
pub proof fn law_lines_join(s: Seq<u8>)
    ensures
        joined(lines(s)) == s,
    decreases s.len(),
{
    if s.len() > 0 {
        line_len_spec(s);
        let n = line_len(s);
        law_lines_join(s.skip(n));
        let all = lines(s);
        assert(all[0] == s.take(n));
        assert(all.drop_first() =~= lines(s.skip(n)));
        assert(s.take(n) + s.skip(n) =~= s);
    } else {
        assert(joined(lines(s)) =~= s);
    }
}

/// Law: no line is empty, a line feed stands only at a line's end, and only
/// the last line can lack it.
pub proof fn law_lines_shape(s: Seq<u8>)
    ensures
        forall|i: int| #![trigger lines(s)[i]]
            0 <= i < lines(s).len() ==> {
                &&& lines(s)[i].len() > 0
                &&& forall|j: int| 0 <= j < lines(s)[i].len() - 1 ==> lines(s)[i][j] != LF
                &&& i < lines(s).len() - 1 ==> lines(s)[i].last() == LF
            },
        s.len() > 0 ==> lines(s).len() > 0,
    decreases s.len(),
{
    if s.len() > 0 {
        line_len_spec(s);
        let n = line_len(s);
        let t = s.skip(n);
        law_lines_shape(t);
        let all = lines(s);
        assert forall|i: int| #![trigger all[i]] 0 <= i < all.len() implies {
            &&& all[i].len() > 0
            &&& forall|j: int| 0 <= j < all[i].len() - 1 ==> all[i][j] != LF
            &&& i < all.len() - 1 ==> all[i].last() == LF
        } by {
            if i == 0 {
                assert(all[0] == s.take(n));
            } else {
                assert(all[i] == lines(t)[i - 1]);
            }
        }
    }
}

// ---------------------------------------------------------------------
// Edit scripts
// ---------------------------------------------------------------------

/// The lines that a script takes from the old side.
pub open spec fn old_side(s: Seq<Change>) -> Seq<Seq<u8>>
    decreases s.len(),
{
    if s.len() == 0 {
        Seq::empty()
    } else {
        match s.last() {
            Change::Same(l) => old_side(s.drop_last()).push(l),
            Change::Removed(l) => old_side(s.drop_last()).push(l),
            Change::Added(_) => old_side(s.drop_last()),
        }
    }
}

/// The lines that a script puts on the new side.
pub open spec fn new_side(s: Seq<Change>) -> Seq<Seq<u8>>
    decreases s.len(),
{
    if s.len() == 0 {
        Seq::empty()
    } else {
        match s.last() {
            Change::Same(l) => new_side(s.drop_last()).push(l),
            Change::Removed(_) => new_side(s.drop_last()),
            Change::Added(l) => new_side(s.drop_last()).push(l),
        }
    }
}

/// How many lines a script leaves unchanged.
pub open spec fn same_count(s: Seq<Change>) -> nat
    decreases s.len(),
{
    if s.len() == 0 {
        0
    } else if s.last() is Same {
        same_count(s.drop_last()) + 1
    } else {
        same_count(s.drop_last())
    }
}

/// A script with one more step.
proof fn push_change(s: Seq<Change>, c: Change)
    ensures
        s.push(c).drop_last() == s,
        s.push(c).last() == c,
{
    assert(s.push(c).drop_last() =~= s);
}

/// Law: the unchanged and removed lines of a script are the old text, the
/// unchanged and added ones the new text, and the unchanged ones are as
/// many as the longest common subsequence has.
pub proof fn law_script(a: Seq<Seq<u8>>, b: Seq<Seq<u8>>)
    ensures
        old_side(edit_script(a, b)) == a,
        new_side(edit_script(a, b)) == b,
        same_count(edit_script(a, b)) == lcs(a, b),
    decreases a.len() + b.len(),
{
    let s = edit_script(a, b);
    if a.len() == 0 && b.len() == 0 {
        assert(a =~= Seq::<Seq<u8>>::empty());
        assert(b =~= Seq::<Seq<u8>>::empty());
    } else if a.len() == 0 {
        law_script(a, b.drop_last());
        push_change(edit_script(a, b.drop_last()), Change::Added(b.last()));
        assert(b.drop_last().push(b.last()) =~= b);
    } else if b.len() == 0 {
        law_script(a.drop_last(), b);
        push_change(edit_script(a.drop_last(), b), Change::Removed(a.last()));
        assert(a.drop_last().push(a.last()) =~= a);
    } else if a.last() == b.last() {
        law_script(a.drop_last(), b.drop_last());
        push_change(edit_script(a.drop_last(), b.drop_last()), Change::Same(a.last()));
        assert(a.drop_last().push(a.last()) =~= a);
        assert(b.drop_last().push(b.last()) =~= b);
    } else if lcs(a, b.drop_last()) >= lcs(a.drop_last(), b) {
        law_script(a, b.drop_last());
        push_change(edit_script(a, b.drop_last()), Change::Added(b.last()));
        assert(b.drop_last().push(b.last()) =~= b);
    } else {
        law_script(a.drop_last(), b);
        push_change(edit_script(a.drop_last(), b), Change::Removed(a.last()));
        assert(a.drop_last().push(a.last()) =~= a);
    }
}

/// Whether `s` comes out of `a` by leaving lines out.
pub open spec fn is_subsequence(s: Seq<Seq<u8>>, a: Seq<Seq<u8>>) -> bool
    decreases a.len(),
{
    ||| s.len() == 0
    ||| a.len() > 0 && s.last() == a.last() && is_subsequence(s.drop_last(), a.drop_last())
    ||| a.len() > 0 && is_subsequence(s, a.drop_last())
}

/// A subsequence without its last line is one of the text without its last
/// line.
proof fn subsequence_drop(s: Seq<Seq<u8>>, a: Seq<Seq<u8>>)
    requires
        is_subsequence(s, a),
        s.len() > 0,
    ensures
        is_subsequence(s.drop_last(), a.drop_last()),
    decreases a.len(),
{
    if s.last() == a.last() && is_subsequence(s.drop_last(), a.drop_last()) {
    } else {
        assert(is_subsequence(s, a.drop_last()));
        subsequence_drop(s, a.drop_last());
        assert(is_subsequence(s.drop_last(), a.drop_last().drop_last()));
        assert(a.drop_last().len() > 0);
    }
}

/// Law: no common subsequence is longer than the one that scripts follow.
pub proof fn law_lcs_longest(s: Seq<Seq<u8>>, a: Seq<Seq<u8>>, b: Seq<Seq<u8>>)
    requires
        is_subsequence(s, a),
        is_subsequence(s, b),
    ensures
        s.len() <= lcs(a, b),
    decreases a.len() + b.len(),
{
    if s.len() > 0 {
        if a.last() == b.last() {
            subsequence_drop(s, a);
            subsequence_drop(s, b);
            law_lcs_longest(s.drop_last(), a.drop_last(), b.drop_last());
        } else if s.last() != a.last() {
            law_lcs_longest(s, a.drop_last(), b);
        } else {
            law_lcs_longest(s, a, b.drop_last());
        }
    }
}

/// A script between equal texts changes nothing.
proof fn script_of_equal(a: Seq<Seq<u8>>)
    ensures
        forall|i: int|
            0 <= i < edit_script(a, a).len() ==> (#[trigger] edit_script(a, a)[i]) is Same,
    decreases a.len(),
{
    if a.len() > 0 {
        script_of_equal(a.drop_last());
    }
}

// ---------------------------------------------------------------------
// Unified diffs
// ---------------------------------------------------------------------

/// Law: the diff of equal texts has the two label lines and no hunk.
pub proof fn law_equal_texts(a: Seq<u8>, a_label: Seq<char>, b_label: Seq<char>, context: nat)
    ensures
        unified(a, a_label, a, b_label, context) == "--- "@ + a_label + "\n+++ "@ + b_label
            + "\n"@,
{
    let script = edit_script(lines(a), lines(a));
    script_of_equal(lines(a));
    next_change_spec(script, 0);
    assert(hunks(script, 0, context) =~= Seq::<(int, int)>::empty());
    assert(unified(a, a_label, a, b_label, context) =~= "--- "@ + a_label + "\n+++ "@ + b_label
        + "\n"@);
}

/// From within the unchanged lines before a change, the change is the next
/// one.
proof fn next_change_within(script: Seq<Change>, i: int, k: int)
    requires
        0 <= i <= k <= next_change(script, i),
        i <= script.len(),
    ensures
        next_change(script, k) == next_change(script, i),
    decreases k - i,
{
    if i < k {
        next_change_within(script, i + 1, k);
    }
}

/// What the hunks of the steps from `i` on are.
spec fn hunks_shaped(
    script: Seq<Change>,
    ranges: Seq<(int, int)>,
    i: int,
    context: nat,
) -> bool {
    &&& forall|k: int|
        i <= k < script.len() && !(script[k] is Same) ==> #[trigger] in_hunk(ranges, k)
    &&& forall|h: int| #![trigger ranges[h]]
        0 <= h < ranges.len() ==> hunk_ok(script, ranges[h], context)
    &&& hunks_apart(ranges)
    &&& ranges.len() > 0 ==> i == 0 || i < ranges[0].0
}

/// A hunk more, before the others.
proof fn hunks_shaped_first(
    script: Seq<Change>,
    range: (int, int),
    rest: Seq<(int, int)>,
    i: int,
    context: nat,
)
    requires
        hunks_shaped(script, rest, range.1, context),
        hunk_ok(script, range, context),
        0 <= i,
        i == 0 || i < range.0,
        forall|j: int| i <= j < range.0 ==> (#[trigger] script[j]) is Same,
    ensures
        hunks_shaped(script, seq![range] + rest, i, context),
{
    let all = seq![range] + rest;
    assert(all[0] == range);
    assert forall|k: int| i <= k < script.len() && !(script[k] is Same) implies #[trigger] in_hunk(
        all,
        k,
    ) by {
        if k < range.1 {
            assert(all[0].0 <= k < all[0].1);
        } else {
            assert(in_hunk(rest, k));
            let h = choose|h: int| 0 <= h < rest.len() && (#[trigger] rest[h]).0 <= k < rest[h].1;
            assert(all[h + 1] == rest[h]);
        }
    }
    assert forall|h: int| #![trigger all[h]] 0 <= h < all.len() implies hunk_ok(
        script,
        all[h],
        context,
    ) by {
        if h > 0 {
            assert(all[h] == rest[h - 1]);
        }
    }
    assert forall|g: int, h: int| #![trigger all[g], all[h]]
        0 <= g < h < all.len() implies all[g].1 < all[h].0 by {
        assert(all[h] == rest[h - 1]);
        if g > 0 {
            assert(all[g] == rest[g - 1]);
        } else if h > 1 {
            assert(hunk_ok(script, rest[0], context));
            assert(rest[0].1 < rest[h - 1].0);
        }
    }
}

/// A hunk round the changes from `start` to `last`.
proof fn hunk_is_ok(script: Seq<Change>, range: (int, int), start: int, last: int, context: nat)
    requires
        0 <= range.0 <= start < last <= range.1 <= script.len(),
        leads_to_change(script, range.0, start, context),
        follows_change(script, range.1, last, context),
    ensures
        hunk_ok(script, range, context),
{
}

/// What the hunks from `i` on are, where unchanged lines enough precede the
/// next change.
proof fn hunks_shape(script: Seq<Change>, i: int, context: nat)
    requires
        0 <= i <= script.len(),
        i == 0 || next_change(script, i) >= script.len() || i < next_change(script, i) - context,
    ensures
        hunks_shaped(script, hunks(script, i, context), i, context),
    decreases script.len() - i,
{
    next_change_spec(script, i);
    let start = next_change(script, i);
    if start < script.len() {
        group_end_spec(script, start, context);
        let last = group_end(script, start, context);
        let end = hunk_end(script, last, context);
        let from = hunk_start(start, context);
        next_change_spec(script, last);
        next_change_within(script, last, end);
        assert(leads_to_change(script, from, start, context));
        assert(follows_change(script, end, last, context));
        hunk_is_ok(script, (from, end), start, last, context);
        hunks_shape(script, end, context);
        hunks_shaped_first(script, (from, end), hunks(script, end, context), i, context);
    }
}

/// Law: every change of a script lies in a hunk. A hunk begins with up to
/// `context` unchanged lines before its first change and ends with as many
/// behind its last, and fewer only at the ends of the script. The hunks stand
/// in order, with at least one unchanged line between each two.
pub proof fn law_hunks(script: Seq<Change>, context: nat)
    ensures
        forall|k: int|
            0 <= k < script.len() && !(script[k] is Same) ==> #[trigger] in_hunk(
                hunks(script, 0, context),
                k,
            ),
        forall|h: int| #![trigger hunks(script, 0, context)[h]]
            0 <= h < hunks(script, 0, context).len() ==> hunk_ok(
                script,
                hunks(script, 0, context)[h],
                context,
            ),
        hunks_apart(hunks(script, 0, context)),
{
    hunks_shape(script, 0, context);
}

/// The step `k` lies in one of the ranges.
pub open spec fn in_hunk(ranges: Seq<(int, int)>, k: int) -> bool {
    exists|h: int| 0 <= h < ranges.len() && (#[trigger] ranges[h]).0 <= k < ranges[h].1
}

/// The ranges ascend, and a step at least stands between each two.
pub open spec fn hunks_apart(ranges: Seq<(int, int)>) -> bool {
    forall|g: int, h: int| #![trigger ranges[g], ranges[h]]
        0 <= g < h < ranges.len() ==> ranges[g].1 < ranges[h].0
}

/// Up to `context` unchanged lines lead to the change at `start`, and no
/// change stands right before them.
pub open spec fn leads_to_change(script: Seq<Change>, from: int, start: int, context: nat) -> bool {
    &&& from == if start <= context {
        0
    } else {
        start - context
    }
    &&& !(script[start] is Same)
    &&& from > 0 ==> script[from - 1] is Same
    &&& forall|j: int| from <= j < start ==> (#[trigger] script[j]) is Same
}

/// Up to `context` unchanged lines follow the change before `last`.
pub open spec fn follows_change(script: Seq<Change>, to: int, last: int, context: nat) -> bool {
    &&& to == if script.len() - last <= context {
        script.len() as int
    } else {
        last + context
    }
    &&& !(script[last - 1] is Same)
    &&& forall|j: int| last <= j < to ==> (#[trigger] script[j]) is Same
}

/// The shape of a hunk.
pub open spec fn hunk_ok(script: Seq<Change>, range: (int, int), context: nat) -> bool {
    &&& 0 <= range.0 < range.1 <= script.len()
    &&& exists|start: int|
        range.0 <= start < range.1 && #[trigger] leads_to_change(script, range.0, start, context)
    &&& exists|last: int|
        range.0 < last <= range.1 && #[trigger] follows_change(script, range.1, last, context)
}

/// How many lines the steps of two ranges side by side cover.
proof fn lines_split(s: Seq<Change>, k: int)
    requires
        0 <= k <= s.len(),
    ensures
        old_lines(s) == old_lines(s.take(k)) + old_lines(s.skip(k)),
        new_lines(s) == new_lines(s.take(k)) + new_lines(s.skip(k)),
    decreases s.len(),
{
    if k == s.len() {
        assert(s.take(k) =~= s);
        assert(s.skip(k).len() == 0);
    } else {
        let t = s.drop_last();
        lines_split(t, k);
        assert(t.take(k) =~= s.take(k));
        assert(t.skip(k) =~= s.skip(k).drop_last());
        assert(s.skip(k).last() == s.last());
    }
}

/// Law: the lines that the headers of two successive hunks speak of stand in
/// order on both sides and do not overlap.
pub proof fn law_hunk_headers(script: Seq<Change>, context: nat, h: int)
    requires
        0 < h < hunks(script, 0, context).len(),
    ensures
        ({
            let (a, b) = hunks(script, 0, context)[h - 1];
            let (c, d) = hunks(script, 0, context)[h];
            let (old_a, new_a) = (old_range(script, a, b), new_range(script, a, b));
            let (old_b, new_b) = (old_range(script, c, d), new_range(script, c, d));
            old_a.0 + old_a.1 <= old_b.0 && new_a.0 + new_a.1 <= new_b.0
        }),
{
    law_hunks(script, context);
    let all = hunks(script, 0, context);
    let (a, b) = all[h - 1];
    let (c, d) = all[h];
    assert(hunk_ok(script, all[h - 1], context));
    assert(hunk_ok(script, all[h], context));
    assert(b < c);
    let before = script.take(c);
    lines_split(before, b);
    assert(before.take(b) =~= script.take(b));
    lines_split(script.take(b), a);
    assert(script.take(b).take(a) =~= script.take(a));
    assert(script.take(b).skip(a) =~= script.subrange(a, b));
    let gap = before.skip(b);
    assert(gap.last() == script[c - 1]);
    assert(gap.last() is Same);
    assert(old_lines(gap) >= 1 && new_lines(gap) >= 1);
}

/// Where both sides have the same blobs, nothing is shown.
proof fn map_diff_same(s: Store, m: Map<Seq<u8>, Seq<u8>>, paths: Seq<Seq<u8>>, n: nat)
    requires
        n <= paths.len(),
        forall|p: Seq<u8>| #[trigger] paths.contains(p) ==> m.contains_key(p),
    ensures
        map_diff(s, m, m, paths, n) == Ok::<_, OdbErrorView>(Seq::<char>::empty()),
    decreases n,
{
    if n > 0 {
        map_diff_same(s, m, paths, (n - 1) as nat);
        assert(paths.contains(paths[n - 1]));
    }
}

/// Law: a tree does not differ from itself.
pub proof fn law_same_trees(s: Store, id: Seq<u8>)
    ensures
        trees_diff(s, id, id) matches Ok(text) ==> text.len() == 0,
{
    match lenient_files(s, id) {
        Ok(m) => {
            tree_files_finite(s, id, Seq::empty(), false, object_bound(s), Map::empty());
            let paths = sorted_keys(m.dom().union(m.dom()));
            assert(m.dom().union(m.dom()) =~= m.dom());
            sorted_keys_lists(m.dom());
            assert forall|p: Seq<u8>| #[trigger] paths.contains(p) implies m.contains_key(p) by {
                assert(m.dom().contains(p));
            }
            map_diff_same(s, m, paths, paths.len());
        },
        Err(_) => {},
    }
}

} // verus!
