//! What a unified diff tells of its two texts.

use vstd::prelude::*;

use super::laws::{hunk_ok, law_hunks, law_script, new_side, old_side};
use super::{
    change_text, changes_text, edit_script, group_end, group_end_spec, hunk_end, hunk_header,
    hunk_start, hunks, hunks_text, lcs, lines, new_lines, new_range, next_change, next_change_spec,
    number, old_lines, old_range, unified, Change,
};
use crate::notation::text_of;

verus! {

// ---------------------------------------------------------------------
// The order of changes
// ---------------------------------------------------------------------

/// More lines have no shorter common subsequence.
proof fn lcs_grows(a: Seq<Seq<u8>>, b: Seq<Seq<u8>>)
    ensures
        a.len() > 0 ==> lcs(a.drop_last(), b) <= lcs(a, b) <= lcs(a.drop_last(), b) + 1,
        b.len() > 0 ==> lcs(a, b.drop_last()) <= lcs(a, b) <= lcs(a, b.drop_last()) + 1,
    decreases a.len() + b.len(),
{
    if a.len() > 0 && b.len() > 0 {
        lcs_grows(a.drop_last(), b);
        lcs_grows(a, b.drop_last());
        lcs_grows(a.drop_last(), b.drop_last());
    }
}

/// A script that ends with an addition keeps no line fewer without it.
proof fn script_end(a: Seq<Seq<u8>>, b: Seq<Seq<u8>>)
    requires
        edit_script(a, b).len() > 0,
    ensures
        edit_script(a, b).last() is Added ==> b.len() > 0 && edit_script(a, b).drop_last()
            == edit_script(a, b.drop_last()) && lcs(a, b) == lcs(a, b.drop_last()),
        edit_script(a, b).last() is Removed ==> a.len() > 0 && edit_script(a, b).drop_last()
            == edit_script(a.drop_last(), b) && (b.len() > 0 ==> lcs(a, b.drop_last()) < lcs(
            a.drop_last(),
            b,
        )),
        edit_script(a, b).last() is Same ==> a.len() > 0 && b.len() > 0 && edit_script(
            a,
            b,
        ).drop_last() == edit_script(a.drop_last(), b.drop_last()),
{
    let s = edit_script(a, b);
    if a.len() == 0 {
        let t = edit_script(a, b.drop_last());
        assert(t.push(s.last()).drop_last() =~= t);
    } else if b.len() == 0 {
        let t = edit_script(a.drop_last(), b);
        assert(t.push(s.last()).drop_last() =~= t);
    } else if a.last() == b.last() {
        let t = edit_script(a.drop_last(), b.drop_last());
        assert(t.push(s.last()).drop_last() =~= t);
    } else if lcs(a, b.drop_last()) >= lcs(a.drop_last(), b) {
        let t = edit_script(a, b.drop_last());
        assert(t.push(s.last()).drop_last() =~= t);
    } else {
        let t = edit_script(a.drop_last(), b);
        assert(t.push(s.last()).drop_last() =~= t);
    }
}

/// Law: in an edit script no removal follows right after an addition: among
/// the changes between two unchanged lines the removals come first.
pub proof fn law_removals_first(a: Seq<Seq<u8>>, b: Seq<Seq<u8>>, i: int)
    requires
        0 <= i,
        i + 1 < edit_script(a, b).len(),
        edit_script(a, b)[i] is Added,
    ensures
        !(edit_script(a, b)[i + 1] is Removed),
    decreases a.len() + b.len(),
{
    let s = edit_script(a, b);
    script_end(a, b);
    let t = s.drop_last();
    if i + 2 < s.len() {
        assert(t[i] == s[i] && t[i + 1] == s[i + 1]);
        match s.last() {
            Change::Added(_) => law_removals_first(a, b.drop_last(), i),
            Change::Removed(_) => law_removals_first(a.drop_last(), b, i),
            Change::Same(_) => law_removals_first(a.drop_last(), b.drop_last(), i),
        }
    } else if s[i + 1] is Removed {
        let c = a.drop_last();
        assert(s.last() is Removed);
        assert(t.last() == s[i]);
        script_end(c, b);
        lcs_grows(a, b.drop_last());
        assert(lcs(c, b) == lcs(c, b.drop_last()));
        assert(false);
    }
}

// ---------------------------------------------------------------------
// Hunks
// ---------------------------------------------------------------------

/// Whether a change stands among the steps from `p` to `q`.
pub open spec fn change_within(script: Seq<Change>, p: int, q: int) -> bool {
    exists|k: int| p <= k <= q && !((#[trigger] script[k]) is Same)
}

/// Among the changes of a group no run of unchanged lines is longer than two
/// contexts.
proof fn group_runs(script: Seq<Change>, i: int, context: nat, p: int)
    requires
        0 <= i < script.len(),
        !(script[i] is Same),
        i <= p,
        p + 2 * context < group_end(script, i, context),
    ensures
        change_within(script, p, p + 2 * context),
    decreases script.len() - i,
{
    next_change_spec(script, i + 1);
    let next = next_change(script, i + 1);
    if p == i {
        assert(!(script[i] is Same));
    } else if next < script.len() && next - (i + 1) <= 2 * context {
        if p >= next {
            group_runs(script, next, context, p);
        } else {
            assert(!(script[next] is Same));
        }
    }
}

/// The same of the whole hunk.
proof fn hunk_runs(script: Seq<Change>, i: int, context: nat, h: int, p: int)
    requires
        0 <= i <= script.len(),
        0 <= h < hunks(script, i, context).len(),
        hunks(script, i, context)[h].0 <= p,
        p + 2 * context < hunks(script, i, context)[h].1,
    ensures
        change_within(script, p, p + 2 * context),
    decreases script.len() - i,
{
    next_change_spec(script, i);
    let start = next_change(script, i);
    group_end_spec(script, start, context);
    let last = group_end(script, start, context);
    let end = hunk_end(script, last, context);
    let rest = hunks(script, end, context);
    let all = hunks(script, i, context);
    assert(all =~= seq![(hunk_start(start, context), end)] + rest);
    if h == 0 {
        if p <= start {
            assert(!(script[start] is Same));
        } else if p + 2 * context < last {
            group_runs(script, start, context, p);
        } else {
            assert(!(script[last - 1] is Same));
        }
    } else {
        assert(all[h] == rest[h - 1]);
        hunk_runs(script, end, context, h - 1, p);
    }
}

/// Law: no hunk holds a run of unchanged lines longer than two contexts:
/// changes further apart stand in different hunks.
pub proof fn law_hunk_runs(script: Seq<Change>, context: nat, h: int, p: int)
    requires
        0 <= h < hunks(script, 0, context).len(),
        hunks(script, 0, context)[h].0 <= p,
        p + 2 * context < hunks(script, 0, context)[h].1,
    ensures
        change_within(script, p, p + 2 * context),
{
    hunk_runs(script, 0, context, h, p);
}

/// The sides of two scripts one after the other.
proof fn sides_split(s: Seq<Change>, t: Seq<Change>)
    ensures
        old_side(s + t) == old_side(s) + old_side(t),
        new_side(s + t) == new_side(s) + new_side(t),
    decreases t.len(),
{
    if t.len() == 0 {
        assert(s + t =~= s);
        assert(old_side(s) + old_side(t) =~= old_side(s));
        assert(new_side(s) + new_side(t) =~= new_side(s));
    } else {
        sides_split(s, t.drop_last());
        assert((s + t).drop_last() =~= s + t.drop_last());
        assert((s + t).last() == t.last());
        assert(old_side(s + t) =~= old_side(s) + old_side(t));
        assert(new_side(s + t) =~= new_side(s) + new_side(t));
    }
}

/// The lines that are counted are those of the sides.
proof fn counts_are_sides(s: Seq<Change>)
    ensures
        old_lines(s) == old_side(s).len(),
        new_lines(s) == new_side(s).len(),
    decreases s.len(),
{
    if s.len() > 0 {
        counts_are_sides(s.drop_last());
    }
}

/// Whether some lines stand in a text where a header says: from the line of
/// that number on, counted from one, or behind it where there are none.
pub open spec fn stands_at(part: Seq<Seq<u8>>, text: Seq<Seq<u8>>, first: nat, count: nat) -> bool {
    let k: int = if count == 0 {
        first as int
    } else {
        first - 1
    };
    0 <= k && k + count <= text.len() && part == text.subrange(k, k + count)
}

/// Law: the lines of a hunk stand in the two texts where its header says, and
/// are as many as it says.
pub proof fn law_hunk_lines(a: Seq<Seq<u8>>, b: Seq<Seq<u8>>, context: nat, h: int)
    requires
        0 <= h < hunks(edit_script(a, b), 0, context).len(),
    ensures
        ({
            let script = edit_script(a, b);
            let (from, to) = hunks(script, 0, context)[h];
            let steps = script.subrange(from, to);
            let (x, y) = (old_range(script, from, to), new_range(script, from, to));
            &&& stands_at(old_side(steps), a, x.0, x.1)
            &&& stands_at(new_side(steps), b, y.0, y.1)
        }),
{
    let script = edit_script(a, b);
    law_script(a, b);
    law_hunks(script, context);
    let (from, to) = hunks(script, 0, context)[h];
    assert(hunk_ok(script, hunks(script, 0, context)[h], context));
    let steps = script.subrange(from, to);
    let front = script.take(from);
    let back = script.skip(to);
    assert(script =~= front + (steps + back));
    sides_split(front, steps + back);
    sides_split(steps, back);
    counts_are_sides(front);
    counts_are_sides(steps);
    let x = old_side(front).len() as int;
    let y = new_side(front).len() as int;
    assert(old_side(steps) =~= a.subrange(x, x + old_side(steps).len()));
    assert(new_side(steps) =~= b.subrange(y, y + new_side(steps).len()));
}

// ---------------------------------------------------------------------
// Text
// ---------------------------------------------------------------------

/// Law: the text of a hunk's steps is that of one step after the other: a
/// space, a minus or a plus sign, and the line, with a note behind a line that
/// has no line feed.
pub proof fn law_changes_text(s: Seq<Change>, t: Seq<Change>, l: Seq<u8>)
    ensures
        changes_text(s + t) == changes_text(s) + changes_text(t),
        l.len() > 0 && l.last() == 10 ==> {
            &&& changes_text(seq![Change::Same(l)]) == seq![' '] + text_of(l)
            &&& changes_text(seq![Change::Removed(l)]) == seq!['-'] + text_of(l)
            &&& changes_text(seq![Change::Added(l)]) == seq!['+'] + text_of(l)
        },
        l.len() == 0 || l.last() != 10 ==> {
            let note = "\n\\ No newline at end of file\n"@;
            &&& changes_text(seq![Change::Same(l)]) == seq![' '] + text_of(l) + note
            &&& changes_text(seq![Change::Removed(l)]) == seq!['-'] + text_of(l) + note
            &&& changes_text(seq![Change::Added(l)]) == seq!['+'] + text_of(l) + note
        },
    decreases t.len(),
{
    reveal_strlit(" ");
    reveal_strlit("-");
    reveal_strlit("+");
    one_change(Change::Same(l));
    one_change(Change::Removed(l));
    one_change(Change::Added(l));
    assert(" "@ =~= seq![' ']);
    assert("-"@ =~= seq!['-']);
    assert("+"@ =~= seq!['+']);
    if t.len() == 0 {
        assert(s + t =~= s);
        assert(changes_text(s) + changes_text(t) =~= changes_text(s));
    } else {
        law_changes_text(s, t.drop_last(), l);
        assert((s + t).drop_last() =~= s + t.drop_last());
        assert((s + t).last() == t.last());
        assert(changes_text(s + t) =~= changes_text(s) + changes_text(t));
    }
}

/// The text of one step.
proof fn one_change(c: Change)
    ensures
        changes_text(seq![c]) == change_text(c),
{
    let s = seq![c];
    assert(s.drop_last() =~= Seq::<Change>::empty());
    assert(changes_text(s.drop_last()).len() == 0);
    assert(changes_text(s) =~= change_text(c));
}

/// Law: the text of a list of hunks is that of one hunk after the other: a
/// header with the first line's number and the number of lines on both sides,
/// and the hunk's steps.
pub proof fn law_hunks_text(
    script: Seq<Change>,
    r: Seq<(int, int)>,
    t: Seq<(int, int)>,
    from: int,
    to: int,
)
    ensures
        hunks_text(script, r + t) == hunks_text(script, r) + hunks_text(script, t),
        hunks_text(script, seq![(from, to)]) == seq!['@', '@', ' ', '-'] + number(
            old_range(script, from, to).0,
        ) + seq![','] + number(old_range(script, from, to).1) + seq![' ', '+'] + number(
            new_range(script, from, to).0,
        ) + seq![','] + number(new_range(script, from, to).1) + seq![' ', '@', '@', '\n']
            + changes_text(script.subrange(from, to)),
    decreases r.len(),
{
    reveal_strlit("@@ -");
    reveal_strlit(",");
    reveal_strlit(" +");
    reveal_strlit(" @@\n");
    assert("@@ -"@ =~= seq!['@', '@', ' ', '-']);
    assert(","@ =~= seq![',']);
    assert(" +"@ =~= seq![' ', '+']);
    assert(" @@\n"@ =~= seq![' ', '@', '@', '\n']);
    let one = seq![(from, to)];
    assert(one.drop_first() =~= Seq::<(int, int)>::empty());
    assert(hunks_text(script, one.drop_first()).len() == 0);
    assert(hunks_text(script, one) =~= hunk_header(script, from, to) + changes_text(
        script.subrange(from, to),
    ));
    if r.len() == 0 {
        assert(r + t =~= t);
        assert(hunks_text(script, r) + hunks_text(script, t) =~= hunks_text(script, t));
    } else {
        law_hunks_text(script, r.drop_first(), t, from, to);
        assert((r + t).drop_first() =~= r.drop_first() + t);
        assert((r + t)[0] == r[0]);
        assert(hunks_text(script, r + t) =~= hunks_text(script, r) + hunks_text(script, t));
    }
}

/// Law: a unified diff is two lines with the labels, and the hunks of the edit
/// script from the old text's lines to the new text's.
pub proof fn law_unified(
    a: Seq<u8>,
    a_label: Seq<char>,
    b: Seq<u8>,
    b_label: Seq<char>,
    context: nat,
)
    ensures
        unified(a, a_label, b, b_label, context) == seq!['-', '-', '-', ' '] + a_label + seq![
            '\n',
            '+',
            '+',
            '+',
            ' ',
        ] + b_label + seq!['\n'] + hunks_text(
            edit_script(lines(a), lines(b)),
            hunks(edit_script(lines(a), lines(b)), 0, context),
        ),
{
    reveal_strlit("--- ");
    reveal_strlit("\n+++ ");
    reveal_strlit("\n");
    assert("--- "@ =~= seq!['-', '-', '-', ' ']);
    assert("\n+++ "@ =~= seq!['\n', '+', '+', '+', ' ']);
    assert("\n"@ =~= seq!['\n']);
}

} // verus!
