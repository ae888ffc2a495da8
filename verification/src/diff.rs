//! Line diffs by longest common subsequence, and their unified format.

use vstd::prelude::*;
use vstd::string::StringExecFns;

use crate::bytes::{same_bytes, LF};
use crate::notation::{
    ascii_chars, ascii_string, decimal, decimal_round_trip, is_digit, lossy_string, push_decimal,
    text_of,
};

pub mod laws;
pub mod patches;
pub mod repo;
pub mod sections;

pub use repo::DiffError;

verus! {

// ---------------------------------------------------------------------
// Lines
// ---------------------------------------------------------------------

/// The lines of a text, each with its line feed; the last one lacks it
/// where the text does.
pub open spec fn lines(s: Seq<u8>) -> Seq<Seq<u8>>
    decreases s.len(),
{
    if s.len() == 0 {
        Seq::empty()
    } else {
        let n = line_len(s);
        if n <= 0 || n > s.len() {
            seq![s]
        } else {
            seq![s.take(n)] + lines(s.skip(n))
        }
    }
}

/// The length of the first line, its line feed included.
pub open spec fn line_len(s: Seq<u8>) -> int
    decreases s.len(),
{
    if s.len() == 0 {
        0
    } else if s[0] == LF {
        1
    } else {
        1 + line_len(s.drop_first())
    }
}

/// What [`line_len`] is.
pub proof fn line_len_is(s: Seq<u8>, n: int)
    requires
        0 < n <= s.len(),
        forall|j: int| 0 <= j < n - 1 ==> s[j] != LF,
        s[n - 1] == LF || n == s.len(),
    ensures
        line_len(s) == n,
    decreases s.len(),
{
    if s[0] == LF {
    } else {
        let t = s.drop_first();
        if n > 1 {
            assert forall|j: int| 0 <= j < n - 2 implies t[j] != LF by {
                assert(t[j] == s[j + 1]);
            }
            line_len_is(t, n - 1);
        } else {
            assert(line_len(t) == 0);
        }
    }
}

/// The bytes of a list of lines.
pub open spec fn lines_view(ls: Seq<&[u8]>) -> Seq<Seq<u8>> {
    ls.map_values(|l: &[u8]| l@)
}

/// Splits a text into lines.
pub fn split_lines(bytes: &[u8]) -> (r: Vec<&[u8]>)
    ensures
        lines_view(r@) == lines(bytes@),
{
    let mut out: Vec<&[u8]> = Vec::new();
    let mut start: usize = 0;
    let mut i: usize = 0;
    proof {
        assert(bytes@.skip(0) =~= bytes@);
        assert(lines_view(out@) + lines(bytes@) =~= lines(bytes@));
    }
    while i < bytes.len()
        invariant
            start <= i <= bytes@.len(),
            forall|j: int| start <= j < i ==> bytes@[j] != LF,
            lines_view(out@) + lines(bytes@.skip(start as int)) == lines(bytes@),
        decreases bytes.len() - i,
    {
        if bytes[i] == LF {
            let ghost rest = bytes@.skip(start as int);
            let ghost before = out@;
            let line = &bytes[start..i + 1];
            out.push(line);
            proof {
                let n = i + 1 - start;
                assert forall|j: int| 0 <= j < n - 1 implies rest[j] != LF by {
                    assert(rest[j] == bytes@[start + j]);
                }
                line_len_is(rest, n as int);
                assert(rest.take(n as int) =~= line@);
                assert(rest.skip(n as int) =~= bytes@.skip(i + 1));
                assert(lines_view(out@) =~= lines_view(before).push(line@));
                assert(lines_view(out@) + lines(bytes@.skip(i + 1)) =~= lines_view(before) + lines(
                    rest,
                ));
            }
            start = i + 1;
        }
        i += 1;
    }
    if start < bytes.len() {
        let ghost rest = bytes@.skip(start as int);
        let ghost before = out@;
        let line = &bytes[start..bytes.len()];
        out.push(line);
        proof {
            let n = rest.len() as int;
            assert forall|j: int| 0 <= j < n - 1 implies rest[j] != LF by {
                assert(rest[j] == bytes@[start + j]);
            }
            line_len_is(rest, n);
            assert(rest.take(n) =~= line@);
            assert(lines(rest.skip(n)) =~= Seq::<Seq<u8>>::empty());
            assert(lines(rest) =~= seq![line@]);
            assert(lines_view(out@) =~= lines_view(before) + lines(rest));
        }
    } else {
        assert(bytes@.skip(start as int).len() == 0);
        assert(lines_view(out@) + Seq::<Seq<u8>>::empty() =~= lines_view(out@));
    }
    out
}

// ---------------------------------------------------------------------
// Edit scripts
// ---------------------------------------------------------------------

/// One step of an edit script.
#[derive(Debug, Clone, PartialEq, Eq)]
pub enum LineChange<'a> {
    Same(&'a [u8]),
    Removed(&'a [u8]),
    Added(&'a [u8]),
}

/// What a step of an edit script says.
pub enum Change {
    Same(Seq<u8>),
    Removed(Seq<u8>),
    Added(Seq<u8>),
}

impl<'a> View for LineChange<'a> {
    type V = Change;

    open spec fn view(&self) -> Change {
        match self {
            LineChange::Same(l) => Change::Same(l@),
            LineChange::Removed(l) => Change::Removed(l@),
            LineChange::Added(l) => Change::Added(l@),
        }
    }
}

/// What the steps of a script say.
pub open spec fn script_view<'a>(s: Seq<LineChange<'a>>) -> Seq<Change> {
    s.map_values(|c: LineChange<'a>| c@)
}

/// The length of the longest common subsequence.
pub open spec fn lcs(a: Seq<Seq<u8>>, b: Seq<Seq<u8>>) -> nat
    decreases a.len() + b.len(),
{
    if a.len() == 0 || b.len() == 0 {
        0
    } else if a.last() == b.last() {
        lcs(a.drop_last(), b.drop_last()) + 1
    } else {
        let up = lcs(a.drop_last(), b);
        let left = lcs(a, b.drop_last());
        if up >= left {
            up
        } else {
            left
        }
    }
}

/// The edit script from `a` to `b` along a longest common subsequence.
/// Where both are as long, removals come before additions.
pub open spec fn edit_script(a: Seq<Seq<u8>>, b: Seq<Seq<u8>>) -> Seq<Change>
    decreases a.len() + b.len(),
{
    if a.len() == 0 && b.len() == 0 {
        Seq::empty()
    } else if a.len() == 0 {
        edit_script(a, b.drop_last()).push(Change::Added(b.last()))
    } else if b.len() == 0 {
        edit_script(a.drop_last(), b).push(Change::Removed(a.last()))
    } else if a.last() == b.last() {
        edit_script(a.drop_last(), b.drop_last()).push(Change::Same(a.last()))
    } else if lcs(a, b.drop_last()) >= lcs(a.drop_last(), b) {
        edit_script(a, b.drop_last()).push(Change::Added(b.last()))
    } else {
        edit_script(a.drop_last(), b).push(Change::Removed(a.last()))
    }
}

/// No common subsequence is longer than either side.
pub proof fn lcs_bound(a: Seq<Seq<u8>>, b: Seq<Seq<u8>>)
    ensures
        lcs(a, b) <= a.len(),
        lcs(a, b) <= b.len(),
    decreases a.len() + b.len(),
{
    if a.len() == 0 || b.len() == 0 {
    } else if a.last() == b.last() {
        lcs_bound(a.drop_last(), b.drop_last());
    } else {
        lcs_bound(a.drop_last(), b);
        lcs_bound(a, b.drop_last());
    }
}

/// The table of subsequence lengths is right up to row `i`.
pub open spec fn table_ok(
    dp: Seq<Vec<usize>>,
    a: Seq<Seq<u8>>,
    b: Seq<Seq<u8>>,
) -> bool {
    forall|i: int|
        0 <= i < dp.len() ==> row_ok((#[trigger] dp[i])@, a.take(i + 1), b, b.len() as int)
}

/// The first `k` lengths of a row are right.
pub open spec fn row_ok(row: Seq<usize>, a: Seq<Seq<u8>>, b: Seq<Seq<u8>>, k: int) -> bool {
    row.len() == k && forall|j: int| 0 <= j < k ==> #[trigger] row[j] == lcs(a, b.take(j + 1))
}

/// The length for the first `i` lines of one side and the first `j` of the
/// other.
fn table_get(
    dp: &Vec<Vec<usize>>,
    i: usize,
    j: usize,
    Ghost(a): Ghost<Seq<Seq<u8>>>,
    Ghost(b): Ghost<Seq<Seq<u8>>>,
) -> (r: usize)
    requires
        table_ok(dp@, a, b),
        i <= dp@.len() <= a.len(),
        j <= b.len(),
    ensures
        r == lcs(a.take(i as int), b.take(j as int)),
{
    if i == 0 || j == 0 {
        0
    } else {
        assert(row_ok(dp@[i - 1]@, a.take(i as int), b, b.len() as int));
        dp[i - 1][j - 1]
    }
}

/// Builds the table of subsequence lengths.
fn lcs_table(a: &[&[u8]], b: &[&[u8]]) -> (r: Vec<Vec<usize>>)
    ensures
        r@.len() == a@.len(),
        table_ok(r@, lines_view(a@), lines_view(b@)),
{
    let ghost av = lines_view(a@);
    let ghost bv = lines_view(b@);
    let mut dp: Vec<Vec<usize>> = Vec::new();
    let mut i: usize = 0;
    while i < a.len()
        invariant
            i <= a@.len(),
            dp@.len() == i,
            av == lines_view(a@),
            bv == lines_view(b@),
            table_ok(dp@, av, bv),
        decreases a.len() - i,
    {
        let ghost ai = av.take(i + 1);
        proof {
            assert(ai.drop_last() =~= av.take(i as int));
            assert(ai.last() == a@[i as int]@);
        }
        let mut row: Vec<usize> = Vec::new();
        let mut j: usize = 0;
        while j < b.len()
            invariant
                j <= b@.len(),
                i < a@.len(),
                dp@.len() == i,
                av == lines_view(a@),
                bv == lines_view(b@),
                ai == av.take(i + 1),
                ai.drop_last() == av.take(i as int),
                ai.last() == a@[i as int]@,
                table_ok(dp@, av, bv),
                row_ok(row@, ai, bv, j as int),
            decreases b.len() - j,
        {
            let ghost bj = bv.take(j + 1);
            let ghost before = row@;
            proof {
                assert(bj.drop_last() =~= bv.take(j as int));
                assert(bj.last() == b@[j as int]@);
                lcs_bound(ai.drop_last(), bj.drop_last());
            }
            let left: usize = if j == 0 {
                assert(bj.drop_last().len() == 0);
                0
            } else {
                row[j - 1]
            };
            assert(left == lcs(ai, bj.drop_last()));
            let length: usize = if same_bytes(a[i], b[j]) {
                table_get(&dp, i, j, Ghost(av), Ghost(bv)) + 1
            } else {
                assert(ai.last() != bj.last());
                let up: usize = table_get(&dp, i, j + 1, Ghost(av), Ghost(bv));
                assert(up == lcs(ai.drop_last(), bj));
                if up >= left {
                    up
                } else {
                    left
                }
            };
            assert(length == lcs(ai, bj));
            row.push(length);
            j += 1;
        }
        dp.push(row);
        assert(table_ok(dp@, av, bv)) by {
            assert forall|k: int| 0 <= k < dp@.len() implies row_ok(
                (#[trigger] dp@[k])@,
                av.take(k + 1),
                bv,
                bv.len() as int,
            ) by {}
        }
        i += 1;
    }
    dp
}

/// The sequence the other way round.
pub open spec fn reversed(s: Seq<Change>) -> Seq<Change> {
    Seq::new(s.len(), |i: int| s[s.len() - 1 - i])
}

/// Turns a script round.
fn reverse<'a>(script: Vec<LineChange<'a>>) -> (r: Vec<LineChange<'a>>)
    ensures
        script_view(r@) == reversed(script_view(script@)),
{
    let mut rest = script;
    let mut out: Vec<LineChange<'a>> = Vec::new();
    let ghost all = script_view(script@);
    while rest.len() > 0
        invariant
            rest@.len() + out@.len() == all.len(),
            script_view(rest@) == all.take(rest@.len() as int),
            script_view(out@) == reversed(all).take(out@.len() as int),
        decreases rest.len(),
    {
        let ghost n = rest@.len() as int;
        let ghost before = out@;
        let ghost rest_before = rest@;
        match rest.pop() {
            Some(c) => {
                let ghost cv = c@;
                proof {
                    assert(script_view(rest_before)[n - 1] == cv);
                    assert(cv == all[n - 1]);
                }
                out.push(c);
                proof {
                    assert(script_view(out@) =~= script_view(before).push(cv));
                    assert(script_view(out@) =~= reversed(all).take(out@.len() as int));
                    assert(script_view(rest@) =~= all.take(n - 1));
                }
            },
            None => {},
        }
    }
    assert(script_view(out@) =~= reversed(all));
    out
}

/// The lines of `a` and `b` as an edit script.
pub fn diff_lines<'a>(a: &[&'a [u8]], b: &[&'a [u8]]) -> (r: Vec<LineChange<'a>>)
    ensures
        script_view(r@) == edit_script(lines_view(a@), lines_view(b@)),
{
    let ghost av = lines_view(a@);
    let ghost bv = lines_view(b@);
    let dp = lcs_table(a, b);
    let mut out: Vec<LineChange<'a>> = Vec::new();
    let mut i: usize = a.len();
    let mut j: usize = b.len();
    proof {
        assert(av.take(i as int) =~= av);
        assert(bv.take(j as int) =~= bv);
        assert(reversed(script_view(out@)) =~= Seq::<Change>::empty());
        assert(edit_script(av, bv) + Seq::<Change>::empty() =~= edit_script(av, bv));
    }
    while i > 0 || j > 0
        invariant
            i <= a@.len(),
            j <= b@.len(),
            av == lines_view(a@),
            bv == lines_view(b@),
            dp@.len() == a@.len(),
            table_ok(dp@, av, bv),
            edit_script(av.take(i as int), bv.take(j as int)) + reversed(script_view(out@))
                == edit_script(av, bv),
        decreases i + j,
    {
        let ghost before = out@;
        let ghost ai = av.take(i as int);
        let ghost bj = bv.take(j as int);
        proof {
            if i > 0 {
                assert(ai.drop_last() =~= av.take(i - 1));
                assert(ai.last() == a@[i - 1]@);
            }
            if j > 0 {
                assert(bj.drop_last() =~= bv.take(j - 1));
                assert(bj.last() == b@[j - 1]@);
            }
        }
        let step: LineChange<'a>;
        if i > 0 && j > 0 && same_bytes(a[i - 1], b[j - 1]) {
            step = LineChange::Same(a[i - 1]);
            i -= 1;
            j -= 1;
        } else if i == 0 || (j > 0 && table_get(&dp, i, j - 1, Ghost(av), Ghost(bv)) >= table_get(
            &dp,
            i - 1,
            j,
            Ghost(av),
            Ghost(bv),
        )) {
            step = LineChange::Added(b[j - 1]);
            j -= 1;
        } else {
            step = LineChange::Removed(a[i - 1]);
            i -= 1;
        }
        let ghost sv = step@;
        out.push(step);
        proof {
            let rest = edit_script(av.take(i as int), bv.take(j as int));
            assert(edit_script(ai, bj) == rest.push(sv));
            assert(script_view(out@) =~= script_view(before).push(sv));
            assert(reversed(script_view(out@)) =~= seq![sv] + reversed(script_view(before)));
            assert(rest + reversed(script_view(out@)) =~= edit_script(ai, bj) + reversed(
                script_view(before),
            ));
        }
    }
    proof {
        assert(edit_script(av.take(0), bv.take(0)) =~= Seq::<Change>::empty());
        assert(reversed(script_view(out@)) =~= edit_script(av, bv));
    }
    reverse(out)
}

// ---------------------------------------------------------------------
// Unified format
// ---------------------------------------------------------------------

/// The first step at or after `i` that changes something, or the end.
pub open spec fn next_change(script: Seq<Change>, i: int) -> int
    decreases script.len() - i,
{
    if i >= script.len() || !(script[i] is Same) {
        i
    } else {
        next_change(script, i + 1)
    }
}

/// Where the changes that share a hunk with the change at `i` end: each next
/// one follows after at most `2 * context` unchanged lines.
pub open spec fn group_end(script: Seq<Change>, i: int, context: nat) -> int
    decreases script.len() - i,
{
    let next = next_change(script, i + 1);
    if i < next < script.len() && next - (i + 1) <= 2 * context {
        group_end(script, next, context)
    } else {
        i + 1
    }
}

/// Where a hunk for the changes up to `end` ends: `context` lines behind.
pub open spec fn hunk_end(script: Seq<Change>, end: int, context: nat) -> int {
    if script.len() - end <= context {
        script.len() as int
    } else {
        end + context
    }
}

/// Where a hunk for the change at `start` begins: `context` lines before.
pub open spec fn hunk_start(start: int, context: nat) -> int {
    if start <= context {
        0
    } else {
        start - context
    }
}

/// The hunks of a script from `i` on, as ranges of its steps.
pub open spec fn hunks(script: Seq<Change>, i: int, context: nat) -> Seq<(int, int)>
    decreases script.len() - i,
{
    let start = next_change(script, i);
    let end = hunk_end(script, group_end(script, start, context), context);
    if start >= script.len() || end <= i || end > script.len() {
        Seq::empty()
    } else {
        seq![(hunk_start(start, context), end)] + hunks(script, end, context)
    }
}

/// How many lines of the old side the steps cover.
pub open spec fn old_lines(s: Seq<Change>) -> nat
    decreases s.len(),
{
    if s.len() == 0 {
        0
    } else if s.last() is Added {
        old_lines(s.drop_last())
    } else {
        old_lines(s.drop_last()) + 1
    }
}

/// How many lines of the new side the steps cover.
pub open spec fn new_lines(s: Seq<Change>) -> nat
    decreases s.len(),
{
    if s.len() == 0 {
        0
    } else if s.last() is Removed {
        new_lines(s.drop_last())
    } else {
        new_lines(s.drop_last()) + 1
    }
}

/// A number in decimal notation, as characters.
pub open spec fn number(n: nat) -> Seq<char> {
    ascii_chars(decimal(n))
}

/// The number of the first of `count` lines that `before` lines precede. No
/// lines at all are numbered by the line they follow.
pub open spec fn first_line(before: nat, count: nat) -> nat {
    if count == 0 {
        before
    } else {
        before + 1
    }
}

/// The lines of the old side in a hunk: the first one's number, and how many
/// they are.
pub open spec fn old_range(script: Seq<Change>, from: int, to: int) -> (nat, nat) {
    let count = old_lines(script.subrange(from, to));
    (first_line(old_lines(script.take(from)), count), count)
}

/// The lines of the new side in a hunk: the first one's number, and how many
/// they are.
pub open spec fn new_range(script: Seq<Change>, from: int, to: int) -> (nat, nat) {
    let count = new_lines(script.subrange(from, to));
    (first_line(new_lines(script.take(from)), count), count)
}

/// The line that opens a hunk: first line and number of lines on both
/// sides.
pub open spec fn hunk_header(script: Seq<Change>, from: int, to: int) -> Seq<char> {
    let a = old_range(script, from, to);
    let b = new_range(script, from, to);
    "@@ -"@ + number(a.0) + ","@ + number(a.1) + " +"@ + number(b.0) + ","@ + number(b.1)
        + " @@\n"@
}

/// One step of a hunk: its sign, its line, and a note if the line has no
/// line feed.
pub open spec fn change_text(c: Change) -> Seq<char> {
    let (sign, line) = match c {
        Change::Same(l) => (" "@, l),
        Change::Removed(l) => ("-"@, l),
        Change::Added(l) => ("+"@, l),
    };
    if line.len() > 0 && line.last() == LF {
        sign + text_of(line)
    } else {
        sign + text_of(line) + "\n\\ No newline at end of file\n"@
    }
}

/// The steps of a hunk.
pub open spec fn changes_text(s: Seq<Change>) -> Seq<char>
    decreases s.len(),
{
    if s.len() == 0 {
        Seq::empty()
    } else {
        changes_text(s.drop_last()) + change_text(s.last())
    }
}

/// The text of a list of hunks.
pub open spec fn hunks_text(script: Seq<Change>, ranges: Seq<(int, int)>) -> Seq<char>
    decreases ranges.len(),
{
    if ranges.len() == 0 {
        Seq::empty()
    } else {
        let (from, to) = ranges[0];
        hunk_header(script, from, to) + changes_text(script.subrange(from, to)) + hunks_text(
            script,
            ranges.drop_first(),
        )
    }
}

/// The unified diff of two texts: two label lines and the hunks.
pub open spec fn unified(
    a: Seq<u8>,
    a_label: Seq<char>,
    b: Seq<u8>,
    b_label: Seq<char>,
    context: nat,
) -> Seq<char> {
    let script = edit_script(lines(a), lines(b));
    "--- "@ + a_label + "\n+++ "@ + b_label + "\n"@ + hunks_text(script, hunks(script, 0, context))
}

/// What [`next_change`] is.
pub proof fn next_change_spec(script: Seq<Change>, i: int)
    requires
        0 <= i <= script.len(),
    ensures
        i <= next_change(script, i) <= script.len(),
        forall|j: int| i <= j < next_change(script, i) ==> (#[trigger] script[j]) is Same,
        next_change(script, i) < script.len() ==> !(script[next_change(script, i)] is Same),
    decreases script.len() - i,
{
    if i >= script.len() || !(script[i] is Same) {
    } else {
        next_change_spec(script, i + 1);
    }
}

/// What [`group_end`] is: it stands behind a change, and the next change is
/// too far away or there is none.
pub proof fn group_end_spec(script: Seq<Change>, i: int, context: nat)
    requires
        0 <= i < script.len(),
        !(script[i] is Same),
    ensures
        ({
            let end = group_end(script, i, context);
            let next = next_change(script, end);
            &&& i < end <= script.len()
            &&& !(script[end - 1] is Same)
            &&& next < script.len() ==> next - end > 2 * context
        }),
    decreases script.len() - i,
{
    next_change_spec(script, i + 1);
    let next = next_change(script, i + 1);
    if next < script.len() && next - (i + 1) <= 2 * context {
        group_end_spec(script, next, context);
    }
}

/// Whether a step leaves its line unchanged.
fn is_same<'a>(c: &LineChange<'a>) -> (r: bool)
    ensures
        r <==> c@ is Same,
{
    match c {
        LineChange::Same(_) => true,
        _ => false,
    }
}

/// Finds the next step that changes something.
fn find_change<'a>(script: &Vec<LineChange<'a>>, i: usize) -> (r: usize)
    requires
        i <= script@.len(),
    ensures
        r == next_change(script_view(script@), i as int),
        i <= r <= script@.len(),
{
    let mut k: usize = i;
    let ghost v = script_view(script@);
    while k < script.len() && is_same(&script[k])
        invariant
            i <= k <= script@.len(),
            v == script_view(script@),
            next_change(v, k as int) == next_change(v, i as int),
        decreases script.len() - k,
    {
        k += 1;
    }
    k
}

/// Finds the end of the hunk for the change at `start`.
fn find_hunk_end<'a>(script: &Vec<LineChange<'a>>, start: usize, context: usize) -> (r: usize)
    requires
        start < script@.len(),
        !(script_view(script@)[start as int] is Same),
    ensures
        r == hunk_end(
            script_view(script@),
            group_end(script_view(script@), start as int, context as nat),
            context as nat,
        ),
        start < r <= script@.len(),
{
    let mut last: usize = start;
    let ghost v = script_view(script@);
    proof {
        group_end_spec(v, start as int, context as nat);
        next_change_spec(v, last + 1);
    }
    assert(script.len() == script@.len());
    let mut next: usize = find_change(script, last + 1);
    while next < script.len() && (next - last - 1 <= context || next - last - 1 - context
        <= context)
        invariant
            start <= last < next <= script@.len(),
            v == script_view(script@),
            next == next_change(v, last + 1),
            group_end(v, last as int, context as nat) == group_end(v, start as int, context as nat),
        decreases script.len() - last,
    {
        last = next;
        proof {
            next_change_spec(v, last + 1);
        }
        next = find_change(script, last + 1);
    }
    let end: usize = last + 1;
    if script.len() - end <= context {
        script.len()
    } else {
        end + context
    }
}

/// Counts the lines of both sides in a range of steps.
fn count_lines<'a>(script: &Vec<LineChange<'a>>, from: usize, to: usize) -> (r: (usize, usize))
    requires
        from <= to <= script@.len(),
    ensures
        r.0 == old_lines(script_view(script@).subrange(from as int, to as int)),
        r.1 == new_lines(script_view(script@).subrange(from as int, to as int)),
        r.0 <= to - from,
        r.1 <= to - from,
{
    let mut old_count: usize = 0;
    let mut new_count: usize = 0;
    let mut k: usize = from;
    let ghost v = script_view(script@);
    assert(v.subrange(from as int, from as int).len() == 0);
    while k < to
        invariant
            from <= k <= to <= script@.len(),
            v == script_view(script@),
            old_count == old_lines(v.subrange(from as int, k as int)),
            new_count == new_lines(v.subrange(from as int, k as int)),
            old_count <= k - from,
            new_count <= k - from,
        decreases to - k,
    {
        proof {
            let t = v.subrange(from as int, k + 1);
            assert(t.drop_last() =~= v.subrange(from as int, k as int));
            assert(t.last() == script@[k as int]@);
        }
        match &script[k] {
            LineChange::Same(_) => {
                old_count += 1;
                new_count += 1;
            },
            LineChange::Removed(_) => {
                old_count += 1;
            },
            LineChange::Added(_) => {
                new_count += 1;
            },
        }
        k += 1;
    }
    (old_count, new_count)
}

/// A number as a string.
pub fn number_string(n: usize) -> (r: String)
    ensures
        r@ == number(n as nat),
{
    let mut out: Vec<u8> = Vec::new();
    push_decimal(&mut out, n);
    proof {
        assert(out@ =~= decimal(n as nat));
        decimal_round_trip(n as nat);
        assert forall|i: int| 0 <= i < out@.len() implies #[trigger] out@[i] < 128 by {
            assert(is_digit(out@[i]));
        }
    }
    ascii_string(out)
}

/// Appends one step of a hunk.
fn append_change<'a>(out: &mut String, c: &LineChange<'a>)
    ensures
        final(out)@ == old(out)@ + change_text(c@),
{
    let (sign, line): (&str, &[u8]) = match c {
        LineChange::Same(l) => (" ", *l),
        LineChange::Removed(l) => ("-", *l),
        LineChange::Added(l) => ("+", *l),
    };
    let text = lossy_string(line);
    out.append(sign);
    out.append(text.as_str());
    if line.len() > 0 && line[line.len() - 1] == LF {
        assert(out@ =~= old(out)@ + change_text(c@));
    } else {
        out.append("\n\\ No newline at end of file\n");
        assert(out@ =~= old(out)@ + change_text(c@));
    }
}

/// Appends the line that opens a hunk.
fn append_header(out: &mut String, a_start: usize, a_count: usize, b_start: usize, b_count: usize)
    ensures
        final(out)@ == old(out)@ + ("@@ -"@ + number(a_start as nat) + ","@ + number(
            a_count as nat,
        ) + " +"@ + number(b_start as nat) + ","@ + number(b_count as nat) + " @@\n"@),
{
    out.append("@@ -");
    out.append(number_string(a_start).as_str());
    out.append(",");
    out.append(number_string(a_count).as_str());
    out.append(" +");
    out.append(number_string(b_start).as_str());
    out.append(",");
    out.append(number_string(b_count).as_str());
    out.append(" @@\n");
    assert(out@ =~= old(out)@ + ("@@ -"@ + number(a_start as nat) + ","@ + number(a_count as nat)
        + " +"@ + number(b_start as nat) + ","@ + number(b_count as nat) + " @@\n"@));
}

/// Appends the hunk of the steps from `from` to `to`.
fn append_hunk<'a>(out: &mut String, script: &Vec<LineChange<'a>>, from: usize, to: usize)
    requires
        from < to <= script@.len(),
    ensures
        final(out)@ == old(out)@ + (hunk_header(
            script_view(script@),
            from as int,
            to as int,
        ) + changes_text(script_view(script@).subrange(from as int, to as int))),
{
    let ghost v = script_view(script@);
    let (a_before, b_before) = count_lines(script, 0, from);
    let (a_count, b_count) = count_lines(script, from, to);
    assert(v.subrange(0, from as int) =~= v.take(from as int));
    let a_first: usize = if a_count == 0 {
        a_before
    } else {
        a_before + 1
    };
    let b_first: usize = if b_count == 0 {
        b_before
    } else {
        b_before + 1
    };
    append_header(out, a_first, a_count, b_first, b_count);
    let ghost head = out@;
    let mut k: usize = from;
    assert(v.subrange(from as int, from as int).len() == 0);
    assert(out@ =~= head + changes_text(v.subrange(from as int, from as int)));
    while k < to
        invariant
            from <= k <= to <= script@.len(),
            v == script_view(script@),
            out@ == head + changes_text(v.subrange(from as int, k as int)),
        decreases to - k,
    {
        proof {
            let t = v.subrange(from as int, k + 1);
            assert(t.drop_last() =~= v.subrange(from as int, k as int));
            assert(t.last() == script@[k as int]@);
        }
        append_change(out, &script[k]);
        assert(out@ =~= head + changes_text(v.subrange(from as int, k + 1)));
        k += 1;
    }
    assert(out@ =~= old(out)@ + (hunk_header(v, from as int, to as int) + changes_text(
        v.subrange(from as int, to as int),
    )));
}

/// Formats the unified diff of two texts with the given labels and
/// `context` unchanged lines around each hunk. Changes whose unchanged lines
/// around them would meet share a hunk.
pub fn unified_diff(a: &[u8], a_label: &str, b: &[u8], b_label: &str, context: usize) -> (r: String)
    ensures
        r@ == unified(a@, a_label@, b@, b_label@, context as nat),
{
    let a_lines = split_lines(a);
    let b_lines = split_lines(b);
    let script = diff_lines(&a_lines, &b_lines);
    let ghost v = script_view(script@);
    let mut out = String::new();
    out.append("--- ");
    out.append(a_label);
    out.append("\n+++ ");
    out.append(b_label);
    out.append("\n");
    let ghost goal = unified(a@, a_label@, b@, b_label@, context as nat);
    assert(out@ + hunks_text(v, hunks(v, 0, context as nat)) =~= goal);
    let mut i: usize = 0;
    while i < script.len()
        invariant
            i <= script@.len(),
            v == script_view(script@),
            goal == unified(a@, a_label@, b@, b_label@, context as nat),
            out@ + hunks_text(v, hunks(v, i as int, context as nat)) == goal,
        decreases script.len() - i,
    {
        let ghost before = out@;
        let start: usize = find_change(&script, i);
        if start >= script.len() {
            assert(out@ + Seq::<char>::empty() =~= out@);
            return out;
        }
        let from: usize = if start <= context {
            0
        } else {
            start - context
        };
        proof {
            next_change_spec(v, i as int);
            group_end_spec(v, start as int, context as nat);
        }
        let end: usize = find_hunk_end(&script, start, context);
        append_hunk(&mut out, &script, from, end);
        proof {
            let range = (from as int, end as int);
            let rest = hunks(v, end as int, context as nat);
            let all = hunks(v, i as int, context as nat);
            assert(all == seq![range] + rest);
            assert(all.drop_first() =~= rest);
            assert(out@ + hunks_text(v, rest) =~= before + hunks_text(v, all));
        }
        i = end;
    }
    proof {
        assert(next_change(v, i as int) >= v.len());
        assert(out@ + Seq::<char>::empty() =~= out@);
    }
    out
}

} // verus!
