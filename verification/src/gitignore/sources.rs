//! Which ignore rules a repository has.

use vstd::prelude::*;
use vstd::utf8::{encode_utf8, valid_utf8};

use super::{ignore_rules, rule_of, with_lines, with_nested, with_rule, with_rule_at, RuleView};
use crate::bytemap::{sorted_keys, sorted_keys_lists};
use crate::bytes::ascii;
use crate::diff::lines;
use crate::dir::DirView;
use crate::files::IoError;
use crate::notation::text_of;
use crate::treewalk::{child_path, parts};
use crate::worktree::places::read_through;
use crate::worktree::WorkFileView;

verus! {

/// Whether a set for a directory has a rule.
pub open spec fn has_rule(sets: Seq<(Seq<u8>, Seq<RuleView>)>, dir: Seq<u8>, r: RuleView) -> bool {
    exists|i: int| 0 <= i < sets.len() && (#[trigger] sets[i]).0 == dir && sets[i].1.contains(r)
}

/// Adding a rule keeps the others.
proof fn rule_joins(
    sets: Seq<(Seq<u8>, Seq<RuleView>)>,
    dir: Seq<u8>,
    r: RuleView,
    d: Seq<u8>,
    x: RuleView,
)
    ensures
        has_rule(with_rule(sets, dir, r), d, x) <==> has_rule(sets, d, x) || (d == dir && x == r),
    decreases sets.len(),
{
    let out = with_rule(sets, dir, r);
    let k = first_set(sets, dir);
    with_rule_at(sets, dir, r, k);
    if has_rule(sets, d, x) {
        let i = choose|i: int|
            0 <= i < sets.len() && (#[trigger] sets[i]).0 == d && sets[i].1.contains(x);
        if i == k {
            let rs = sets[k].1;
            let j = choose|j: int| 0 <= j < rs.len() && rs[j] == x;
            assert(rs.push(r)[j] == x);
            assert(out[k].1.contains(x));
            assert(out[k].0 == d);
        } else {
            assert(out[i] == sets[i]);
        }
    }
    if d == dir && x == r {
        if k < sets.len() {
            let rs = sets[k].1;
            assert(rs.push(r)[rs.len() as int] == r);
            assert(out[k].1.contains(r) && out[k].0 == dir);
        } else {
            assert(seq![r][0] == r);
            assert(out[k].1.contains(r) && out[k].0 == dir);
        }
    }
    if has_rule(out, d, x) {
        let i = choose|i: int|
            0 <= i < out.len() && (#[trigger] out[i]).0 == d && out[i].1.contains(x);
        if i == k {
            if k < sets.len() {
                let rs = sets[k].1;
                let j = choose|j: int| 0 <= j < rs.push(r).len() && rs.push(r)[j] == x;
                if j < rs.len() {
                    assert(rs[j] == x);
                    assert(sets[k].1.contains(x) && sets[k].0 == d);
                }
            }
        } else {
            assert(out[i] == sets[i]);
        }
    }
}

/// The first set for a directory.
proof fn first_set(sets: Seq<(Seq<u8>, Seq<RuleView>)>, dir: Seq<u8>) -> (k: int)
    ensures
        0 <= k <= sets.len(),
        forall|j: int| 0 <= j < k ==> (#[trigger] sets[j]).0 != dir,
        k < sets.len() ==> sets[k].0 == dir,
    decreases sets.len(),
{
    if sets.len() == 0 || sets[0].0 == dir {
        0
    } else {
        let t = sets.drop_first();
        let k = first_set(t, dir);
        assert forall|j: int| 0 <= j < k + 1 implies (#[trigger] sets[j]).0 != dir by {
            if j > 0 {
                assert(sets[j] == t[j - 1]);
            }
        }
        k + 1
    }
}

/// Whether one of some lines states a rule.
pub open spec fn line_states(ls: Seq<Seq<u8>>, r: RuleView) -> bool {
    exists|i: int| 0 <= i < ls.len() && rule_of(#[trigger] ls[i]) == Some(r)
}

/// Adding lines adds just the rules that they state.
proof fn lines_join(
    sets: Seq<(Seq<u8>, Seq<RuleView>)>,
    dir: Seq<u8>,
    ls: Seq<Seq<u8>>,
    d: Seq<u8>,
    x: RuleView,
)
    ensures
        has_rule(with_lines(sets, dir, ls), d, x) <==> has_rule(sets, d, x) || (d == dir
            && line_states(ls, x)),
    decreases ls.len(),
{
    if ls.len() > 0 {
        let t = ls.drop_last();
        lines_join(sets, dir, t, d, x);
        let done = with_lines(sets, dir, t);
        if let Some(r) = rule_of(ls.last()) {
            rule_joins(done, dir, r, d, x);
        }
        if line_states(t, x) {
            let i = choose|i: int| 0 <= i < t.len() && rule_of(#[trigger] t[i]) == Some(x);
            assert(rule_of(ls[i]) == Some(x));
        }
        if line_states(ls, x) {
            let i = choose|i: int| 0 <= i < ls.len() && rule_of(#[trigger] ls[i]) == Some(x);
            if i < t.len() {
                assert(rule_of(t[i]) == Some(x));
            }
        }
        assert(ls[ls.len() - 1] == ls.last());
    }
}

/// Whether the ignore file of a directory below the top states a rule.
pub open spec fn file_states(
    work: DirView<WorkFileView>,
    dir: Seq<u8>,
    d: Seq<u8>,
    r: RuleView,
) -> bool {
    &&& encode_utf8(text_of(dir)) == d
    &&& !parts(dir).contains(ascii(".git"@))
    &&& read_through(work, child_path(dir, ascii(".gitignore"@))) matches Ok(c) && valid_utf8(c)
        && line_states(lines(c), r)
}

/// The rules of the directories below the top.
proof fn nested_join(
    work: DirView<WorkFileView>,
    dirs: Seq<Seq<u8>>,
    n: nat,
    sets: Seq<(Seq<u8>, Seq<RuleView>)>,
    d: Seq<u8>,
    x: RuleView,
)
    requires
        n <= dirs.len(),
    ensures
        has_rule(with_nested(work, dirs, n, sets), d, x) <==> has_rule(sets, d, x) || exists|i: int|
            0 <= i < n && file_states(work, #[trigger] dirs[i], d, x),
    decreases n,
{
    if n > 0 {
        let m = (n - 1) as nat;
        nested_join(work, dirs, m, sets, d, x);
        let done = with_nested(work, dirs, m, sets);
        let dir = dirs[n - 1];
        if let Ok(c) = read_through(work, child_path(dir, ascii(".gitignore"@))) {
            if valid_utf8(c) && !parts(dir).contains(ascii(".git"@)) {
                lines_join(done, encode_utf8(text_of(dir)), lines(c), d, x);
            }
        }
        if exists|i: int| 0 <= i < m && file_states(work, #[trigger] dirs[i], d, x) {
            let i = choose|i: int| 0 <= i < m && file_states(work, #[trigger] dirs[i], d, x);
            assert(file_states(work, dirs[i], d, x));
        }
        if exists|i: int| 0 <= i < n && file_states(work, #[trigger] dirs[i], d, x) {
            let i = choose|i: int| 0 <= i < n && file_states(work, #[trigger] dirs[i], d, x);
            if i < m {
                assert(file_states(work, dirs[i], d, x));
            }
        }
    }
}

/// Whether one of the two ignore files for the top states a rule.
pub open spec fn top_states(f: Result<Seq<u8>, IoError>, r: RuleView) -> bool {
    f matches Ok(c) && valid_utf8(c) && line_states(lines(c), r)
}

/// Law: a repository has just the ignore rules that the lines of its ignore
/// files state: for the top those of `.gitignore` and of `info/exclude`, and for
/// each directory below it, outside every `.git`, those of its own
/// `.gitignore`.
pub proof fn law_ignore_rules(
    work: DirView<WorkFileView>,
    git: DirView<Seq<u8>>,
    d: Seq<u8>,
    r: RuleView,
)
    requires
        ignore_rules(work, git) is Ok,
        work.dirs.finite(),
    ensures
        has_rule(ignore_rules(work, git)->Ok_0, d, r) <==> (d.len() == 0 && (top_states(
            read_through(work, ascii(".gitignore"@)),
            r,
        ) || top_states(git.read(ascii("info/exclude"@)), r))) || exists|dir: Seq<u8>|
            work.dirs.contains(dir) && #[trigger] file_states(work, dir, d, r),
{
    let none = Seq::<(Seq<u8>, Seq<RuleView>)>::empty();
    let top = Seq::<u8>::empty();
    let f = read_through(work, ascii(".gitignore"@));
    let g = git.read(ascii("info/exclude"@));
    let s1 = super::with_top_file(Ok(none), f)->Ok_0;
    let s2 = super::with_top_file(Ok(s1), g)->Ok_0;
    assert(!has_rule(none, d, r));
    if let Ok(c) = f {
        lines_join(none, top, lines(c), d, r);
    }
    if let Ok(c) = g {
        lines_join(s1, top, lines(c), d, r);
    }
    assert(d.len() == 0 ==> d =~= top);
    let dirs = sorted_keys(work.dirs);
    sorted_keys_lists(work.dirs);
    nested_join(work, dirs, dirs.len(), s2, d, r);
    if exists|i: int| 0 <= i < dirs.len() && file_states(work, #[trigger] dirs[i], d, r) {
        let i = choose|i: int| 0 <= i < dirs.len() && file_states(work, #[trigger] dirs[i], d, r);
        assert(dirs.contains(dirs[i]));
        assert(work.dirs.contains(dirs[i]) && file_states(work, dirs[i], d, r));
    }
    if exists|dir: Seq<u8>| work.dirs.contains(dir) && #[trigger] file_states(work, dir, d, r) {
        let dir = choose|dir: Seq<u8>|
            work.dirs.contains(dir) && #[trigger] file_states(work, dir, d, r);
        assert(dirs.contains(dir));
        let i = choose|i: int| 0 <= i < dirs.len() && dirs[i] == dir;
        assert(file_states(work, dirs[i], d, r));
    }
}

} // verus!
