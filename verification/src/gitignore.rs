//! Ignore rules: parsing, glob matching, and which paths they ignore.

use vstd::prelude::*;
use vstd::utf8::{encode_utf8, valid_utf8};

use crate::bytemap::sorted_keys;
use crate::bytes::{ascii, has_byte, has_prefix, same_bytes, text, to_vec, CR, SLASH, SPACE};
use crate::diff::{lines, lines_view, split_lines};
use crate::dir::{Dir, DirView};
use crate::files::IoError;
use crate::notation::{is_utf8, lossy_string, text_of};
use crate::refs::{chomp, strip_lf};
use crate::treewalk::{child_path, join_child, parts, parts_view, split_path};
use crate::worktree::places::{read_through, read_work_file};
use crate::worktree::{WorkFileView, WorkTree};

pub mod laws;
pub mod patterns;
pub mod sources;

verus! {

pub const BANG: u8 = 33;
pub const HASH: u8 = 35;
pub const STAR: u8 = 42;
pub const QUESTION: u8 = 63;

// ---------------------------------------------------------------------
// Globs
// ---------------------------------------------------------------------

/// What is left of a pattern behind `**`, with or without a slash.
pub open spec fn after_double_star(p: Seq<u8>) -> Seq<u8> {
    if p.len() > 2 && p[2] == SLASH {
        p.skip(3)
    } else {
        p.skip(2)
    }
}

/// Whether what stands behind the `**` of a pattern may go on at `k` of a
/// path: anywhere, but behind `**/` only where the path begins and behind a
/// slash.
pub open spec fn double_star_ends(p: Seq<u8>, path: Seq<u8>, k: int) -> bool {
    0 <= k <= path.len() && (p.len() > 2 && p[2] == SLASH ==> k == 0 || path[k - 1] == SLASH)
}

/// Whether a pattern matches a path: `**` stands for anything, `**/` for any
/// directories or none, `*` for anything without a slash, `?` for one byte that is no slash, and every
/// other byte for itself.
pub open spec fn glob(p: Seq<u8>, path: Seq<u8>) -> bool
    decreases p.len(), path.len(),
{
    if p.len() == 0 {
        path.len() == 0
    } else if p[0] == STAR && p.len() >= 2 && p[1] == STAR {
        exists|k: int|
            double_star_ends(p, path, k) && glob(after_double_star(p), #[trigger] path.skip(k))
    } else if p[0] == STAR {
        glob(p.skip(1), path) || (path.len() > 0 && path[0] != SLASH && glob(p, path.skip(1)))
    } else {
        path.len() > 0 && (p[0] == path[0] || (p[0] == QUESTION && path[0] != SLASH)) && glob(
            p.skip(1),
            path.skip(1),
        )
    }
}

/// Tests whether a pattern matches a path.
pub fn glob_match(p: &[u8], path: &[u8]) -> (r: bool)
    ensures
        r <==> glob(p@, path@),
    decreases p@.len(), path@.len(),
{
    if p.len() == 0 {
        return path.len() == 0;
    }
    let n: usize = path.len();
    if p[0] == STAR && p.len() >= 2 && p[1] == STAR {
        let from: usize = if p.len() > 2 && p[2] == SLASH {
            3
        } else {
            2
        };
        let rest = &p[from..p.len()];
        assert(rest@ =~= after_double_star(p@));
        let whole_parts = from == 3;
        let mut k: usize = 0;
        while k < n
            invariant
                k <= n,
                n == path@.len(),
                p@.len() >= 2,
                p@[0] == STAR,
                p@[1] == STAR,
                whole_parts <==> p@.len() > 2 && p@[2] == SLASH,
                rest@ == after_double_star(p@),
                rest@.len() < p@.len(),
                forall|j: int|
                    0 <= j < k && double_star_ends(p@, path@, j) ==> !glob(
                        rest@,
                        #[trigger] path@.skip(j),
                    ),
            decreases n - k,
        {
            let tail = &path[k..n];
            assert(tail@ =~= path@.skip(k as int));
            if (!whole_parts || k == 0 || path[k - 1] == SLASH) && glob_match(rest, tail) {
                assert(glob(after_double_star(p@), path@.skip(k as int)));
                return true;
            }
            k += 1;
        }
        let tail = &path[n..n];
        assert(tail@ =~= path@.skip(n as int));
        let r = (!whole_parts || n == 0 || path[n - 1] == SLASH) && glob_match(rest, tail);
        proof {
            if r {
                assert(glob(after_double_star(p@), path@.skip(n as int)));
            }
        }
        return r;
    }
    let rest = &p[1..p.len()];
    assert(rest@ =~= p@.skip(1));
    if p[0] == STAR {
        if glob_match(rest, path) {
            return true;
        }
        if n == 0 || path[0] == SLASH {
            return false;
        }
        let tail = &path[1..n];
        assert(tail@ =~= path@.skip(1));
        return glob_match(p, tail);
    }
    if n == 0 {
        return false;
    }
    let tail = &path[1..n];
    assert(tail@ =~= path@.skip(1));
    (p[0] == path[0] || (p[0] == QUESTION && path[0] != SLASH)) && glob_match(rest, tail)
}

// ---------------------------------------------------------------------
// Rules
// ---------------------------------------------------------------------

/// One ignore rule.
#[derive(Debug, Clone)]
pub struct Rule {
    /// The pattern without `!`, leading slashes and a slash at its end.
    pub pattern: Vec<u8>,
    /// The rule takes back what an earlier one ignores.
    pub negate: bool,
    /// The rule matches directories only.
    pub dir_only: bool,
    /// The pattern is matched from the directory of its file on.
    pub anchored: bool,
}

/// What a rule says.
pub struct RuleView {
    pub pattern: Seq<u8>,
    pub negate: bool,
    pub dir_only: bool,
    pub anchored: bool,
}

impl View for Rule {
    type V = RuleView;

    open spec fn view(&self) -> RuleView {
        RuleView {
            pattern: self.pattern@,
            negate: self.negate,
            dir_only: self.dir_only,
            anchored: self.anchored,
        }
    }
}

/// `s` without any `b` at its end.
pub open spec fn trim_end(s: Seq<u8>, b: u8) -> Seq<u8>
    decreases s.len(),
{
    if s.len() > 0 && s.last() == b {
        trim_end(s.drop_last(), b)
    } else {
        s
    }
}

/// `s` without any `b` at its beginning.
pub open spec fn trim_start(s: Seq<u8>, b: u8) -> Seq<u8>
    decreases s.len(),
{
    if s.len() > 0 && s[0] == b {
        trim_start(s.drop_first(), b)
    } else {
        s
    }
}

/// The rule that a line states; none for blank lines and comments.
pub open spec fn rule_of(line: Seq<u8>) -> Option<RuleView> {
    let l = trim_end(chomp(line), CR);
    let t = trim_end(l, SPACE);
    let negate = t.len() > 0 && t[0] == BANG;
    let u = if negate {
        t.skip(1)
    } else {
        t
    };
    let dir_only = u.len() > 0 && u.last() == SLASH;
    let w = if dir_only {
        u.drop_last()
    } else {
        u
    };
    let pattern = trim_start(w, SLASH);
    if l.len() == 0 || l[0] == HASH || pattern.len() == 0 {
        None
    } else {
        Some(RuleView { pattern, negate, dir_only, anchored: w.contains(SLASH) })
    }
}

/// Whether a rule's pattern matches a path: as a whole, or, if it is not
/// anchored, from one of its parts on.
pub open spec fn rule_matches(r: RuleView, path: Seq<u8>) -> bool {
    glob(r.pattern, path) || (!r.anchored && exists|i: int|
        0 <= i < path.len() && #[trigger] path[i] == SLASH && glob(r.pattern, path.skip(i + 1)))
}

/// Whether a rule matches a path or a directory that it lies in.
pub open spec fn rule_covers(r: RuleView, path: Seq<u8>, is_dir: bool) -> bool {
    ||| (!r.dir_only || is_dir) && rule_matches(r, path)
    ||| exists|i: int|
        0 <= i < path.len() && path[i] == SLASH && #[trigger] rule_matches(r, path.take(i))
}

/// `s` without any `b` at its end.
fn strip_end(s: &[u8], b: u8) -> (r: &[u8])
    ensures
        r@ == trim_end(s@, b),
{
    let mut end: usize = s.len();
    assert(s@.take(end as int) =~= s@);
    while end > 0 && s[end - 1] == b
        invariant
            end <= s@.len(),
            trim_end(s@.take(end as int), b) == trim_end(s@, b),
        decreases end,
    {
        assert(s@.take(end as int).drop_last() =~= s@.take(end - 1));
        end -= 1;
    }
    assert(s@.subrange(0, end as int) =~= s@.take(end as int));
    &s[0..end]
}

/// `s` without any `b` at its beginning.
fn strip_start(s: &[u8], b: u8) -> (r: &[u8])
    ensures
        r@ == trim_start(s@, b),
{
    let mut start: usize = 0;
    assert(s@.skip(0) =~= s@);
    while start < s.len() && s[start] == b
        invariant
            start <= s@.len(),
            trim_start(s@.skip(start as int), b) == trim_start(s@, b),
        decreases s.len() - start,
    {
        assert(s@.skip(start as int).drop_first() =~= s@.skip(start + 1));
        start += 1;
    }
    assert(s@.subrange(start as int, s@.len() as int) =~= s@.skip(start as int));
    &s[start..s.len()]
}

/// Parses a line of an ignore file.
fn parse_rule(line: &[u8]) -> (r: Option<Rule>)
    ensures
        match r {
            Some(rule) => rule_of(line@) == Some(rule@),
            None => rule_of(line@) is None,
        },
{
    let l = strip_end(strip_lf(line), CR);
    if l.len() == 0 || l[0] == HASH {
        return None;
    }
    let t = strip_end(l, SPACE);
    let negate = t.len() > 0 && t[0] == BANG;
    let from: usize = if negate {
        1
    } else {
        0
    };
    let u = &t[from..t.len()];
    proof {
        assert(t@.subrange(0, t@.len() as int) =~= t@);
        assert(negate ==> u@ =~= t@.skip(1));
    }
    let dir_only = u.len() > 0 && u[u.len() - 1] == SLASH;
    let end: usize = if dir_only {
        u.len() - 1
    } else {
        u.len()
    };
    let w = &u[0..end];
    proof {
        assert(u@.subrange(0, u@.len() as int) =~= u@);
        assert(dir_only ==> w@ =~= u@.drop_last());
    }
    let anchored = has_byte(w, SLASH);
    let pattern = strip_start(w, SLASH);
    if pattern.len() == 0 {
        return None;
    }
    Some(Rule { pattern: to_vec(pattern), negate, dir_only, anchored })
}

impl Rule {
    /// Whether the pattern matches a path.
    fn matches(&self, path: &[u8]) -> (r: bool)
        ensures
            r <==> rule_matches(self@, path@),
    {
        if glob_match(&self.pattern, path) {
            return true;
        }
        if self.anchored {
            return false;
        }
        let mut i: usize = 0;
        while i < path.len()
            invariant
                i <= path@.len(),
                !self.anchored,
                forall|j: int|
                    0 <= j < i && #[trigger] path@[j] == SLASH ==> !glob(
                        self.pattern@,
                        path@.skip(j + 1),
                    ),
            decreases path.len() - i,
        {
            if path[i] == SLASH {
                let tail = &path[i + 1..path.len()];
                assert(tail@ =~= path@.skip(i + 1));
                if glob_match(&self.pattern, tail) {
                    assert(glob(self@.pattern, path@.skip(i + 1)));
                    return true;
                }
            }
            i += 1;
        }
        false
    }

    /// Whether the rule matches a path or a directory that it lies in.
    fn matches_self_or_ancestor(&self, path: &[u8], is_dir: bool) -> (r: bool)
        ensures
            r <==> rule_covers(self@, path@, is_dir),
    {
        if (!self.dir_only || is_dir) && self.matches(path) {
            return true;
        }
        let mut i: usize = 0;
        while i < path.len()
            invariant
                i <= path@.len(),
                forall|j: int|
                    0 <= j < i && path@[j] == SLASH ==> !#[trigger] rule_matches(
                        self@,
                        path@.take(j),
                    ),
            decreases path.len() - i,
        {
            if path[i] == SLASH {
                let head = &path[0..i];
                assert(head@ =~= path@.take(i as int));
                if self.matches(head) {
                    assert(rule_matches(self@, path@.take(i as int)));
                    return true;
                }
            }
            i += 1;
        }
        false
    }
}

// ---------------------------------------------------------------------
// Rule sets
// ---------------------------------------------------------------------

/// Ignore rules, in sets: each set holds for one directory and what is
/// below it. The empty path is the top.
#[derive(Debug, Clone)]
pub struct GitignoreSet {
    sets: Vec<(Vec<u8>, Vec<Rule>)>,
}

/// What the rules of a list say.
pub open spec fn rules_view(rules: Seq<Rule>) -> Seq<RuleView> {
    rules.map_values(|r: Rule| r@)
}

/// What the sets of a list say.
pub open spec fn sets_view(sets: Seq<(Vec<u8>, Vec<Rule>)>) -> Seq<(Seq<u8>, Seq<RuleView>)> {
    sets.map_values(|s: (Vec<u8>, Vec<Rule>)| (s.0@, rules_view(s.1@)))
}

impl View for GitignoreSet {
    type V = Seq<(Seq<u8>, Seq<RuleView>)>;

    closed spec fn view(&self) -> Seq<(Seq<u8>, Seq<RuleView>)> {
        sets_view(self.sets@)
    }
}

/// The sets with a rule added to that of a directory; a directory without
/// one gets it at the end.
pub open spec fn with_rule(sets: Seq<(Seq<u8>, Seq<RuleView>)>, dir: Seq<u8>, r: RuleView) -> Seq<
    (Seq<u8>, Seq<RuleView>),
>
    decreases sets.len(),
{
    if sets.len() == 0 {
        seq![(dir, seq![r])]
    } else if sets[0].0 == dir {
        seq![(dir, sets[0].1.push(r))] + sets.drop_first()
    } else {
        seq![sets[0]] + with_rule(sets.drop_first(), dir, r)
    }
}

/// The sets with the rules of some lines added.
pub open spec fn with_lines(
    sets: Seq<(Seq<u8>, Seq<RuleView>)>,
    dir: Seq<u8>,
    ls: Seq<Seq<u8>>,
) -> Seq<(Seq<u8>, Seq<RuleView>)>
    decreases ls.len(),
{
    if ls.len() == 0 {
        sets
    } else {
        let done = with_lines(sets, dir, ls.drop_last());
        match rule_of(ls.last()) {
            Some(r) => with_rule(done, dir, r),
            None => done,
        }
    }
}

/// A path as seen from a directory, if it lies below the directory.
pub open spec fn relative(path: Seq<u8>, dir: Seq<u8>) -> Option<Seq<u8>> {
    if dir.len() == 0 {
        Some(path)
    } else if dir.is_prefix_of(path) && path.len() > dir.len() && path[dir.len() as int] == SLASH {
        Some(path.skip(dir.len() as int + 1))
    } else {
        None
    }
}

/// What a list of rules says of a path: the last rule that covers it
/// counts, and `before` if none does.
pub open spec fn verdict(rules: Seq<RuleView>, path: Seq<u8>, is_dir: bool, before: bool) -> bool
    decreases rules.len(),
{
    if rules.len() == 0 {
        before
    } else if rule_covers(rules.last(), path, is_dir) {
        !rules.last().negate
    } else {
        verdict(rules.drop_last(), path, is_dir, before)
    }
}

/// What the rules of the sets say of a path alone: the last one that covers
/// it counts.
pub open spec fn ruled_out(
    sets: Seq<(Seq<u8>, Seq<RuleView>)>,
    path: Seq<u8>,
    is_dir: bool,
) -> bool
    decreases sets.len(),
{
    if sets.len() == 0 {
        false
    } else {
        let before = ruled_out(sets.drop_last(), path, is_dir);
        match relative(path, sets.last().0) {
            Some(rel) => verdict(sets.last().1, rel, is_dir, before),
            None => before,
        }
    }
}

/// Whether the sets ignore a path: its own rules say so, or those of a
/// directory above it, from which no rule takes a file back.
pub open spec fn ignores(
    sets: Seq<(Seq<u8>, Seq<RuleView>)>,
    path: Seq<u8>,
    is_dir: bool,
) -> bool {
    ||| ruled_out(sets, path, is_dir)
    ||| exists|k: int|
        0 < k < path.len() && path[k] == SLASH && #[trigger] ruled_out(sets, path.take(k), true)
}

/// Where [`with_rule`] adds the rule.
pub proof fn with_rule_at(
    sets: Seq<(Seq<u8>, Seq<RuleView>)>,
    dir: Seq<u8>,
    r: RuleView,
    k: int,
)
    requires
        0 <= k <= sets.len(),
        forall|j: int| 0 <= j < k ==> (#[trigger] sets[j]).0 != dir,
        k < sets.len() ==> sets[k].0 == dir,
    ensures
        with_rule(sets, dir, r) == if k < sets.len() {
            sets.update(k, (dir, sets[k].1.push(r)))
        } else {
            sets.push((dir, seq![r]))
        },
    decreases sets.len(),
{
    let goal = if k < sets.len() {
        sets.update(k, (dir, sets[k].1.push(r)))
    } else {
        sets.push((dir, seq![r]))
    };
    if sets.len() == 0 {
        assert(with_rule(sets, dir, r) =~= goal);
    } else if k == 0 {
        assert(with_rule(sets, dir, r) =~= goal);
    } else {
        assert(sets[0].0 != dir);
        let t = sets.drop_first();
        assert forall|j: int| 0 <= j < k - 1 implies (#[trigger] t[j]).0 != dir by {
            assert(t[j] == sets[j + 1]);
        }
        with_rule_at(t, dir, r, k - 1);
        assert(with_rule(sets, dir, r) =~= goal);
    }
}

impl GitignoreSet {
    /// No rules.
    pub fn new() -> (r: GitignoreSet)
        ensures
            r@ == Seq::<(Seq<u8>, Seq<RuleView>)>::empty(),
    {
        let r = GitignoreSet { sets: Vec::new() };
        assert(r@ =~= Seq::<(Seq<u8>, Seq<RuleView>)>::empty());
        r
    }

    /// Adds a rule to the set of a directory.
    fn upsert_rule(&mut self, dir: &[u8], rule: Rule)
        ensures
            final(self)@ == with_rule(old(self)@, dir@, rule@),
    {
        let ghost v = self@;
        let ghost rv = rule@;
        let mut k: usize = 0;
        while k < self.sets.len() && !same_bytes(&self.sets[k].0, dir)
            invariant
                k <= self.sets@.len(),
                v == sets_view(self.sets@),
                forall|j: int| 0 <= j < k ==> (#[trigger] v[j]).0 != dir@,
            decreases self.sets.len() - k,
        {
            assert(v[k as int].0 == self.sets@[k as int].0@);
            k += 1;
        }
        proof {
            if k < self.sets@.len() {
                assert(v[k as int].0 == self.sets@[k as int].0@);
            }
            with_rule_at(v, dir@, rv, k as int);
        }
        if k < self.sets.len() {
            let ghost before = self.sets@;
            let (name, mut rules) = self.sets.remove(k);
            let ghost old_rules = rules@;
            rules.push(rule);
            self.sets.insert(k, (name, rules));
            proof {
                let now = self.sets@;
                assert(rules_view(rules@) =~= rules_view(old_rules).push(rv));
                assert(v[k as int] == (before[k as int].0@, rules_view(before[k as int].1@)));
                assert forall|j: int| 0 <= j < now.len() && j != k implies now[j] == before[j] by {}
                assert(self@ =~= v.update(k as int, (dir@, v[k as int].1.push(rv))));
            }
        } else {
            let ghost before = self.sets@;
            let mut rules: Vec<Rule> = Vec::new();
            rules.push(rule);
            self.sets.push((to_vec(dir), rules));
            assert(rules_view(rules@) =~= seq![rv]);
            assert(self@ =~= v.push((dir@, seq![rv])));
        }
    }

    /// Adds the rules of a text to the set of a directory.
    fn add_rules_with_prefix(&mut self, dir: &[u8], content: &[u8])
        ensures
            final(self)@ == with_lines(old(self)@, dir@, lines(content@)),
    {
        let ls = split_lines(content);
        let ghost v = lines_view(ls@);
        let ghost start = self@;
        let mut i: usize = 0;
        assert(v.take(0) =~= Seq::<Seq<u8>>::empty());
        while i < ls.len()
            invariant
                i <= ls@.len(),
                v == lines_view(ls@),
                self@ == with_lines(start, dir@, v.take(i as int)),
            decreases ls.len() - i,
        {
            proof {
                assert(v.take(i + 1).drop_last() =~= v.take(i as int));
                assert(v.take(i + 1).last() == ls@[i as int]@);
            }
            if let Some(rule) = parse_rule(ls[i]) {
                self.upsert_rule(dir, rule);
            }
            i += 1;
        }
        assert(v.take(i as int) =~= v);
    }

    /// Adds the rules of a text at the top.
    pub fn add_rules(&mut self, content: &str)
        ensures
            final(self)@ == with_lines(
                old(self)@,
                Seq::empty(),
                lines(encode_utf8(content@)),
            ),
    {
        let top: Vec<u8> = Vec::new();
        assert(top@ =~= Seq::<u8>::empty());
        self.add_rules_with_prefix(&top, content.as_bytes());
    }

    /// Whether the rules exclude a path by itself.
    fn is_ruled_out(&self, path: &[u8], is_dir: bool) -> (r: bool)
        ensures
            r <==> ruled_out(self@, path@, is_dir),
    {
        let ghost v = self@;
        let mut ignored = false;
        let mut i: usize = 0;
        assert(v.take(0) =~= Seq::<(Seq<u8>, Seq<RuleView>)>::empty());
        while i < self.sets.len()
            invariant
                i <= self.sets@.len(),
                v == sets_view(self.sets@),
                ignored == ruled_out(v.take(i as int), path@, is_dir),
            decreases self.sets.len() - i,
        {
            let set = &self.sets[i];
            proof {
                assert(v.take(i + 1).drop_last() =~= v.take(i as int));
                assert(v.take(i + 1).last() == (set.0@, rules_view(set.1@)));
            }
            if let Some(rel) = relative_to_prefix(path, &set.0) {
                let ghost before = ignored;
                let ghost rs = rules_view(set.1@);
                let mut k: usize = 0;
                assert(rs.take(0) =~= Seq::<RuleView>::empty());
                while k < set.1.len()
                    invariant
                        k <= set.1@.len(),
                        rs == rules_view(set.1@),
                        ignored == verdict(rs.take(k as int), rel@, is_dir, before),
                    decreases set.1.len() - k,
                {
                    proof {
                        assert(rs.take(k + 1).drop_last() =~= rs.take(k as int));
                        assert(rs.take(k + 1).last() == set.1@[k as int]@);
                    }
                    if set.1[k].matches_self_or_ancestor(rel, is_dir) {
                        ignored = !set.1[k].negate;
                    }
                    k += 1;
                }
                assert(rs.take(k as int) =~= rs);
            }
            i += 1;
        }
        assert(v.take(i as int) =~= v);
        ignored
    }

    /// Whether a path is ignored. A file in an ignored directory is, too.
    pub fn is_ignored(&self, path: &[u8], is_dir: bool) -> (r: bool)
        ensures
            r <==> ignores(self@, path@, is_dir),
    {
        let mut k: usize = 1;
        while k < path.len()
            invariant
                0 < k,
                forall|j: int|
                    0 < j < k && j < path@.len() && path@[j] == SLASH ==> !#[trigger] ruled_out(
                        self@,
                        path@.take(j),
                        true,
                    ),
            decreases path.len() - k,
        {
            if path[k] == SLASH {
                let head = &path[0..k];
                assert(head@ =~= path@.take(k as int));
                if self.is_ruled_out(head, true) {
                    assert(ruled_out(self@, path@.take(k as int), true));
                    return true;
                }
            }
            k += 1;
        }
        self.is_ruled_out(path, is_dir)
    }
}

impl Default for GitignoreSet {
    fn default() -> (r: GitignoreSet)
        ensures
            r@ == Seq::<(Seq<u8>, Seq<RuleView>)>::empty(),
    {
        GitignoreSet::new()
    }
}

/// A path as seen from a directory.
fn relative_to_prefix<'a>(path: &'a [u8], dir: &[u8]) -> (r: Option<&'a [u8]>)
    ensures
        match r {
            Some(rel) => relative(path@, dir@) == Some(rel@),
            None => relative(path@, dir@) is None,
        },
{
    if dir.len() == 0 {
        return Some(path);
    }
    if !has_prefix(path, dir) || path.len() == dir.len() || path[dir.len()] != SLASH {
        return None;
    }
    let rel = &path[dir.len() + 1..path.len()];
    assert(rel@ =~= path@.skip(dir@.len() as int + 1));
    Some(rel)
}

// ---------------------------------------------------------------------
// Ignore files
// ---------------------------------------------------------------------

/// The sets with the rules of a file at the top, which may be missing but
/// has to be valid UTF-8.
pub open spec fn with_top_file(
    sets: Result<Seq<(Seq<u8>, Seq<RuleView>)>, IoError>,
    file: Result<Seq<u8>, IoError>,
) -> Result<Seq<(Seq<u8>, Seq<RuleView>)>, IoError> {
    match sets {
        Err(e) => Err(e),
        Ok(s) => match file {
            Ok(c) => if valid_utf8(c) {
                Ok(with_lines(s, Seq::empty(), lines(c)))
            } else {
                Err(IoError::InvalidData)
            },
            Err(IoError::NotFound) => Ok(s),
            Err(e) => Err(e),
        },
    }
}

/// The sets with the rules of the ignore files in the first `n`
/// directories. Files that cannot be read are passed over, and so is what
/// belongs to a `.git` directory.
pub open spec fn with_nested(
    work: DirView<WorkFileView>,
    dirs: Seq<Seq<u8>>,
    n: nat,
    sets: Seq<(Seq<u8>, Seq<RuleView>)>,
) -> Seq<(Seq<u8>, Seq<RuleView>)>
    decreases n,
{
    if n == 0 {
        sets
    } else {
        let d = dirs[n - 1];
        let done = with_nested(work, dirs, (n - 1) as nat, sets);
        match read_through(work, child_path(d, ascii(".gitignore"@))) {
            Ok(c) => if valid_utf8(c) && !parts(d).contains(ascii(".git"@)) {
                with_lines(done, encode_utf8(text_of(d)), lines(c))
            } else {
                done
            },
            Err(_) => done,
        }
    }
}

/// The ignore rules of a repository: those of `.gitignore` and
/// `info/exclude` at the top, then those of each directory below.
pub open spec fn ignore_rules(work: DirView<WorkFileView>, git: DirView<Seq<u8>>) -> Result<
    Seq<(Seq<u8>, Seq<RuleView>)>,
    IoError,
> {
    let top = with_top_file(
        with_top_file(Ok(Seq::empty()), read_through(work, ascii(".gitignore"@))),
        git.read(ascii("info/exclude"@)),
    );
    match top {
        Err(e) => Err(e),
        Ok(s) => {
            let dirs = sorted_keys(work.dirs);
            Ok(with_nested(work, dirs, dirs.len(), s))
        },
    }
}

/// Whether one of a path's parts is `.git`.
pub fn in_git_dir(path: &[u8]) -> (r: bool)
    ensures
        r <==> parts(path@).contains(ascii(".git"@)),
{
    proof {
        reveal_strlit(".git");
    }
    let ps = split_path(path);
    let ghost v = parts(path@);
    let mut i: usize = 0;
    while i < ps.len()
        invariant
            i <= ps@.len(),
            v == parts_view(ps@),
            v == parts(path@),
            vstd::utf8::is_ascii_chars(".git"@),
            forall|j: int| 0 <= j < i ==> #[trigger] v[j] != ascii(".git"@),
        decreases ps.len() - i,
    {
        assert(v[i as int] == ps@[i as int]@);
        if same_bytes(&ps[i], text(".git")) {
            assert(v[i as int] == ascii(".git"@));
            return true;
        }
        i += 1;
    }
    false
}

impl GitignoreSet {
    /// Adds the rules of a file at the top.
    fn add_top_file(&mut self, file: Result<&Vec<u8>, IoError>) -> (r: Result<(), IoError>)
        ensures
            with_top_file(Ok(old(self)@), match file {
                Ok(c) => Ok(c@),
                Err(e) => Err(e),
            }) == match r {
                Ok(_) => Ok::<_, IoError>(final(self)@),
                Err(e) => Err::<Seq<(Seq<u8>, Seq<RuleView>)>, _>(e),
            },
    {
        match file {
            Ok(c) => {
                if !is_utf8(c) {
                    return Err(IoError::InvalidData);
                }
                let top: Vec<u8> = Vec::new();
                assert(top@ =~= Seq::<u8>::empty());
                self.add_rules_with_prefix(&top, c);
                Ok(())
            },
            Err(IoError::NotFound) => Ok(()),
            Err(e) => Err(e),
        }
    }

    /// Loads the ignore rules of a repository.
    pub fn load(work: &WorkTree, git: &Dir<Vec<u8>>) -> (r: Result<GitignoreSet, IoError>)
        ensures
            match r {
                Ok(s) => ignore_rules(work@, git@) == Ok::<_, IoError>(s@),
                Err(e) => ignore_rules(work@, git@) == Err::<Seq<(Seq<u8>, Seq<RuleView>)>, _>(e),
            },
    {
        proof {
            reveal_strlit(".gitignore");
            reveal_strlit("info/exclude");
        }
        let mut set = GitignoreSet::new();
        match set.add_top_file(read_work_file(work, text(".gitignore"))) {
            Ok(_) => {},
            Err(e) => return Err(e),
        }
        match set.add_top_file(git.read(text("info/exclude"))) {
            Ok(_) => {},
            Err(e) => return Err(e),
        }
        let ghost top = set@;
        let dirs = work.dirs();
        let n: usize = dirs.count();
        let ghost ds = dirs.keys();
        let mut i: usize = 0;
        while i < n
            invariant
                i <= n,
                n == ds.len(),
                ds == dirs.keys(),
                vstd::utf8::is_ascii_chars(".gitignore"@),
                set@ == with_nested(work@, ds, i as nat, top),
            decreases n - i,
        {
            let d = dirs.key(i);
            let path = join_child(d, text(".gitignore"));
            if let Ok(c) = read_work_file(work, &path) {
                if is_utf8(c) && !in_git_dir(d) {
                    let name = lossy_string(d);
                    set.add_rules_with_prefix(name.as_str().as_bytes(), c);
                }
            }
            i += 1;
        }
        Ok(set)
    }
}

} // verus!
