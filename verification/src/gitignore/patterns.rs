//! What patterns match, and which rules the lines of an ignore file state.

use vstd::prelude::*;

use super::{
    glob, relative, rule_covers, rule_matches, rule_of, trim_end, trim_start, with_lines, with_rule,
    with_rule_at, RuleView,
};
use crate::refs::chomp;

verus! {

// ---------------------------------------------------------------------
// Globs
// ---------------------------------------------------------------------

/// Whether no byte of a pattern is `*` or `?`.
pub open spec fn plain(p: Seq<u8>) -> bool {
    forall|i: int| 0 <= i < p.len() ==> #[trigger] p[i] != 42 && p[i] != 63
}

/// Whether no byte is a slash.
pub open spec fn slashless(p: Seq<u8>) -> bool {
    forall|i: int| 0 <= i < p.len() ==> #[trigger] p[i] != 47
}

/// Law: plain bytes at the beginning of a pattern match just themselves, and
/// the rest of the pattern what follows.
pub proof fn law_glob_plain(a: Seq<u8>, q: Seq<u8>, path: Seq<u8>)
    requires
        plain(a),
    ensures
        glob(a + q, path) <==> a.is_prefix_of(path) && glob(q, path.skip(a.len() as int)),
    decreases a.len(),
{
    if a.len() == 0 {
        assert(a + q =~= q);
        assert(path.skip(0) =~= path);
        assert(a =~= path.take(0));
    } else {
        let p = a + q;
        let t = a.skip(1);
        assert(a[0] != 42 && a[0] != 63);
        assert(p[0] == a[0]);
        assert(p.skip(1) =~= t + q);
        assert forall|i: int| 0 <= i < t.len() implies #[trigger] t[i] != 42 && t[i] != 63 by {
            assert(t[i] == a[i + 1]);
        }
        if path.len() > 0 {
            let u = path.skip(1);
            law_glob_plain(t, q, u);
            if a.len() <= path.len() {
                assert(u.skip(t.len() as int) =~= path.skip(a.len() as int));
            }
            if a.is_prefix_of(path) {
                assert(t =~= u.take(t.len() as int));
                assert(a[0] == path[0]);
            }
            if a[0] == path[0] && t.is_prefix_of(u) {
                assert forall|i: int| 0 <= i < a.len() implies a[i] == path[i] by {
                    if i > 0 {
                        assert(t[i - 1] == u[i - 1]);
                    }
                }
                assert(a =~= path.take(a.len() as int));
            }
        }
    }
}

/// Law: `?` matches one byte that is no slash.
pub proof fn law_glob_question(q: Seq<u8>, path: Seq<u8>)
    ensures
        glob(seq![63u8] + q, path) <==> path.len() > 0 && path[0] != 47 && glob(q, path.skip(1)),
{
    let p = seq![63u8] + q;
    assert(p.skip(1) =~= q);
}

/// Whether a path goes on with a match behind `k` bytes without a slash.
pub open spec fn star_ends(q: Seq<u8>, path: Seq<u8>, k: int) -> bool {
    0 <= k <= path.len() && slashless(path.take(k)) && glob(q, path.skip(k))
}

/// Law: `*` matches any bytes without a slash.
pub proof fn law_glob_star(q: Seq<u8>, path: Seq<u8>)
    requires
        q.len() == 0 || q[0] != 42,
    ensures
        glob(seq![42u8] + q, path) <==> exists|k: int| #[trigger] star_ends(q, path, k),
    decreases path.len(),
{
    let p = seq![42u8] + q;
    assert(p.skip(1) =~= q);
    assert(path.skip(0) =~= path);
    assert(p[0] == 42);
    if p.len() >= 2 {
        assert(p[1] == q[0]);
    }
    if glob(q, path) {
        assert(star_ends(q, path, 0));
    }
    if path.len() > 0 {
        let t = path.skip(1);
        law_glob_star(q, t);
        if path[0] != 47 && glob(p, t) {
            let k = choose|k: int| #[trigger] star_ends(q, t, k);
            assert(t.skip(k) =~= path.skip(k + 1));
            assert forall|i: int| 0 <= i < k + 1 implies #[trigger] path.take(k + 1)[i] != 47 by {
                if i > 0 {
                    assert(t.take(k)[i - 1] != 47);
                }
            }
            assert(star_ends(q, path, k + 1));
        }
        if exists|k: int| #[trigger] star_ends(q, path, k) {
            let k = choose|k: int| #[trigger] star_ends(q, path, k);
            if k > 0 {
                assert(path.take(k)[0] != 47);
                assert(t.skip(k - 1) =~= path.skip(k));
                assert forall|i: int| 0 <= i < k - 1 implies #[trigger] t.take(k - 1)[i] != 47 by {
                    assert(path.take(k)[i + 1] != 47);
                }
                assert(star_ends(q, t, k - 1));
            }
        }
    } else if exists|k: int| #[trigger] star_ends(q, path, k) {
        let k = choose|k: int| #[trigger] star_ends(q, path, k);
        assert(k == 0);
    }
}

/// Law: `**` matches any bytes, and `**/` any directories or none.
pub proof fn law_glob_double_star(q: Seq<u8>, path: Seq<u8>)
    ensures
        q.len() == 0 || q[0] != 47 ==> (glob(seq![42u8, 42u8] + q, path) <==> exists|k: int|
            0 <= k <= path.len() && glob(q, #[trigger] path.skip(k))),
        glob(seq![42u8, 42u8, 47u8] + q, path) <==> exists|k: int|
            0 <= k <= path.len() && (k == 0 || path[k - 1] == 47) && glob(
                q,
                #[trigger] path.skip(k),
            ),
{
    let p = seq![42u8, 42u8] + q;
    assert(p.skip(2) =~= q);
    if p.len() > 2 {
        assert(p[2] == q[0]);
    }
    if q.len() == 0 || q[0] != 47 {
        assert(super::after_double_star(p) == q);
        if exists|k: int| 0 <= k <= path.len() && glob(q, #[trigger] path.skip(k)) {
            let k = choose|k: int| 0 <= k <= path.len() && glob(q, #[trigger] path.skip(k));
            assert(super::double_star_ends(p, path, k));
        }
    }
    let r = seq![42u8, 42u8, 47u8] + q;
    assert(r.skip(3) =~= q);
    assert(super::after_double_star(r) == q);
    if exists|k: int|
        0 <= k <= path.len() && (k == 0 || path[k - 1] == 47) && glob(q, #[trigger] path.skip(k)) {
        let k = choose|k: int|
            0 <= k <= path.len() && (k == 0 || path[k - 1] == 47) && glob(
                q,
                #[trigger] path.skip(k),
            );
        assert(super::double_star_ends(r, path, k));
    }
}

// ---------------------------------------------------------------------
// Rules
// ---------------------------------------------------------------------

/// A path below a directory.
pub open spec fn below(dir: Seq<u8>, rest: Seq<u8>) -> Seq<u8> {
    dir + seq![47u8] + rest
}

/// Law: an anchored rule matches a path if its pattern does; another one also
/// if its pattern matches the path as seen from a directory above it.
pub proof fn law_rule_matches(r: RuleView, path: Seq<u8>)
    ensures
        rule_matches(r, path) <==> glob(r.pattern, path) || (!r.anchored && exists|
            d: Seq<u8>,
            x: Seq<u8>,
        |
            path == #[trigger] below(d, x) && glob(r.pattern, x)),
{
    if !r.anchored {
        if exists|i: int|
            0 <= i < path.len() && #[trigger] path[i] == 47 && glob(r.pattern, path.skip(i + 1)) {
            let i = choose|i: int|
                0 <= i < path.len() && #[trigger] path[i] == 47 && glob(
                    r.pattern,
                    path.skip(i + 1),
                );
            assert(path =~= below(path.take(i), path.skip(i + 1)));
        }
        if exists|d: Seq<u8>, x: Seq<u8>| path == #[trigger] below(d, x) && glob(r.pattern, x) {
            let (d, x) = choose|d: Seq<u8>, x: Seq<u8>|
                path == #[trigger] below(d, x) && glob(r.pattern, x);
            assert(path[d.len() as int] == 47);
            assert(path.skip(d.len() as int + 1) =~= x);
        }
    }
}

/// Law: a rule covers a path that it matches, unless it is for directories
/// only and the path is none, and a path below one that it matches; nothing
/// else.
pub proof fn law_rule_covers(r: RuleView, path: Seq<u8>, is_dir: bool)
    ensures
        rule_covers(r, path, is_dir) <==> ((is_dir || !r.dir_only) && rule_matches(r, path))
            || exists|d: Seq<u8>, x: Seq<u8>|
            path == #[trigger] below(d, x) && rule_matches(r, d),
{
    if exists|i: int|
        0 <= i < path.len() && path[i] == 47 && #[trigger] rule_matches(r, path.take(i)) {
        let i = choose|i: int|
            0 <= i < path.len() && path[i] == 47 && #[trigger] rule_matches(r, path.take(i));
        assert(path =~= below(path.take(i), path.skip(i + 1)));
    }
    if exists|d: Seq<u8>, x: Seq<u8>| path == #[trigger] below(d, x) && rule_matches(r, d) {
        let (d, x) = choose|d: Seq<u8>, x: Seq<u8>|
            path == #[trigger] below(d, x) && rule_matches(r, d);
        assert(path[d.len() as int] == 47);
        assert(path.take(d.len() as int) =~= d);
    }
}

/// Law: a path is seen from the directories above it, and from the top as it
/// is.
pub proof fn law_relative(path: Seq<u8>, dir: Seq<u8>, x: Seq<u8>)
    ensures
        relative(path, Seq::empty()) == Some(path),
        dir.len() > 0 ==> (relative(path, dir) == Some(x) <==> path == below(dir, x)),
{
    if path == below(dir, x) {
        let n = dir.len() as int;
        assert(dir =~= path.take(n));
        assert(path[n] == 47);
        assert(path.skip(n + 1) =~= x);
    }
    if relative(path, dir) == Some(x) && dir.len() > 0 {
        assert(path =~= below(dir, x));
    }
}

// ---------------------------------------------------------------------
// Lines
// ---------------------------------------------------------------------

/// How a line ends: not at all, with a line feed, or with a carriage return
/// and a line feed.
pub open spec fn line_end(e: Seq<u8>) -> bool {
    e == Seq::<u8>::empty() || e == seq![10u8] || e == seq![13u8, 10u8]
}

/// That many spaces.
pub open spec fn spaces(n: nat) -> Seq<u8> {
    Seq::new(n, |i: int| 32u8)
}

/// One byte, or none.
pub open spec fn maybe(b: bool, x: u8) -> Seq<u8> {
    if b {
        seq![x]
    } else {
        Seq::empty()
    }
}

/// A rule as it is written: an optional `!`, an optional slash, the pattern, an
/// optional slash, and spaces.
pub open spec fn written_rule(
    negate: bool,
    rooted: bool,
    pattern: Seq<u8>,
    dir_only: bool,
    n: nat,
) -> Seq<u8> {
    maybe(negate, 33) + maybe(rooted, 47) + pattern + maybe(dir_only, 47) + spaces(n)
}

/// Trailing bytes are cut off.
proof fn trim_end_is(s: Seq<u8>, n: nat, b: u8)
    requires
        s.len() == 0 || s.last() != b,
    ensures
        trim_end(s + Seq::new(n, |i: int| b), b) == s,
    decreases n,
{
    let t = s + Seq::new(n, |i: int| b);
    if n == 0 {
        assert(t =~= s);
    } else {
        let m = (n - 1) as nat;
        trim_end_is(s, m, b);
        assert(t.last() == b);
        assert(t.drop_last() =~= s + Seq::new(m, |i: int| b));
    }
}

/// What is left of a line without its end.
proof fn line_body(s: Seq<u8>, e: Seq<u8>)
    requires
        line_end(e),
        s.len() == 0 || (s.last() != 13 && s.last() != 10),
    ensures
        trim_end(chomp(s + e), 13) == s,
{
    trim_end_is(s, 0, 13);
    trim_end_is(s, 1, 13);
    assert(s + Seq::new(0, |i: int| 13u8) =~= s);
    if e.len() == 0 {
        assert(s + e =~= s);
    } else if e.len() == 1 {
        assert((s + e).last() == 10);
        assert((s + e).drop_last() =~= s);
    } else {
        assert((s + e).last() == 10);
        assert((s + e).drop_last() =~= s + Seq::new(1, |i: int| 13u8));
    }
}

/// Law: a rule that was written reads back to its pattern. It is anchored if a
/// slash stands before or in the pattern; a slash behind it makes it a rule
/// for directories.
pub proof fn law_rule_round_trip(
    negate: bool,
    rooted: bool,
    pattern: Seq<u8>,
    dir_only: bool,
    n: nat,
    e: Seq<u8>,
)
    requires
        line_end(e),
        pattern.len() > 0,
        pattern[0] != 47,
        !negate && !rooted ==> pattern[0] != 33 && pattern[0] != 35,
        pattern.last() != 32,
        pattern.last() != 47,
        pattern.last() != 13,
        pattern.last() != 10,
    ensures
        rule_of(written_rule(negate, rooted, pattern, dir_only, n) + e) == Some(
            RuleView {
                pattern,
                negate,
                dir_only,
                anchored: rooted || !slashless(pattern),
            },
        ),
{
    let l = written_rule(negate, rooted, pattern, dir_only, n);
    let w = maybe(rooted, 47) + pattern;
    let u = w + maybe(dir_only, 47);
    let t = maybe(negate, 33) + u;
    assert(l =~= t + spaces(n));
    assert(w.last() == pattern.last());
    assert(u.last() == if dir_only {
        47u8
    } else {
        pattern.last()
    });
    assert(t.last() == u.last());
    assert(l.last() == if n > 0 {
        32u8
    } else {
        t.last()
    });
    line_body(l, e);
    trim_end_is(t, n, 32);
    assert(spaces(n) =~= Seq::new(n, |i: int| 32u8));
    if negate {
        assert(t[0] == 33);
        assert(t.skip(1) =~= u);
    } else {
        assert(t =~= u);
        assert(t[0] == w[0]);
    }
    assert(w[0] == if rooted {
        47u8
    } else {
        pattern[0]
    });
    assert(l[0] == t[0]);
    if dir_only {
        assert(u.drop_last() =~= w);
    } else {
        assert(u =~= w);
    }
    assert(trim_start(pattern, 47) == pattern);
    if rooted {
        assert(w[0] == 47);
        assert(w.drop_first() =~= pattern);
        assert(w.contains(w[0]));
    } else {
        assert(w =~= pattern);
        if !slashless(pattern) {
            let i = choose|i: int| 0 <= i < pattern.len() && #[trigger] pattern[i] == 47;
            assert(w[i] == 47);
        }
    }
}

/// Law: a comment, a blank line and a line of spaces state no rule.
pub proof fn law_no_rule(c: Seq<u8>, n: nat, e: Seq<u8>)
    requires
        line_end(e),
        c.len() == 0 || (c.last() != 13 && c.last() != 10),
    ensures
        rule_of(seq![35u8] + c + e) is None,
        rule_of(spaces(n) + e) is None,
{
    let l = seq![35u8] + c;
    assert(l.last() == 35 || l.last() == c.last());
    line_body(l, e);
    let s = spaces(n);
    line_body(s, e);
    trim_end_is(Seq::<u8>::empty(), n, 32);
    assert(Seq::<u8>::empty() + Seq::new(n, |i: int| 32u8) =~= s);
}

/// Law: the lines of an ignore file are added one after the other.
pub proof fn law_lines_added(
    sets: Seq<(Seq<u8>, Seq<RuleView>)>,
    dir: Seq<u8>,
    a: Seq<Seq<u8>>,
    b: Seq<Seq<u8>>,
    l: Seq<u8>,
)
    ensures
        with_lines(sets, dir, a + b) == with_lines(with_lines(sets, dir, a), dir, b),
        rule_of(l) is None ==> with_lines(sets, dir, seq![l]) == sets,
        rule_of(l) matches Some(r) ==> with_lines(sets, dir, seq![l]) == with_rule(sets, dir, r),
    decreases b.len(),
{
    reveal_with_fuel(with_lines, 2);
    assert(seq![l].drop_last() =~= Seq::<Seq<u8>>::empty());
    if b.len() == 0 {
        assert(a + b =~= a);
    } else {
        law_lines_added(sets, dir, a, b.drop_last(), l);
        assert((a + b).drop_last() =~= a + b.drop_last());
        assert((a + b).last() == b.last());
    }
}

/// Law: a rule is added behind the rules of its directory; a directory without
/// rules comes behind the others. The rules of other directories stay.
pub proof fn law_rule_added(
    sets: Seq<(Seq<u8>, Seq<RuleView>)>,
    dir: Seq<u8>,
    r: RuleView,
    k: int,
)
    requires
        0 <= k <= sets.len(),
        forall|j: int| 0 <= j < k ==> (#[trigger] sets[j]).0 != dir,
        k < sets.len() ==> sets[k].0 == dir,
    ensures
        ({
            let out = with_rule(sets, dir, r);
            &&& out.len() == if k < sets.len() {
                sets.len()
            } else {
                sets.len() + 1
            }
            &&& out[k].0 == dir
            &&& out[k].1 == if k < sets.len() {
                sets[k].1.push(r)
            } else {
                seq![r]
            }
            &&& forall|j: int| 0 <= j < sets.len() && j != k ==> #[trigger] out[j] == sets[j]
        }),
{
    with_rule_at(sets, dir, r, k);
}

} // verus!
