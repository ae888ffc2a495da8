//! What ignore rules promise.

use vstd::prelude::*;

use super::{glob, ignores, relative, rule_covers, rule_matches, ruled_out, verdict, RuleView, STAR};
use crate::bytes::SLASH;

verus! {

/// Law: the last rule that covers a path decides.
pub proof fn law_last_rule_counts(
    rules: Seq<RuleView>,
    r: RuleView,
    path: Seq<u8>,
    is_dir: bool,
    before: bool,
)
    ensures
        rule_covers(r, path, is_dir) ==> verdict(rules.push(r), path, is_dir, before) == !r.negate,
        !rule_covers(r, path, is_dir) ==> verdict(rules.push(r), path, is_dir, before) == verdict(
            rules,
            path,
            is_dir,
            before,
        ),
{
    assert(rules.push(r).drop_last() =~= rules);
}

/// Law: a rule that matches a directory covers everything below it.
pub proof fn law_directory_covers(r: RuleView, dir: Seq<u8>, rest: Seq<u8>, is_dir: bool)
    requires
        rule_matches(r, dir),
    ensures
        rule_covers(r, dir + seq![SLASH] + rest, is_dir),
{
    let path = dir + seq![SLASH] + rest;
    let i = dir.len() as int;
    assert(path[i] == SLASH);
    assert(path.take(i) =~= dir);
    assert(rule_matches(r, path.take(i)));
}

/// Law: without a rule that covers it, a path is not ignored.
pub proof fn law_uncovered(sets: Seq<(Seq<u8>, Seq<RuleView>)>, path: Seq<u8>, is_dir: bool)
    requires
        forall|i: int, k: int| #![trigger sets[i].1[k]]
            0 <= i < sets.len() && 0 <= k < sets[i].1.len() ==> (relative(
                path,
                sets[i].0,
            ) matches Some(rel) ==> !rule_covers(sets[i].1[k], rel, is_dir)),
    ensures
        !ignores(sets, path, is_dir),
{
    uncovered_sets(sets, path, is_dir);
    assert forall|k: int| 0 < k < path.len() && path[k] == SLASH implies !#[trigger] ruled_out(
        sets,
        path.take(k),
        true,
    ) by {
        let dir = path.take(k);
        assert forall|i: int, j: int| #![trigger sets[i].1[j]]
            0 <= i < sets.len() && 0 <= j < sets[i].1.len() implies (relative(
            dir,
            sets[i].0,
        ) matches Some(rel) ==> !rule_covers(sets[i].1[j], rel, true)) by {
            let r = sets[i].1[j];
            let top = sets[i].0;
            if let Some(rel) = relative(dir, top) {
                let at = if top.len() == 0 {
                    0
                } else {
                    top.len() as int + 1
                };
                let whole = path.skip(at);
                assert(top.is_prefix_of(path)) by {
                    assert(path.take(top.len() as int) =~= dir.take(top.len() as int));
                }
                assert(path.skip(0) =~= path);
                assert(relative(path, top) == Some(whole));
                assert(rel =~= whole.take(k - at));
                assert(whole[k - at] == SLASH);
                if rule_covers(r, rel, true) {
                    directory_rule_covers(r, whole, k - at, is_dir);
                }
            }
        }
        uncovered_sets(sets, dir, true);
    }
}

/// A rule that covers a directory covers what lies in it.
proof fn directory_rule_covers(r: RuleView, path: Seq<u8>, k: int, is_dir: bool)
    requires
        0 <= k < path.len(),
        path[k] == SLASH,
        rule_covers(r, path.take(k), true),
    ensures
        rule_covers(r, path, is_dir),
{
    let dir = path.take(k);
    if !rule_matches(r, dir) {
        let i = choose|i: int|
            0 <= i < dir.len() && dir[i] == SLASH && #[trigger] rule_matches(r, dir.take(i));
        assert(dir.take(i) =~= path.take(i));
        assert(rule_matches(r, path.take(i)));
    }
}

/// Law: what lies in an ignored directory is ignored, whatever the rules say
/// of it.
pub proof fn law_ignored_directory(
    sets: Seq<(Seq<u8>, Seq<RuleView>)>,
    dir: Seq<u8>,
    rest: Seq<u8>,
    is_dir: bool,
)
    requires
        dir.len() > 0,
        ignores(sets, dir, true),
    ensures
        ignores(sets, dir + seq![SLASH] + rest, is_dir),
{
    let path = dir + seq![SLASH] + rest;
    let n = dir.len() as int;
    assert(path[n] == SLASH);
    assert(path.take(n) =~= dir);
    if ruled_out(sets, dir, true) {
        assert(ruled_out(sets, path.take(n), true));
    } else {
        let k = choose|k: int|
            0 < k < dir.len() && dir[k] == SLASH && #[trigger] ruled_out(sets, dir.take(k), true);
        assert(path.take(k) =~= dir.take(k));
        assert(path[k] == dir[k]);
        assert(ruled_out(sets, path.take(k), true));
    }
}

/// Law: a path with no ignored directory above it is ignored if and only if
/// the last rule that covers it says so.
pub proof fn law_open_directories(
    sets: Seq<(Seq<u8>, Seq<RuleView>)>,
    path: Seq<u8>,
    is_dir: bool,
)
    requires
        forall|k: int|
            0 < k < path.len() && path[k] == SLASH ==> !#[trigger] ignores(
                sets,
                path.take(k),
                true,
            ),
    ensures
        ignores(sets, path, is_dir) == ruled_out(sets, path, is_dir),
{
    assert forall|k: int| 0 < k < path.len() && path[k] == SLASH implies !#[trigger] ruled_out(
        sets,
        path.take(k),
        true,
    ) by {
        assert(!ignores(sets, path.take(k), true));
    }
}

/// Rules that do not cover a path do not exclude it by itself.
proof fn uncovered_sets(sets: Seq<(Seq<u8>, Seq<RuleView>)>, path: Seq<u8>, is_dir: bool)
    requires
        forall|i: int, k: int| #![trigger sets[i].1[k]]
            0 <= i < sets.len() && 0 <= k < sets[i].1.len() ==> (relative(
                path,
                sets[i].0,
            ) matches Some(rel) ==> !rule_covers(sets[i].1[k], rel, is_dir)),
    ensures
        !ruled_out(sets, path, is_dir),
    decreases sets.len(),
{
    if sets.len() > 0 {
        let t = sets.drop_last();
        assert forall|i: int, k: int| #![trigger t[i].1[k]]
            0 <= i < t.len() && 0 <= k < t[i].1.len() implies (relative(
            path,
            t[i].0,
        ) matches Some(rel) ==> !rule_covers(t[i].1[k], rel, is_dir)) by {
            assert(t[i] == sets[i]);
            assert(sets[i].1[k] == t[i].1[k]);
        }
        uncovered_sets(t, path, is_dir);
        if let Some(rel) = relative(path, sets.last().0) {
            let n = sets.len() - 1;
            assert forall|k: int| 0 <= k < sets[n].1.len() implies !rule_covers(
                #[trigger] sets[n].1[k],
                rel,
                is_dir,
            ) by {}
            uncovered_rules(sets[n].1, rel, is_dir, false);
        }
    }
}

/// Rules that do not cover a path say nothing of it.
proof fn uncovered_rules(rules: Seq<RuleView>, path: Seq<u8>, is_dir: bool, before: bool)
    requires
        forall|k: int| 0 <= k < rules.len() ==> !rule_covers(#[trigger] rules[k], path, is_dir),
    ensures
        verdict(rules, path, is_dir, before) == before,
    decreases rules.len(),
{
    if rules.len() > 0 {
        let t = rules.drop_last();
        assert forall|k: int| 0 <= k < t.len() implies !rule_covers(
            #[trigger] t[k],
            path,
            is_dir,
        ) by {
            assert(t[k] == rules[k]);
        }
        uncovered_rules(t, path, is_dir, before);
        assert(!rule_covers(rules[rules.len() - 1], path, is_dir));
    }
}

/// Law: `*` matches just the paths without a slash.
pub proof fn law_star(path: Seq<u8>)
    ensures
        glob(seq![STAR], path) <==> !path.contains(SLASH),
    decreases path.len(),
{
    let p = seq![STAR];
    assert(p.skip(1) =~= Seq::<u8>::empty());
    assert(glob(p.skip(1), path) <==> path.len() == 0);
    if path.len() > 0 {
        let t = path.skip(1);
        law_star(t);
        if path.contains(SLASH) {
            let i = choose|i: int| 0 <= i < path.len() && path[i] == SLASH;
            if i > 0 {
                assert(t[i - 1] == SLASH);
                assert(t.contains(SLASH));
            }
        }
        if t.contains(SLASH) {
            let i = choose|i: int| 0 <= i < t.len() && t[i] == SLASH;
            assert(path[i + 1] == SLASH);
        }
        if path[0] == SLASH {
            assert(path.contains(SLASH));
        }
    }
}

/// Law: `**` matches every path.
pub proof fn law_double_star(path: Seq<u8>)
    ensures
        glob(seq![STAR, STAR], path),
{
    let p = seq![STAR, STAR];
    let n = path.len() as int;
    assert(super::after_double_star(p) =~= Seq::<u8>::empty());
    assert(path.skip(n).len() == 0);
    assert(glob(super::after_double_star(p), path.skip(n)));
}

/// Law: a pattern without `*` and `?` matches just itself.
pub proof fn law_literal(p: Seq<u8>, path: Seq<u8>)
    requires
        forall|i: int| 0 <= i < p.len() ==> #[trigger] p[i] != STAR && p[i] != super::QUESTION,
    ensures
        glob(p, path) <==> p == path,
    decreases p.len(),
{
    if p.len() == 0 {
        assert(path.len() == 0 ==> p =~= path);
    } else {
        assert(p[0] != STAR && p[0] != super::QUESTION);
        if path.len() > 0 && p[0] == path[0] {
            let t = p.skip(1);
            let u = path.skip(1);
            assert forall|i: int| 0 <= i < t.len() implies #[trigger] t[i] != STAR && t[i]
                != super::QUESTION by {
                assert(t[i] == p[i + 1]);
            }
            law_literal(t, u);
            assert(p =~= seq![p[0]] + t);
            assert(path =~= seq![path[0]] + u);
        }
    }
}

/// Law: `**/` and a name without `*` and `?` match the name in every
/// directory, and nothing that only ends like it.
pub proof fn law_double_star_slash(name: Seq<u8>, path: Seq<u8>)
    requires
        forall|i: int| 0 <= i < name.len() ==> #[trigger] name[i] != STAR && name[i] != super::QUESTION,
    ensures
        glob(seq![STAR, STAR, SLASH] + name, path) <==> (path == name || (path.len() > name.len()
            && path[path.len() - name.len() - 1] == SLASH && path.skip(path.len() - name.len())
            == name)),
{
    let p = seq![STAR, STAR, SLASH] + name;
    assert(super::after_double_star(p) =~= name);
    let at = path.len() - name.len();
    assert forall|k: int| 0 <= k <= path.len() implies (glob(name, #[trigger] path.skip(k)) <==> name
        == path.skip(k)) by {
        law_literal(name, path.skip(k));
    }
    assert(path.skip(0) =~= path);
    if path == name {
        assert(super::double_star_ends(p, path, 0));
        assert(glob(name, path.skip(0)));
    } else if path.len() > name.len() && path[at - 1] == SLASH && path.skip(at) == name {
        assert(super::double_star_ends(p, path, at));
        assert(glob(name, path.skip(at)));
    }
}

} // verus!
