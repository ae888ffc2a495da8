//! Finding an object by the beginning of its id.

use vstd::prelude::*;
use vstd::utf8::encode_utf8;

use super::{OdbError, OdbErrorView, Repository, Store};
use crate::bytemap::ByteMap;
use crate::bytes::{ascii, has_prefix, lex_lt, push_all, push_text, to_vec, SLASH};
use crate::idset::IdSet;
use crate::notation::{all_hex, hex, nibble_value, unhex};
use crate::object::commit::ids_view;
use crate::object::{id_from_hex, zero_id, ObjectId};

verus! {

/// Whether an id can be looked up by the text: 4 to 40 hexadecimal digits.
pub open spec fn valid_prefix(p: Seq<u8>) -> bool {
    4 <= p.len() <= 40 && all_hex(p)
}

/// A byte in lower case.
pub open spec fn lower_byte(b: u8) -> u8 {
    if 65 <= b <= 90 {
        (b + 32) as u8
    } else {
        b
    }
}

/// A text in lower case.
pub open spec fn lower(p: Seq<u8>) -> Seq<u8> {
    p.map_values(|b: u8| lower_byte(b))
}

/// The directory in which loose objects with a prefix stand, with a slash
/// behind it.
pub open spec fn fan_dir(prefix: Seq<u8>) -> Seq<u8> {
    ascii("objects/"@) + prefix.take(2) + seq![SLASH]
}

/// The id of the loose object at a path, if the path is that of one with
/// the prefix.
pub open spec fn loose_match(path: Seq<u8>, prefix: Seq<u8>) -> Option<Seq<u8>> {
    let name = path.skip(11);
    if path.len() == 49 && fan_dir(prefix).is_prefix_of(path) && prefix.skip(2).is_prefix_of(name) {
        id_from_hex(prefix.take(2) + name)
    } else {
        None
    }
}

/// Whether the id is that of a stored object and has the prefix, which is
/// in lower case.
pub open spec fn is_candidate(s: Store, prefix: Seq<u8>, id: Seq<u8>) -> bool {
    ||| exists|path: Seq<u8>|
        (s.git.files.contains_key(path) || s.git.dirs.contains(path)) && #[trigger] loose_match(
            path,
            prefix,
        ) == Some(id)
    ||| exists|i: int|
        0 <= i < s.packs.len() && #[trigger] s.packs[i].ids.contains(id) && prefix.is_prefix_of(
            hex(id),
        )
}

/// What looking an object up by a text gives: the one object with the
/// prefix, or why there is not just one. A text of 40 digits is an id by
/// itself.
pub open spec fn is_resolution(
    s: Store,
    prefix: Seq<char>,
    r: Result<Seq<u8>, OdbErrorView>,
) -> bool {
    let p = encode_utf8(prefix);
    if !valid_prefix(p) {
        r == Err::<Seq<u8>, _>(OdbErrorView::InvalidPrefix(prefix))
    } else if p.len() == 40 {
        if s.has(unhex(p)) {
            r == Ok::<_, OdbErrorView>(unhex(p))
        } else {
            r == Err::<Seq<u8>, _>(OdbErrorView::ObjectNotFound(unhex(p)))
        }
    } else {
        match r {
            Ok(id) => forall|x: Seq<u8>| #[trigger] is_candidate(s, lower(p), x) <==> x == id,
            Err(OdbErrorView::ObjectNotFound(id)) => id == zero_id() && forall|x: Seq<u8>|
                !#[trigger] is_candidate(s, lower(p), x),
            Err(OdbErrorView::AmbiguousId(q, ids)) => {
                &&& q == prefix
                &&& ids.len() > 1
                &&& forall|x: Seq<u8>| #[trigger] is_candidate(s, lower(p), x) <==> ids.contains(x)
                &&& forall|i: int, j: int|
                    0 <= i < j < ids.len() ==> lex_lt(#[trigger] ids[i], #[trigger] ids[j])
            },
            _ => false,
        }
    }
}

/// Whether every byte is a hexadecimal digit.
fn is_hex(s: &[u8]) -> (r: bool)
    ensures
        r <==> all_hex(s@),
{
    let mut i: usize = 0;
    while i < s.len()
        invariant
            i <= s@.len(),
            forall|j: int| 0 <= j < i ==> nibble_value(#[trigger] s@[j]) is Some,
        decreases s.len() - i,
    {
        if crate::notation::decode_hex_nibble(s[i]).is_none() {
            assert(nibble_value(s@[i as int]) is None);
            return false;
        }
        i += 1;
    }
    true
}

/// A text in lower case.
fn to_lower(s: &[u8]) -> (r: Vec<u8>)
    ensures
        r@ == lower(s@),
{
    let mut out: Vec<u8> = Vec::new();
    let mut i: usize = 0;
    while i < s.len()
        invariant
            i <= s@.len(),
            out@ == lower(s@).take(i as int),
        decreases s.len() - i,
    {
        let b: u8 = s[i];
        let ghost before = out@;
        out.push(if 65 <= b && b <= 90 { b + 32 } else { b });
        assert(out@ =~= lower(s@).take(i + 1));
        i += 1;
    }
    assert(out@ =~= lower(s@));
    out
}

/// Matches the path of a loose object against a prefix.
fn match_loose(path: &[u8], prefix: &[u8]) -> (r: Option<ObjectId>)
    requires
        prefix@.len() >= 2,
    ensures
        match r {
            Some(id) => loose_match(path@, prefix@) == Some(id@),
            None => loose_match(path@, prefix@) is None,
        },
{
    if path.len() != 49 {
        return None;
    }
    proof {
        reveal_strlit("objects/");
        assert(prefix@.subrange(0, 2) =~= prefix@.take(2));
        assert(prefix@.subrange(2, prefix@.len() as int) =~= prefix@.skip(2));
        assert(path@.subrange(11, 49) =~= path@.skip(11));
    }
    let mut dir: Vec<u8> = Vec::new();
    push_text(&mut dir, "objects/");
    push_all(&mut dir, &prefix[0..2]);
    dir.push(SLASH);
    assert(dir@ =~= fan_dir(prefix@));
    if !has_prefix(path, &dir) || !has_prefix(&path[11..49], &prefix[2..prefix.len()]) {
        return None;
    }
    let mut digits = to_vec(&prefix[0..2]);
    push_all(&mut digits, &path[11..49]);
    match ObjectId::from_hex_bytes(&digits) {
        Ok(id) => Some(id),
        Err(_) => None,
    }
}

/// Collects the loose objects with a prefix among the keys of a map.
fn collect_loose<V: View>(m: &ByteMap<V>, prefix: &[u8], out: &mut IdSet)
    requires
        prefix@.len() >= 2,
    ensures
        forall|x: Seq<u8>| #[trigger]
            final(out)@.contains(x) <==> old(out)@.contains(x) || exists|path: Seq<u8>|
                m@.contains_key(path) && #[trigger] loose_match(path, prefix@) == Some(x),
{
    let n: usize = m.count();
    let ghost keys = m.keys();
    let ghost start = out@;
    let mut i: usize = 0;
    while i < n
        invariant
            i <= n,
            n == keys.len(),
            keys == m.keys(),
            prefix@.len() >= 2,
            forall|x: Seq<u8>| #[trigger]
                out@.contains(x) <==> start.contains(x) || exists|k: int|
                    0 <= k < i && loose_match(#[trigger] keys[k], prefix@) == Some(x),
        decreases n - i,
    {
        let ghost before = out@;
        let found = match_loose(m.key(i), prefix);
        if let Some(id) = found {
            out.insert(&id);
        }
        proof {
            assert forall|x: Seq<u8>| #[trigger] out@.contains(x) <==> start.contains(x) || exists|k: int|
                0 <= k < i + 1 && loose_match(#[trigger] keys[k], prefix@) == Some(x) by {
                assert(before.contains(x) <==> start.contains(x) || exists|k: int|
                    0 <= k < i && loose_match(#[trigger] keys[k], prefix@) == Some(x));
                if out@.contains(x) && !before.contains(x) {
                    assert(loose_match(keys[i as int], prefix@) == Some(x));
                }
                if exists|k: int| 0 <= k < i + 1 && loose_match(#[trigger] keys[k], prefix@) == Some(x) {
                    let k = choose|k: int| 0 <= k < i + 1 && loose_match(#[trigger] keys[k], prefix@) == Some(x);
                    if k < i {
                        assert(before.contains(x));
                    }
                }
            }
        }
        i += 1;
    }
    proof {
        assert forall|x: Seq<u8>| #[trigger] out@.contains(x) <==> start.contains(x) || exists|path: Seq<u8>|
            m@.contains_key(path) && #[trigger] loose_match(path, prefix@) == Some(x) by {
            if out@.contains(x) && !start.contains(x) {
                let k = choose|k: int| 0 <= k < n && loose_match(#[trigger] keys[k], prefix@) == Some(x);
                assert(keys.contains(keys[k]));
                assert(m@.contains_key(keys[k]));
            }
            if exists|path: Seq<u8>| m@.contains_key(path) && #[trigger] loose_match(path, prefix@) == Some(x) {
                let path = choose|path: Seq<u8>| m@.contains_key(path) && #[trigger] loose_match(path, prefix@) == Some(x);
                assert(keys.contains(path));
                let k = choose|k: int| 0 <= k < keys.len() && keys[k] == path;
                assert(loose_match(keys[k], prefix@) == Some(x));
            }
        }
    }
}

/// Collects the ids of a list that have a prefix.
fn collect_ids(ids: &Vec<ObjectId>, prefix: &[u8], out: &mut IdSet)
    ensures
        forall|x: Seq<u8>| #[trigger]
            final(out)@.contains(x) <==> old(out)@.contains(x) || (ids_view(ids@).contains(x)
                && prefix@.is_prefix_of(hex(x))),
{
    let ghost v = ids_view(ids@);
    let ghost start = out@;
    let mut i: usize = 0;
    while i < ids.len()
        invariant
            i <= ids@.len(),
            v == ids_view(ids@),
            forall|x: Seq<u8>| #[trigger]
                out@.contains(x) <==> start.contains(x) || (prefix@.is_prefix_of(hex(x)) && exists|k: int|
                    0 <= k < i && #[trigger] v[k] == x),
        decreases ids.len() - i,
    {
        let ghost before = out@;
        let digits = ids[i].to_hex_bytes();
        let hit = has_prefix(&digits, prefix);
        if hit {
            out.insert(&ids[i]);
        }
        proof {
            assert(v[i as int] == ids@[i as int]@);
            assert forall|x: Seq<u8>| #[trigger] out@.contains(x) <==> start.contains(x) || (prefix@.is_prefix_of(hex(x)) && exists|k: int|
                0 <= k < i + 1 && #[trigger] v[k] == x) by {
                if out@.contains(x) && !before.contains(x) {
                    assert(v[i as int] == x);
                }
                if prefix@.is_prefix_of(hex(x)) && exists|k: int| 0 <= k < i + 1 && #[trigger] v[k] == x {
                    let k = choose|k: int| 0 <= k < i + 1 && #[trigger] v[k] == x;
                    if k < i {
                        assert(before.contains(x));
                    }
                }
            }
        }
        i += 1;
    }
}

impl Repository {
    /// Finds the object whose id begins with 4 to 40 hexadecimal digits.
    pub fn resolve_id(&self, prefix: &str) -> (r: Result<ObjectId, OdbError>)
        ensures
            is_resolution(self@.store(), prefix@, match r {
                Ok(id) => Ok(id@),
                Err(e) => Err(e@),
            }),
    {
        let p = prefix.as_bytes();
        if p.len() < 4 || p.len() > 40 || !is_hex(p) {
            return Err(OdbError::InvalidPrefix(prefix.to_owned()));
        }
        if p.len() == 40 {
            return match ObjectId::from_hex_bytes(p) {
                Err(_) => Err(OdbError::InvalidPrefix(prefix.to_owned())),
                Ok(id) => if self.contains(&id) {
                    Ok(id)
                } else {
                    Err(OdbError::ObjectNotFound(id))
                },
            };
        }
        let q = to_lower(p);
        let ghost s = self@.store();
        let mut found = IdSet::new();
        collect_loose(self.git().files(), &q, &mut found);
        collect_loose(self.git().dirs(), &q, &mut found);
        let ghost loose = found@;
        let packs = self.packs();
        let mut i: usize = 0;
        while i < packs.len()
            invariant
                i <= packs@.len(),
                s == self@.store(),
                super::packs_view(packs@) == s.packs,
                forall|x: Seq<u8>| #[trigger]
                    found@.contains(x) <==> loose.contains(x) || exists|k: int|
                        0 <= k < i && #[trigger] s.packs[k].ids.contains(x) && q@.is_prefix_of(
                            hex(x),
                        ),
            decreases packs.len() - i,
        {
            let ghost before = found@;
            assert(s.packs[i as int] == packs@[i as int]@);
            collect_ids(packs[i].ids(), &q, &mut found);
            proof {
                assert forall|x: Seq<u8>| #[trigger] found@.contains(x) <==> loose.contains(x) || exists|k: int|
                    0 <= k < i + 1 && #[trigger] s.packs[k].ids.contains(x) && q@.is_prefix_of(hex(x)) by {
                    if found@.contains(x) && !before.contains(x) {
                        assert(s.packs[i as int].ids.contains(x));
                    }
                    if exists|k: int| 0 <= k < i + 1 && #[trigger] s.packs[k].ids.contains(x) && q@.is_prefix_of(hex(x)) {
                        let k = choose|k: int| 0 <= k < i + 1 && #[trigger] s.packs[k].ids.contains(x) && q@.is_prefix_of(hex(x));
                        if k < i {
                            assert(before.contains(x));
                        }
                    }
                }
            }
            i += 1;
        }
        proof {
            assert forall|x: Seq<u8>| #[trigger] is_candidate(s, q@, x) <==> found@.contains(x) by {
                if loose.contains(x) {
                    let path = choose|path: Seq<u8>| (s.git.files.contains_key(path) || s.git.dirs.contains(path)) && #[trigger] loose_match(path, q@) == Some(x);
                    assert(loose_match(path, q@) == Some(x));
                }
            }
        }
        let ids = found.to_vec();
        let ghost v = ids_view(ids@);
        if ids.len() == 0 {
            proof {
                assert forall|x: Seq<u8>| !#[trigger] is_candidate(s, q@, x) by {
                    assert(!v.contains(x));
                }
            }
            Err(OdbError::ObjectNotFound(ObjectId::zero()))
        } else if ids.len() == 1 {
            proof {
                assert(v[0] == ids@[0]@);
                assert forall|x: Seq<u8>| #[trigger] is_candidate(s, q@, x) <==> x == v[0] by {
                    if v.contains(x) {
                        let k = choose|k: int| 0 <= k < v.len() && v[k] == x;
                    }
                    assert(v.contains(v[0]));
                }
            }
            Ok(ids[0])
        } else {
            Err(OdbError::AmbiguousId { prefix: prefix.to_owned(), candidates: ids })
        }
    }
}

} // verus!
