//! Walking the trees of the object database, and paths with their parts.

use vstd::prelude::*;

use crate::bytemap::ByteMap;
use crate::bytes::{find, push_all, to_vec, upto, SLASH};
use crate::object::{EntryMode, Object, ObjectId, ObjectKind, ObjectView, TreeEntryView};
use crate::odb::{OdbError, OdbErrorView, Repository, Store};
use crate::pack::PackView;

pub mod laws;
pub mod listed;

verus! {

// ---------------------------------------------------------------------
// Paths
// ---------------------------------------------------------------------

/// A path with one more part behind it.
pub open spec fn child_path(prefix: Seq<u8>, name: Seq<u8>) -> Seq<u8> {
    if prefix.len() == 0 {
        name
    } else {
        prefix + seq![SLASH] + name
    }
}

/// A path with one more part behind it.
pub fn join_child(prefix: &[u8], name: &[u8]) -> (r: Vec<u8>)
    ensures
        r@ == child_path(prefix@, name@),
{
    let mut out = to_vec(prefix);
    if out.len() > 0 {
        out.push(SLASH);
    }
    push_all(&mut out, name);
    assert(out@ =~= child_path(prefix@, name@));
    out
}

/// The parts of a path between its slashes.
pub open spec fn parts(path: Seq<u8>) -> Seq<Seq<u8>>
    decreases path.len(),
{
    let k = upto(path, SLASH);
    if k < 0 || k >= path.len() {
        seq![path]
    } else {
        seq![path.take(k)] + parts(path.skip(k + 1))
    }
}

/// The parts of a list.
pub open spec fn parts_view(ps: Seq<Vec<u8>>) -> Seq<Seq<u8>> {
    ps.map_values(|p: Vec<u8>| p@)
}

/// Splits a path into its parts.
pub fn split_path(path: &[u8]) -> (r: Vec<Vec<u8>>)
    ensures
        parts_view(r@) == parts(path@),
        r@.len() > 0,
{
    let mut out: Vec<Vec<u8>> = Vec::new();
    let mut start: usize = 0;
    proof {
        assert(path@.skip(0) =~= path@);
        assert(parts_view(out@) + parts(path@) =~= parts(path@));
    }
    loop
        invariant
            start <= path@.len(),
            parts_view(out@) + parts(path@.skip(start as int)) == parts(path@),
        decreases path.len() - start,
    {
        let rest = &path[start..path.len()];
        assert(rest@ =~= path@.skip(start as int));
        let k: usize = find(rest, SLASH);
        let ghost before = out@;
        let part = to_vec(&rest[0..k]);
        assert(rest@.subrange(0, k as int) =~= rest@.take(k as int));
        out.push(part);
        assert(parts_view(out@) =~= parts_view(before).push(rest@.take(k as int)));
        if k == rest.len() {
            assert(rest@.take(k as int) =~= rest@);
            assert(parts_view(out@) =~= parts_view(before) + parts(rest@));
            return out;
        }
        proof {
            assert(rest@.skip(k + 1) =~= path@.skip(start + k + 1));
            assert(parts_view(out@) + parts(rest@.skip(k + 1)) =~= parts_view(before) + parts(
                rest@,
            ));
        }
        start = start + k + 1;
    }
}

// ---------------------------------------------------------------------
// How deep objects can be nested
// ---------------------------------------------------------------------

/// How many ids the packs list.
pub open spec fn ids_total(packs: Seq<PackView>) -> nat
    decreases packs.len(),
{
    if packs.len() == 0 {
        0
    } else {
        ids_total(packs.drop_last()) + packs.last().ids.len()
    }
}

/// How many objects a chain can go through before it comes back to where
/// it was: there are fewer stored ones.
pub open spec fn object_bound(s: Store) -> nat {
    let n = s.git.files.len() + ids_total(s.packs) + 1;
    if n <= usize::MAX {
        n
    } else {
        usize::MAX as nat
    }
}

/// Counting ids of more packs gives no fewer.
proof fn ids_total_grows(packs: Seq<PackView>, k: int)
    requires
        0 <= k <= packs.len(),
    ensures
        ids_total(packs.take(k)) <= ids_total(packs),
    decreases packs.len(),
{
    if k < packs.len() {
        ids_total_grows(packs.drop_last(), k);
        assert(packs.drop_last().take(k) =~= packs.take(k));
    } else {
        assert(packs.take(k) =~= packs);
    }
}

impl Repository {
    /// How many objects a chain can go through before it comes back to
    /// where it was.
    pub fn object_bound(&self) -> (r: usize)
        ensures
            r == object_bound(self@.store()),
    {
        let mut n: usize = self.git().files().count();
        let packs = self.packs();
        let ghost v = self@.packs;
        let ghost files = self@.git.files.len();
        let mut i: usize = 0;
        assert(v.take(0) =~= Seq::<PackView>::empty());
        while i < packs.len()
            invariant
                i <= packs@.len(),
                v == crate::odb::packs_view(packs@),
                v == self@.packs,
                files == self@.git.files.len(),
                n == files + ids_total(v.take(i as int)),
            decreases packs.len() - i,
        {
            let k: usize = packs[i].ids().len();
            proof {
                assert(v.take(i + 1).drop_last() =~= v.take(i as int));
                assert(v.take(i + 1).last() == packs@[i as int]@);
                ids_total_grows(v, i + 1);
            }
            if k > usize::MAX - n {
                return usize::MAX;
            }
            n += k;
            i += 1;
        }
        assert(v.take(i as int) =~= v);
        if n < usize::MAX {
            n + 1
        } else {
            n
        }
    }
}

// ---------------------------------------------------------------------
// The files of a tree
// ---------------------------------------------------------------------

/// Why a tree cannot be walked.
#[derive(Debug, Clone, PartialEq, Eq)]
pub enum WalkError {
    /// An object cannot be read.
    Odb(OdbError),
    /// An object is no tree.
    NotATree(ObjectKind),
}

/// What a [`WalkError`] says.
pub enum WalkErrorView {
    Odb(OdbErrorView),
    NotATree(ObjectKind),
}

impl View for WalkError {
    type V = WalkErrorView;

    open spec fn view(&self) -> WalkErrorView {
        match self {
            WalkError::Odb(e) => WalkErrorView::Odb(e@),
            WalkError::NotATree(k) => WalkErrorView::NotATree(*k),
        }
    }
}

/// `found` with the files of a tree added: the ids of all entries but
/// subtrees, by path. An object that is no tree is an error if the walk is
/// `strict`, and holds no files otherwise. `fuel` bounds the depth.
pub open spec fn tree_files(
    s: Store,
    id: Seq<u8>,
    prefix: Seq<u8>,
    strict: bool,
    fuel: nat,
    found: Map<Seq<u8>, Seq<u8>>,
) -> Result<Map<Seq<u8>, Seq<u8>>, WalkErrorView>
    decreases fuel, 0nat,
{
    if fuel == 0 {
        Err(WalkErrorView::Odb(OdbErrorView::CyclicObjects(id)))
    } else {
        match s.object(id) {
            Err(e) => Err(WalkErrorView::Odb(e)),
            Ok(ObjectView::Tree(es)) => entries_files(
                s,
                es,
                es.len(),
                prefix,
                strict,
                (fuel - 1) as nat,
                found,
            ),
            Ok(o) => if strict {
                Err(WalkErrorView::NotATree(o.kind()))
            } else {
                Ok(found)
            },
        }
    }
}

/// `found` with the files of the first `n` entries added.
pub open spec fn entries_files(
    s: Store,
    es: Seq<TreeEntryView>,
    n: nat,
    prefix: Seq<u8>,
    strict: bool,
    fuel: nat,
    found: Map<Seq<u8>, Seq<u8>>,
) -> Result<Map<Seq<u8>, Seq<u8>>, WalkErrorView>
    decreases fuel, n + 1,
{
    if n == 0 {
        Ok(found)
    } else {
        match entries_files(s, es, (n - 1) as nat, prefix, strict, fuel, found) {
            Err(e) => Err(e),
            Ok(m) => {
                let e = es[n - 1];
                let path = child_path(prefix, e.name);
                if e.mode == EntryMode::Tree {
                    tree_files(s, e.id, path, strict, fuel, m)
                } else {
                    Ok(m.insert(path, e.id))
                }
            },
        }
    }
}

/// An error early in the list is the error of the list.
proof fn entries_files_error(
    s: Store,
    es: Seq<TreeEntryView>,
    k: nat,
    n: nat,
    prefix: Seq<u8>,
    strict: bool,
    fuel: nat,
    found: Map<Seq<u8>, Seq<u8>>,
)
    requires
        k <= n,
        entries_files(s, es, k, prefix, strict, fuel, found) is Err,
    ensures
        entries_files(s, es, n, prefix, strict, fuel, found) == entries_files(
            s,
            es,
            k,
            prefix,
            strict,
            fuel,
            found,
        ),
    decreases n,
{
    if k < n {
        entries_files_error(s, es, k, (n - 1) as nat, prefix, strict, fuel, found);
    }
}

/// Adds the files of a tree to `out`.
fn walk_tree(
    repo: &Repository,
    id: &ObjectId,
    prefix: &[u8],
    strict: bool,
    fuel: usize,
    out: &mut ByteMap<ObjectId>,
) -> (r: Result<(), WalkError>)
    ensures
        match r {
            Ok(_) => tree_files(
                repo@.store(),
                id@,
                prefix@,
                strict,
                fuel as nat,
                old(out)@,
            ) == Ok::<_, WalkErrorView>(final(out)@),
            Err(e) => tree_files(
                repo@.store(),
                id@,
                prefix@,
                strict,
                fuel as nat,
                old(out)@,
            ) == Err::<Map<Seq<u8>, Seq<u8>>, _>(e@),
        },
    decreases fuel,
{
    if fuel == 0 {
        return Err(WalkError::Odb(OdbError::CyclicObjects(*id)));
    }
    let tree = match repo.read_object(id) {
        Err(e) => return Err(WalkError::Odb(e)),
        Ok(Object::Tree(t)) => t,
        Ok(o) => return if strict {
            Err(WalkError::NotATree(o.kind()))
        } else {
            Ok(())
        },
    };
    let ghost s = repo@.store();
    let ghost es = tree@;
    let ghost start = out@;
    let mut i: usize = 0;
    while i < tree.entries.len()
        invariant
            i <= tree.entries@.len(),
            fuel > 0,
            s == repo@.store(),
            es == tree@,
            start == old(out)@,
            tree_files(s, id@, prefix@, strict, fuel as nat, start) == entries_files(
                s,
                es,
                es.len(),
                prefix@,
                strict,
                (fuel - 1) as nat,
                start,
            ),
            entries_files(s, es, i as nat, prefix@, strict, (fuel - 1) as nat, start) == Ok::<
                _,
                WalkErrorView,
            >(out@),
        decreases tree.entries.len() - i,
    {
        let entry = &tree.entries[i];
        assert(es[i as int] == entry@);
        let path = join_child(prefix, &entry.name);
        if entry.mode == EntryMode::Tree {
            match walk_tree(repo, &entry.id, &path, strict, fuel - 1, out) {
                Ok(_) => {},
                Err(e) => {
                    proof {
                        entries_files_error(
                            s,
                            es,
                            (i + 1) as nat,
                            es.len(),
                            prefix@,
                            strict,
                            (fuel - 1) as nat,
                            start,
                        );
                    }
                    return Err(e);
                },
            }
        } else {
            out.put(&path, entry.id);
        }
        i += 1;
    }
    Ok(())
}

/// The files of a tree by path, or why it cannot be walked.
pub open spec fn files_of_tree(s: Store, id: Seq<u8>, strict: bool) -> Result<
    Map<Seq<u8>, Seq<u8>>,
    WalkErrorView,
> {
    tree_files(s, id, Seq::empty(), strict, object_bound(s), Map::empty())
}

impl Repository {
    /// The ids of a tree's files by path.
    pub fn tree_paths(&self, id: &ObjectId, strict: bool) -> (r: Result<
        ByteMap<ObjectId>,
        WalkError,
    >)
        ensures
            match r {
                Ok(m) => files_of_tree(self@.store(), id@, strict) == Ok::<_, WalkErrorView>(m@),
                Err(e) => files_of_tree(self@.store(), id@, strict) == Err::<
                    Map<Seq<u8>, Seq<u8>>,
                    _,
                >(e@),
            },
    {
        let mut out: ByteMap<ObjectId> = ByteMap::new();
        let root: Vec<u8> = Vec::new();
        let fuel: usize = self.object_bound();
        match walk_tree(self, id, &root, strict, fuel, &mut out) {
            Ok(_) => Ok(out),
            Err(e) => Err(e),
        }
    }
}

} // verus!
