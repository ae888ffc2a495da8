//! From files to the index, and from the index to trees.

use vstd::prelude::*;

use super::{WorkdirError, WorkdirErrorView};
use crate::bytemap::{lists_keys, sorted_keys, ByteMap};
use crate::bytes::{find, same_bytes, to_vec, upto, upto_spec, SLASH};
use crate::dir::DirView;
use crate::index::{entries_view, Index, IndexEntryView};
use crate::object::{EntryMode, Object, ObjectId, ObjectView, Tree, TreeEntry, TreeEntryView};
use crate::odb::{after_store, OdbError, OdbErrorView, RepoView, Repository};

verus! {

// ---------------------------------------------------------------------
// Modes
// ---------------------------------------------------------------------

/// The tree mode of an index mode: its upper bits tell the kind of file,
/// and any execute bit makes a regular file executable.
pub open spec fn tree_mode(mode: u32) -> EntryMode {
    let kind = mode / 0x1000 % 16;
    if kind == 8 {
        if mode % 2 == 1 || mode / 8 % 2 == 1 || mode / 64 % 2 == 1 {
            EntryMode::Executable
        } else {
            EntryMode::Regular
        }
    } else if kind == 10 {
        EntryMode::Symlink
    } else if kind == 14 {
        EntryMode::Gitlink
    } else {
        EntryMode::Regular
    }
}

/// The tree mode of an index mode.
pub fn mode_for_index_entry(mode: u32) -> (r: EntryMode)
    ensures
        r == tree_mode(mode),
{
    let kind: u32 = mode / 0x1000 % 16;
    if kind == 8 {
        if mode % 2 == 1 || mode / 8 % 2 == 1 || mode / 64 % 2 == 1 {
            EntryMode::Executable
        } else {
            EntryMode::Regular
        }
    } else if kind == 10 {
        EntryMode::Symlink
    } else if kind == 14 {
        EntryMode::Gitlink
    } else {
        EntryMode::Regular
    }
}

// ---------------------------------------------------------------------
// Trees of the index
// ---------------------------------------------------------------------

/// A file on its way into a tree: its path from there on.
pub struct Leaf {
    pub path: Vec<u8>,
    pub mode: EntryMode,
    pub id: ObjectId,
}

/// What a leaf holds.
pub struct LeafView {
    pub path: Seq<u8>,
    pub mode: EntryMode,
    pub id: Seq<u8>,
}

impl View for Leaf {
    type V = LeafView;

    open spec fn view(&self) -> LeafView {
        LeafView { path: self.path@, mode: self.mode, id: self.id@ }
    }
}

/// What the leaves of a list hold.
pub open spec fn leaves_view(ls: Seq<Leaf>) -> Seq<LeafView> {
    ls.map_values(|l: Leaf| l@)
}

/// Whether the path leads into a directory.
pub open spec fn is_deep(path: Seq<u8>) -> bool {
    upto(path, SLASH) < path.len()
}

/// The first part of a path.
pub open spec fn first_part(path: Seq<u8>) -> Seq<u8> {
    path.take(upto(path, SLASH))
}

/// The entries of the leaves that stand in the directory itself.
pub open spec fn own_files(ls: Seq<LeafView>) -> Seq<TreeEntryView>
    decreases ls.len(),
{
    if ls.len() == 0 {
        Seq::empty()
    } else if is_deep(ls.last().path) {
        own_files(ls.drop_last())
    } else {
        own_files(ls.drop_last()).push(
            TreeEntryView { mode: ls.last().mode, name: ls.last().path, id: ls.last().id },
        )
    }
}

/// The names of the directories that the leaves lead into.
pub open spec fn dir_names(ls: Seq<LeafView>) -> Set<Seq<u8>>
    decreases ls.len(),
{
    if ls.len() == 0 {
        Set::empty()
    } else if is_deep(ls.last().path) {
        dir_names(ls.drop_last()).insert(first_part(ls.last().path))
    } else {
        dir_names(ls.drop_last())
    }
}

/// The leaves below a directory, with their paths from there on.
pub open spec fn below(ls: Seq<LeafView>, name: Seq<u8>) -> Seq<LeafView>
    decreases ls.len(),
{
    if ls.len() == 0 {
        Seq::empty()
    } else {
        let l = ls.last();
        if is_deep(l.path) && first_part(l.path) == name {
            below(ls.drop_last(), name).push(
                LeafView { path: l.path.skip(upto(l.path, SLASH) + 1), mode: l.mode, id: l.id },
            )
        } else {
            below(ls.drop_last(), name)
        }
    }
}

/// The lengths of all paths together.
pub open spec fn total_len(ls: Seq<LeafView>) -> nat
    decreases ls.len(),
{
    if ls.len() == 0 {
        0
    } else {
        total_len(ls.drop_last()) + ls.last().path.len()
    }
}

/// The names of the directories in ascending order.
pub open spec fn subdirs(ls: Seq<LeafView>) -> Seq<Seq<u8>> {
    sorted_keys(dir_names(ls))
}

/// The entries of the first `n` subdirectories.
pub open spec fn dir_entries(ls: Seq<LeafView>, n: nat) -> Seq<TreeEntryView>
    decreases total_len(ls), n,
{
    if n == 0 {
        Seq::empty()
    } else {
        let name = subdirs(ls)[n - 1];
        let sub = below(ls, name);
        let id = if total_len(sub) < total_len(ls) {
            ObjectView::Tree(own_files(sub) + dir_entries(sub, subdirs(sub).len())).id()
        } else {
            Seq::empty()
        };
        dir_entries(ls, (n - 1) as nat).push(TreeEntryView { mode: EntryMode::Tree, name, id })
    }
}

/// The tree of a list of leaves: its own files, then its subdirectories by
/// name.
pub open spec fn tree_of(ls: Seq<LeafView>) -> ObjectView {
    ObjectView::Tree(own_files(ls) + dir_entries(ls, subdirs(ls).len()))
}

/// The git directory after storing the trees of the first `n`
/// subdirectories, and what went wrong, if anything.
pub open spec fn store_subdirs(git: DirView<Seq<u8>>, ls: Seq<LeafView>, n: nat) -> (
    DirView<Seq<u8>>,
    Option<OdbErrorView>,
)
    decreases total_len(ls), n,
{
    if n == 0 {
        (git, None)
    } else {
        let (g, fault) = store_subdirs(git, ls, (n - 1) as nat);
        let sub = below(ls, subdirs(ls)[n - 1]);
        if fault is Some || total_len(sub) >= total_len(ls) {
            (g, fault)
        } else {
            let (g2, fault2) = store_subdirs(g, sub, subdirs(sub).len());
            if fault2 is Some {
                (g2, fault2)
            } else {
                after_store(g2, tree_of(sub))
            }
        }
    }
}

/// The git directory after storing the tree of a list of leaves with all
/// its subtrees, and what went wrong, if anything.
pub open spec fn store_tree(git: DirView<Seq<u8>>, ls: Seq<LeafView>) -> (
    DirView<Seq<u8>>,
    Option<OdbErrorView>,
) {
    let (g, fault) = store_subdirs(git, ls, subdirs(ls).len());
    if fault is Some {
        (g, fault)
    } else {
        after_store(g, tree_of(ls))
    }
}

/// Paths below a directory are shorter.
pub proof fn below_shrinks(ls: Seq<LeafView>, name: Seq<u8>)
    ensures
        total_len(below(ls, name)) <= total_len(ls),
        dir_names(ls).contains(name) ==> total_len(below(ls, name)) < total_len(ls),
    decreases ls.len(),
{
    if ls.len() > 0 {
        let t = ls.drop_last();
        let l = ls.last();
        below_shrinks(t, name);
        upto_spec(l.path, SLASH);
        if is_deep(l.path) && first_part(l.path) == name {
            let rest = LeafView {
                path: l.path.skip(upto(l.path, SLASH) + 1),
                mode: l.mode,
                id: l.id,
            };
            assert(below(t, name).push(rest).drop_last() =~= below(t, name));
            assert(below(ls, name).last() == rest);
        }
    }
}

/// What stops the first subdirectories stops the list.
proof fn store_stops(git: DirView<Seq<u8>>, ls: Seq<LeafView>, k: nat, n: nat)
    requires
        k <= n,
        store_subdirs(git, ls, k).1 is Some,
    ensures
        store_subdirs(git, ls, n) == store_subdirs(git, ls, k),
    decreases n,
{
    if k < n {
        store_stops(git, ls, k, (n - 1) as nat);
    }
}

/// What the entries of a list hold.
pub open spec fn tree_entries_view(es: Seq<TreeEntry>) -> Seq<TreeEntryView> {
    es.map_values(|e: TreeEntry| e@)
}

/// The names of the subdirectories.
fn find_subdirs(ls: &Vec<Leaf>) -> (r: ByteMap<()>)
    ensures
        r@.dom() == dir_names(leaves_view(ls@)),
{
    let ghost v = leaves_view(ls@);
    let mut out: ByteMap<()> = ByteMap::new();
    let mut i: usize = 0;
    assert(out@.dom() =~= dir_names(v.take(0)));
    while i < ls.len()
        invariant
            i <= ls@.len(),
            v == leaves_view(ls@),
            out@.dom() == dir_names(v.take(i as int)),
        decreases ls.len() - i,
    {
        let path = &ls[i].path;
        proof {
            assert(v.take(i + 1).drop_last() =~= v.take(i as int));
            assert(v.take(i + 1).last() == ls@[i as int]@);
        }
        let k: usize = find(path, SLASH);
        if k < path.len() {
            assert(path@.subrange(0, k as int) =~= path@.take(k as int));
            out.put(&path[0..k], ());
        }
        assert(out@.dom() =~= dir_names(v.take(i + 1)));
        i += 1;
    }
    assert(v.take(i as int) =~= v);
    out
}

/// The leaves below a directory.
fn leaves_below(ls: &Vec<Leaf>, name: &[u8]) -> (r: Vec<Leaf>)
    ensures
        leaves_view(r@) == below(leaves_view(ls@), name@),
{
    let ghost v = leaves_view(ls@);
    let mut out: Vec<Leaf> = Vec::new();
    let mut i: usize = 0;
    assert(leaves_view(out@) =~= below(v.take(0), name@));
    while i < ls.len()
        invariant
            i <= ls@.len(),
            v == leaves_view(ls@),
            leaves_view(out@) == below(v.take(i as int), name@),
        decreases ls.len() - i,
    {
        let l = &ls[i];
        let ghost before = out@;
        proof {
            assert(v.take(i + 1).drop_last() =~= v.take(i as int));
            assert(v.take(i + 1).last() == l@);
        }
        let k: usize = find(&l.path, SLASH);
        if k < l.path.len() {
            assert(l.path@.subrange(0, k as int) =~= l.path@.take(k as int));
            assert(l.path@.subrange(k + 1, l.path@.len() as int) =~= l.path@.skip(k + 1));
            if same_bytes(&l.path[0..k], name) {
                let leaf = Leaf {
                    path: to_vec(&l.path[k + 1..l.path.len()]),
                    mode: l.mode,
                    id: l.id,
                };
                let ghost lv = leaf@;
                out.push(leaf);
                assert(leaves_view(out@) =~= leaves_view(before).push(lv));
            }
        }
        i += 1;
    }
    assert(v.take(i as int) =~= v);
    out
}

/// The entries of the leaves that stand in the directory itself.
fn own_entries(ls: &Vec<Leaf>) -> (r: Vec<TreeEntry>)
    ensures
        tree_entries_view(r@) == own_files(leaves_view(ls@)),
{
    let ghost v = leaves_view(ls@);
    let mut out: Vec<TreeEntry> = Vec::new();
    let mut i: usize = 0;
    assert(tree_entries_view(out@) =~= own_files(v.take(0)));
    while i < ls.len()
        invariant
            i <= ls@.len(),
            v == leaves_view(ls@),
            tree_entries_view(out@) == own_files(v.take(i as int)),
        decreases ls.len() - i,
    {
        let l = &ls[i];
        let ghost before = out@;
        proof {
            assert(v.take(i + 1).drop_last() =~= v.take(i as int));
            assert(v.take(i + 1).last() == l@);
        }
        if find(&l.path, SLASH) == l.path.len() {
            let e = TreeEntry { mode: l.mode, name: to_vec(&l.path), id: l.id };
            let ghost ev = e@;
            out.push(e);
            assert(tree_entries_view(out@) =~= tree_entries_view(before).push(ev));
        }
        i += 1;
    }
    assert(v.take(i as int) =~= v);
    out
}

/// What a result says of the outcome.
pub open spec fn odb_fault(r: Result<ObjectId, OdbError>) -> Option<OdbErrorView> {
    match r {
        Ok(_) => None,
        Err(e) => Some(e@),
    }
}

/// Stores the tree of a list of leaves with all its subtrees.
fn write_tree_node(repo: &mut Repository, ls: &Vec<Leaf>) -> (r: Result<ObjectId, OdbError>)
    ensures
        store_tree(old(repo)@.git, leaves_view(ls@)) == (final(repo)@.git, odb_fault(r)),
        final(repo)@ == (RepoView { git: final(repo)@.git, ..old(repo)@ }),
        r matches Ok(id) ==> id@ == tree_of(leaves_view(ls@)).id(),
    decreases total_len(leaves_view(ls@)),
{
    let ghost v = leaves_view(ls@);
    let ghost start = repo@.git;
    let mut entries = own_entries(ls);
    let dirs = find_subdirs(ls);
    let n: usize = dirs.count();
    let ghost names = dirs.keys();
    let mut i: usize = 0;
    assert(tree_entries_view(entries@) =~= own_files(v) + dir_entries(v, 0));
    while i < n
        invariant
            i <= n,
            n == names.len(),
            names == dirs.keys(),
            names == subdirs(v),
            lists_keys(names, dir_names(v)),
            v == leaves_view(ls@),
            start == old(repo)@.git,
            store_subdirs(start, v, i as nat) == (repo@.git, None::<OdbErrorView>),
            repo@ == (RepoView { git: repo@.git, ..old(repo)@ }),
            tree_entries_view(entries@) == own_files(v) + dir_entries(v, i as nat),
        decreases n - i,
    {
        let name = dirs.key(i);
        let sub = leaves_below(ls, name);
        let ghost before = entries@;
        let ghost sv = leaves_view(sub@);
        proof {
            assert(names.contains(names[i as int]));
            assert(dir_names(v).contains(name@));
            below_shrinks(v, name@);
        }
        match write_tree_node(repo, &sub) {
            Err(e) => {
                proof {
                    store_stops(start, v, (i + 1) as nat, n as nat);
                }
                return Err(e);
            },
            Ok(id) => {
                let e = TreeEntry { mode: EntryMode::Tree, name: to_vec(name), id };
                let ghost ev = e@;
                entries.push(e);
                proof {
                    assert(tree_entries_view(entries@) =~= tree_entries_view(before).push(ev));
                    assert(tree_entries_view(entries@) =~= own_files(v) + dir_entries(
                        v,
                        (i + 1) as nat,
                    ));
                }
            },
        }
        i += 1;
    }
    let tree = Tree { entries };
    assert(tree@ =~= own_files(v) + dir_entries(v, n as nat));
    repo.write_object(&Object::Tree(tree))
}

/// The leaves of the resolved index entries.
pub open spec fn index_leaves(es: Seq<IndexEntryView>) -> Seq<LeafView>
    decreases es.len(),
{
    if es.len() == 0 {
        Seq::empty()
    } else if es.last().stage == 0 {
        index_leaves(es.drop_last()).push(
            LeafView { path: es.last().path, mode: tree_mode(es.last().mode), id: es.last().id },
        )
    } else {
        index_leaves(es.drop_last())
    }
}

impl Repository {
    /// Stores the tree of the index with all its subtrees, and gives the id
    /// of the top tree. Where it fails, what was stored before stays.
    pub fn build_tree_from_index(&mut self, index: &Index) -> (r: Result<ObjectId, WorkdirError>)
        ensures
            final(self)@ == (RepoView {
                git: store_tree(old(self)@.git, index_leaves(index@.entries)).0,
                ..old(self)@
            }),
            match r {
                Ok(id) => id@ == tree_of(index_leaves(index@.entries)).id() && store_tree(
                    old(self)@.git,
                    index_leaves(index@.entries),
                ).1 is None,
                Err(e) => store_tree(old(self)@.git, index_leaves(index@.entries)).1 matches Some(
                    x,
                ) && e@ == WorkdirErrorView::Odb(x),
            },
    {
        let entries = index.entries();
        let ghost es = index@.entries;
        let mut leaves: Vec<Leaf> = Vec::new();
        let mut i: usize = 0;
        assert(leaves_view(leaves@) =~= index_leaves(es.take(0)));
        while i < entries.len()
            invariant
                i <= entries@.len(),
                es == entries_view(entries@),
                leaves_view(leaves@) == index_leaves(es.take(i as int)),
            decreases entries.len() - i,
        {
            let e = &entries[i];
            let ghost before = leaves@;
            proof {
                assert(es.take(i + 1).drop_last() =~= es.take(i as int));
                assert(es.take(i + 1).last() == e@);
            }
            if e.stage == 0 {
                let leaf = Leaf {
                    path: to_vec(&e.path),
                    mode: mode_for_index_entry(e.mode),
                    id: e.id,
                };
                let ghost lv = leaf@;
                leaves.push(leaf);
                assert(leaves_view(leaves@) =~= leaves_view(before).push(lv));
            }
            i += 1;
        }
        assert(es.take(i as int) =~= es);
        match write_tree_node(self, &leaves) {
            Ok(id) => Ok(id),
            Err(e) => Err(WorkdirError::Odb(e)),
        }
    }
}

} // verus!
