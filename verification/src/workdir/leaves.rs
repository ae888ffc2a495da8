//! Which tree entries index entries become.

use vstd::prelude::*;

use super::staging::{index_leaves, tree_mode, LeafView};
use crate::index::IndexEntryView;
use crate::object::EntryMode;

verus! {

/// Law: the upper four of an index mode's sixteen bits tell a link and a
/// submodule; everything else is a regular file, and an executable one if it
/// says so in full and has an execute bit for anyone.
pub proof fn law_tree_mode(mode: u32)
    ensures
        tree_mode(mode) == EntryMode::Symlink <==> mode & 0xf000 == 0xa000,
        tree_mode(mode) == EntryMode::Gitlink <==> mode & 0xf000 == 0xe000,
        tree_mode(mode) == EntryMode::Executable <==> mode & 0xf000 == 0x8000 && mode & 0x49 != 0,
        tree_mode(mode) != EntryMode::Tree,
        tree_mode(33188) == EntryMode::Regular,
        tree_mode(33261) == EntryMode::Executable,
{
    assert(mode & 0xf000 == (mode / 0x1000 % 16) * 0x1000) by (bit_vector);
    assert((mode & 0x49 != 0) <==> (mode % 2 == 1 || mode / 8 % 2 == 1 || mode / 64 % 2 == 1))
        by (bit_vector);
}

/// Law: the leaves of an index are its resolved entries, in order, each with
/// its path, its id and its mode.
pub proof fn law_index_leaves(es: Seq<IndexEntryView>, e: IndexEntryView)
    ensures
        index_leaves(Seq::empty()) == Seq::<LeafView>::empty(),
        e.stage == 0 ==> index_leaves(es.push(e)) == index_leaves(es).push(
            LeafView { path: e.path, mode: tree_mode(e.mode), id: e.id },
        ),
        e.stage != 0 ==> index_leaves(es.push(e)) == index_leaves(es),
{
    assert(es.push(e).drop_last() =~= es);
}

} // verus!
