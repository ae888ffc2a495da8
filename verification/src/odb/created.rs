//! What creating and opening a repository gives.

use vstd::prelude::*;

use super::setup::{imported, initialized, joined, laid_out, opened, valid_git_dir, with_index};
use super::{OdbErrorView, RepoView};
use crate::bytes::ascii;
use crate::dir::DirView;
use crate::pack::idx::idx_bytes;
use crate::pack::indexing::pack_index;
use crate::pack::{idx_path, pack_hash, PackErrorView};
use crate::worktree::WorkFileView;

verus! {

/// Law: a directory is a git directory if and only if it has a file `HEAD` and
/// directories `objects` and `refs`.
pub proof fn law_valid_git_dir(git: DirView<Seq<u8>>)
    ensures
        valid_git_dir(git) <==> git.files.contains_key(seq![72u8, 69u8, 65u8, 68u8])
            && git.dirs.contains(seq![111u8, 98u8, 106u8, 101u8, 99u8, 116u8, 115u8])
            && git.dirs.contains(seq![114u8, 101u8, 102u8, 115u8]),
{
    reveal_strlit("HEAD");
    reveal_strlit("objects");
    reveal_strlit("refs");
    assert(ascii("HEAD"@) =~= seq![72u8, 69u8, 65u8, 68u8]);
    assert(ascii("objects"@) =~= seq![111u8, 98u8, 106u8, 101u8, 99u8, 116u8, 115u8]);
    assert(ascii("refs"@) =~= seq![114u8, 101u8, 102u8, 115u8]);
}

/// Law: a path is joined to a part by one slash.
pub proof fn law_joined(path: Seq<char>, part: Seq<char>)
    ensures
        path.len() == 0 ==> joined(path, part) == part,
        path.len() > 0 && path.last() == '/' ==> joined(path, part) == path + part,
        path.len() > 0 && path.last() != '/' ==> joined(path, part) == path + seq!['/'] + part,
{
    reveal_strlit("/");
    assert("/"@ =~= seq!['/']);
    if path.len() == 0 {
        assert(path + part =~= part);
    }
}

/// Law: a repository that is created anew is laid out and has no packs and no
/// packed refs. A bare one is its own git directory and has no working tree;
/// another one has the given directory as its working tree and `.git` in it as
/// its git directory. Where there is a git directory already, it is opened.
pub proof fn law_initialized(
    path: Seq<char>,
    bare: bool,
    git: DirView<Seq<u8>>,
    work: DirView<WorkFileView>,
    times: Map<Seq<u8>, u64>,
    r: Result<RepoView, OdbErrorView>,
)
    requires
        initialized(path, bare, git, work, times, r),
    ensures
        r matches Ok(repo) ==> {
            &&& repo.work == work
            &&& repo.work_dir == if bare {
                None
            } else {
                Some(path)
            }
            &&& repo.git_dir == if bare {
                path
            } else {
                joined(path, seq!['.', 'g', 'i', 't'])
            }
            &&& !valid_git_dir(git) ==> repo.packs.len() == 0 && repo.packed_refs == Map::<
                Seq<u8>,
                Seq<u8>,
            >::empty() && laid_out(git) == Ok::<_, crate::files::IoError>(repo.git)
        },
        valid_git_dir(git) ==> r == opened(
            if bare {
                path
            } else {
                joined(path, seq!['.', 'g', 'i', 't'])
            },
            if bare {
                None
            } else {
                Some(path)
            },
            git,
            work,
            times,
        ),
{
    reveal_strlit(".git");
    assert(".git"@ =~= seq!['.', 'g', 'i', 't']);
}

/// Law: only a git directory can be opened, and an opened one has the packed
/// refs of its file.
pub proof fn law_opened(
    git_dir: Seq<char>,
    work_dir: Option<Seq<char>>,
    git: DirView<Seq<u8>>,
    work: DirView<WorkFileView>,
    times: Map<Seq<u8>, u64>,
)
    ensures
        opened(git_dir, work_dir, git, work, times) == Err::<RepoView, _>(
            OdbErrorView::NotARepository(git_dir),
        ) <==> !valid_git_dir(git),
        opened(git_dir, work_dir, git, work, times) matches Ok(repo) ==> {
            &&& repo.git_dir == git_dir
            &&& repo.work_dir == work_dir
            &&& repo.work == work
            &&& crate::refs::packed_refs_of(repo.git) == Ok::<_, crate::files::IoError>(
                repo.packed_refs,
            )
            &&& super::setup::discovered(git, times) == Ok::<_, PackErrorView>(
                (repo.git, repo.packs),
            )
        },
{
}

/// Law: a pack without an index gets the one that is built for it, beside it;
/// one with an index keeps it. Nothing else changes.
pub proof fn law_with_index(git: DirView<Seq<u8>>, pack: Seq<u8>, other: Seq<u8>)
    requires
        with_index(git, pack) is Ok,
    ensures
        ({
            let g = with_index(git, pack)->Ok_0;
            let idx = idx_path(pack);
            &&& g.exists_at(idx)
            &&& git.exists_at(idx) ==> g == git
            &&& !git.exists_at(idx) ==> pack_index(git.files[pack]) is Ok && g.files[idx]
                == idx_bytes(
                pack_index(git.files[pack])->Ok_0,
                pack_hash(git.files[pack])->Ok_0,
            )
            &&& other != idx ==> g.files.contains_key(other) == git.files.contains_key(other)
            &&& other != idx && git.files.contains_key(other) ==> g.files[other]
                == git.files[other]
        }),
{
}

/// Law: a pack that is taken in stands in the pack directory under its hash,
/// with the index that is built for it, and no other file changes.
pub proof fn law_imported(git: DirView<Seq<u8>>, pack: Seq<u8>, other: Seq<u8>)
    requires
        pack_hash(pack) is Ok,
        pack_index(pack) is Ok,
    ensures
        ({
            let g = imported(git, pack);
            let name = ascii("objects/pack/pack-"@) + crate::notation::hex(pack_hash(pack)->Ok_0);
            let p = name + ascii(".pack"@);
            let q = name + ascii(".idx"@);
            &&& g.files.contains_key(p) && g.files[p] == pack
            &&& g.files.contains_key(q) && g.files[q] == idx_bytes(
                pack_index(pack)->Ok_0,
                pack_hash(pack)->Ok_0,
            )
            &&& other != p && other != q ==> g.files.contains_key(other) == git.files.contains_key(
                other,
            )
            &&& other != p && other != q && git.files.contains_key(other) ==> g.files[other]
                == git.files[other]
        }),
{
    reveal_strlit(".pack");
    reveal_strlit(".idx");
    let name = ascii("objects/pack/pack-"@) + crate::notation::hex(pack_hash(pack)->Ok_0);
    let p = name + ascii(".pack"@);
    let q = name + ascii(".idx"@);
    assert(p.len() == q.len() + 1);
    assert(super::setup::canonical_name(pack_hash(pack)->Ok_0, ".pack"@) =~= p);
    assert(super::setup::canonical_name(pack_hash(pack)->Ok_0, ".idx"@) =~= q);
}

} // verus!
