//! What is sent in a push.

use vstd::prelude::*;
use vstd::utf8::encode_utf8;

use crate::bytemap::sorted_keys;
use crate::bytes::{ascii, push_all, push_text, LF, NUL, SPACE};
use crate::files::IoError;
use crate::idset::IdSet;
use crate::notation::{hex, same_text};
use crate::object::commit::ids_view;
use crate::object::{zero_id, ObjectId, ObjectKind};
use crate::odb::{OdbError, OdbErrorView, Repository, Store};
use crate::pack::writer::{deflatable, pack_bytes};
use crate::pack::{PackErrorView, PackWriter};

use super::advertisement::{remote_refs_view, RemoteRef, RemoteRefView};
use super::reachable::{collect_reachable_objects, collected};
use super::{packet, pkt_line_encode, pkt_line_flush, TransportError, TransportErrorView};

verus! {

/// A ref to be moved on the remote. The zero id stands for a ref that is
/// not there.
#[derive(Debug, Clone)]
pub struct RefUpdate {
    pub old_id: ObjectId,
    pub new_id: ObjectId,
    pub ref_name: String,
}

/// The contents of a [`RefUpdate`].
pub struct RefUpdateView {
    pub old_id: Seq<u8>,
    pub new_id: Seq<u8>,
    pub ref_name: Seq<char>,
}

impl View for RefUpdate {
    type V = RefUpdateView;

    open spec fn view(&self) -> RefUpdateView {
        RefUpdateView { old_id: self.old_id@, new_id: self.new_id@, ref_name: self.ref_name@ }
    }
}

/// The updates of a list.
pub open spec fn updates_view(us: Seq<RefUpdate>) -> Seq<RefUpdateView> {
    us.map_values(|u: RefUpdate| u@)
}

// ---------------------------------------------------------------------
// Where the remote's refs are
// ---------------------------------------------------------------------

/// The id of the first ref with the name, or the zero id.
pub open spec fn advertised_id(rs: Seq<RemoteRefView>, name: Seq<char>) -> Seq<u8>
    decreases rs.len(),
{
    if rs.len() == 0 {
        zero_id()
    } else if rs[0].name == name {
        rs[0].id
    } else {
        advertised_id(rs.skip(1), name)
    }
}

/// An update that starts from where the remote's ref is, unless it names a
/// start itself.
pub open spec fn resolved(u: RefUpdateView, rs: Seq<RemoteRefView>) -> RefUpdateView {
    if u.old_id == zero_id() {
        RefUpdateView { old_id: advertised_id(rs, u.ref_name), ..u }
    } else {
        u
    }
}

/// Finds where the remote's ref is.
fn find_advertised(remote: &[RemoteRef], name: &str) -> (r: ObjectId)
    ensures
        r@ == advertised_id(remote_refs_view(remote@), name@),
{
    let ghost rs = remote_refs_view(remote@);
    let mut i: usize = 0;
    assert(rs.skip(0) =~= rs);
    while i < remote.len()
        invariant
            i <= remote@.len(),
            rs == remote_refs_view(remote@),
            advertised_id(rs.skip(i as int), name@) == advertised_id(rs, name@),
        decreases remote.len() - i,
    {
        proof {
            assert(rs.skip(i as int)[0] == remote@[i as int]@);
            assert(rs.skip(i as int).skip(1) =~= rs.skip(i + 1));
        }
        if same_text(remote[i].name.as_str(), name) {
            return remote[i].id;
        }
        i += 1;
    }
    ObjectId::zero()
}

/// Lets each update start from where the remote's ref is.
pub fn resolve_updates(updates: &[RefUpdate], remote: &[RemoteRef]) -> (r: Vec<RefUpdate>)
    ensures
        updates_view(r@) == updates_view(updates@).map_values(
            |u: RefUpdateView| resolved(u, remote_refs_view(remote@)),
        ),
{
    let ghost rs = remote_refs_view(remote@);
    let mut out: Vec<RefUpdate> = Vec::new();
    let mut i: usize = 0;
    while i < updates.len()
        invariant
            i <= updates@.len(),
            out@.len() == i,
            rs == remote_refs_view(remote@),
            forall|j: int| 0 <= j < i ==> (#[trigger] out@[j])@ == resolved(updates@[j]@, rs),
        decreases updates.len() - i,
    {
        let u = &updates[i];
        let old_id: ObjectId = if u.old_id.is_zero() {
            find_advertised(remote, u.ref_name.as_str())
        } else {
            u.old_id
        };
        out.push(RefUpdate { old_id, new_id: u.new_id, ref_name: u.ref_name.clone() });
        i += 1;
    }
    assert(updates_view(out@) =~= updates_view(updates@).map_values(
        |u: RefUpdateView| resolved(u, remote_refs_view(remote@)),
    ));
    out
}

/// Whether no update moves anything.
pub fn all_up_to_date(updates: &[RefUpdate]) -> (r: bool)
    ensures
        r <==> forall|i: int|
            0 <= i < updates@.len() ==> (#[trigger] updates@[i])@.old_id == updates@[i]@.new_id,
{
    let mut i: usize = 0;
    while i < updates.len()
        invariant
            i <= updates@.len(),
            forall|j: int|
                0 <= j < i ==> (#[trigger] updates@[j])@.old_id == updates@[j]@.new_id,
        decreases updates.len() - i,
    {
        if updates[i].old_id != updates[i].new_id {
            return false;
        }
        i += 1;
    }
    true
}

// ---------------------------------------------------------------------
// The body of a push
// ---------------------------------------------------------------------

/// The objects that the first `n` updates lead to; an update that deletes
/// its ref leads to none.
pub open spec fn needed(s: Store, us: Seq<RefUpdateView>, n: nat) -> Result<
    Set<Seq<u8>>,
    OdbErrorView,
>
    decreases n,
{
    if n == 0 {
        Ok(Set::empty())
    } else {
        match needed(s, us, (n - 1) as nat) {
            Err(e) => Err(e),
            Ok(m) => if us[n - 1].new_id == zero_id() {
                Ok(m)
            } else {
                collected(s, us[n - 1].new_id, m)
            },
        }
    }
}

/// The kinds and payloads of the first `n` ids.
pub open spec fn raw_objects(s: Store, ids: Seq<Seq<u8>>, n: nat) -> Result<
    Seq<(ObjectKind, Seq<u8>)>,
    OdbErrorView,
>
    decreases n,
{
    if n == 0 {
        Ok(Seq::empty())
    } else {
        match raw_objects(s, ids, (n - 1) as nat) {
            Err(e) => Err(e),
            Ok(es) => match s.raw(ids[n - 1]) {
                Err(e) => Err(e),
                Ok(x) => Ok(es.push(x)),
            },
        }
    }
}

/// The line that asks for an update; the first one also asks for a report.
pub open spec fn command(u: RefUpdateView, first: bool) -> Seq<u8> {
    hex(u.old_id) + seq![SPACE] + hex(u.new_id) + seq![SPACE] + encode_utf8(u.ref_name) + (
    if first {
        seq![NUL] + ascii("report-status"@)
    } else {
        Seq::empty()
    }) + seq![LF]
}

/// The packets that ask for the first `n` updates.
pub open spec fn commands(us: Seq<RefUpdateView>, n: nat) -> Seq<u8>
    decreases n,
{
    if n == 0 {
        Seq::empty()
    } else {
        commands(us, (n - 1) as nat) + packet(command(us[n - 1], n == 1))
    }
}

/// The body of a push: the commands, a flush packet and a pack with all the
/// objects that the updates lead to, in the order of their ids.
pub open spec fn push_body(s: Store, us: Seq<RefUpdateView>) -> Result<
    Seq<u8>,
    TransportErrorView,
> {
    match needed(s, us, us.len()) {
        Err(e) => Err(TransportErrorView::Odb(e)),
        Ok(m) => match raw_objects(s, sorted_keys(m), sorted_keys(m).len()) {
            Err(e) => Err(TransportErrorView::Odb(e)),
            Ok(es) => if !deflatable(es) {
                Err(TransportErrorView::Pack(PackErrorView::Io(IoError::Compression)))
            } else {
                Ok(commands(us, us.len()) + ascii("0000"@) + pack_bytes(es))
            },
        },
    }
}

/// An error early in the list is the error of the list.
proof fn needed_error(s: Store, us: Seq<RefUpdateView>, k: nat, n: nat)
    requires
        k <= n,
        needed(s, us, k) is Err,
    ensures
        needed(s, us, n) == needed(s, us, k),
    decreases n,
{
    if k < n {
        needed_error(s, us, k, (n - 1) as nat);
    }
}

/// An error early in the list is the error of the list.
proof fn raw_objects_error(s: Store, ids: Seq<Seq<u8>>, k: nat, n: nat)
    requires
        k <= n,
        raw_objects(s, ids, k) is Err,
    ensures
        raw_objects(s, ids, n) == raw_objects(s, ids, k),
    decreases n,
{
    if k < n {
        raw_objects_error(s, ids, k, (n - 1) as nat);
    }
}

/// Collects the objects that the updates lead to.
fn collect_needed(repo: &Repository, updates: &[RefUpdate]) -> (r: Result<IdSet, TransportError>)
    ensures
        match r {
            Ok(m) => needed(repo@.store(), updates_view(updates@), updates@.len()) == Ok::<
                _,
                OdbErrorView,
            >(m@),
            Err(e) => needed(repo@.store(), updates_view(updates@), updates@.len()) matches Err(x)
                && e@ == TransportErrorView::Odb(x),
        },
{
    let ghost s = repo@.store();
    let ghost us = updates_view(updates@);
    let mut ids = IdSet::new();
    let mut i: usize = 0;
    while i < updates.len()
        invariant
            i <= updates@.len(),
            s == repo@.store(),
            us == updates_view(updates@),
            needed(s, us, i as nat) == Ok::<_, OdbErrorView>(ids@),
        decreases updates.len() - i,
    {
        assert(us[i as int] == updates@[i as int]@);
        if !updates[i].new_id.is_zero() {
            match collect_reachable_objects(repo, &updates[i].new_id, &mut ids) {
                Ok(_) => {},
                Err(e) => {
                    proof {
                        needed_error(s, us, (i + 1) as nat, us.len());
                    }
                    return Err(e);
                },
            }
        }
        i += 1;
    }
    Ok(ids)
}

/// A pack writer with the objects.
fn pack_objects_of(repo: &Repository, ids: &Vec<ObjectId>) -> (r: Result<PackWriter, OdbError>)
    ensures
        match r {
            Ok(w) => raw_objects(repo@.store(), ids_view(ids@), ids@.len()) == Ok::<
                _,
                OdbErrorView,
            >(w@),
            Err(e) => raw_objects(repo@.store(), ids_view(ids@), ids@.len()) == Err::<
                Seq<(ObjectKind, Seq<u8>)>,
                _,
            >(e@),
        },
{
    let ghost s = repo@.store();
    let ghost v = ids_view(ids@);
    let mut writer = PackWriter::new();
    let mut i: usize = 0;
    while i < ids.len()
        invariant
            i <= ids@.len(),
            s == repo@.store(),
            v == ids_view(ids@),
            raw_objects(s, v, i as nat) == Ok::<_, OdbErrorView>(writer@),
        decreases ids.len() - i,
    {
        assert(v[i as int] == ids@[i as int]@);
        match repo.read_object_raw(&ids[i]) {
            Ok((kind, payload)) => writer.add(kind, &payload),
            Err(e) => {
                proof {
                    raw_objects_error(s, v, (i + 1) as nat, v.len());
                }
                return Err(e);
            },
        }
        i += 1;
    }
    Ok(writer)
}

/// The line that asks for an update.
fn command_line(u: &RefUpdate, first: bool) -> (r: Vec<u8>)
    ensures
        r@ == command(u@, first),
{
    proof {
        reveal_strlit("report-status");
    }
    let mut line = u.old_id.to_hex_bytes();
    line.push(SPACE);
    push_all(&mut line, &u.new_id.to_hex_bytes());
    line.push(SPACE);
    push_all(&mut line, u.ref_name.as_str().as_bytes());
    if first {
        line.push(NUL);
        push_text(&mut line, "report-status");
    }
    line.push(LF);
    assert(line@ =~= command(u@, first));
    line
}

/// Builds the body of a push.
pub fn build_push_body(repo: &Repository, updates: &[RefUpdate]) -> (r: Result<
    Vec<u8>,
    TransportError,
>)
    ensures
        match r {
            Ok(b) => push_body(repo@.store(), updates_view(updates@)) == Ok::<
                _,
                TransportErrorView,
            >(b@),
            Err(e) => push_body(repo@.store(), updates_view(updates@)) == Err::<Seq<u8>, _>(e@),
        },
{
    let ghost us = updates_view(updates@);
    let ids = match collect_needed(repo, updates) {
        Ok(m) => m,
        Err(e) => return Err(e),
    };
    let listed = ids.to_vec();
    let writer = match pack_objects_of(repo, &listed) {
        Ok(w) => w,
        Err(e) => return Err(TransportError::Odb(e)),
    };
    let pack = match writer.finish() {
        Ok((bytes, _)) => bytes,
        Err(e) => return Err(TransportError::Pack(e)),
    };
    let mut body: Vec<u8> = Vec::new();
    let mut i: usize = 0;
    assert(body@ =~= commands(us, 0));
    while i < updates.len()
        invariant
            i <= updates@.len(),
            us == updates_view(updates@),
            body@ == commands(us, i as nat),
        decreases updates.len() - i,
    {
        assert(us[i as int] == updates@[i as int]@);
        let line = command_line(&updates[i], i == 0);
        push_all(&mut body, &pkt_line_encode(&line));
        i += 1;
    }
    push_all(&mut body, pkt_line_flush());
    push_all(&mut body, &pack);
    Ok(body)
}

} // verus!
