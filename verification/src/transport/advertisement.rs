//! Ref advertisements.

use vstd::prelude::*;
use vstd::utf8::valid_utf8;

use crate::bytes::{ascii, find, has_prefix, text, upto, NUL, SPACE};
use crate::notation::{is_utf8, lossy_string, same_text, text_of};
use crate::object::{id_from_hex, ObjectId};
use crate::refs::{chomp, strip_lf};

use super::{length_field, packets, pkt_line_decode_all, pkts_view, read_length};
use super::{TransportError, TransportErrorView};

verus! {

/// A ref that the remote has.
#[derive(Debug, Clone, PartialEq, Eq)]
pub struct RemoteRef {
    pub name: String,
    pub id: ObjectId,
}

/// The name and the id of a [`RemoteRef`].
pub struct RemoteRefView {
    pub name: Seq<char>,
    pub id: Seq<u8>,
}

impl View for RemoteRef {
    type V = RemoteRefView;

    open spec fn view(&self) -> RemoteRefView {
        RemoteRefView { name: self.name@, id: self.id@ }
    }
}

/// The refs of a list.
pub open spec fn remote_refs_view(rs: Seq<RemoteRef>) -> Seq<RemoteRefView> {
    rs.map_values(|r: RemoteRef| r@)
}

/// The name in a ref line: from behind the id up to the capabilities.
pub open spec fn line_name(line: Seq<u8>) -> Seq<char> {
    text_of(line.skip(41).take(upto(line.skip(41), NUL)))
}

/// Reads the name in a ref line.
fn name_of_line(line: &[u8]) -> (r: String)
    requires
        line@.len() >= 41,
    ensures
        r@ == line_name(line@),
{
    let rest = &line[41..line.len()];
    assert(rest@ =~= line@.skip(41));
    let end: usize = find(rest, NUL);
    assert(rest@.subrange(0, end as int) =~= rest@.take(end as int));
    lossy_string(&rest[0..end])
}

// ---------------------------------------------------------------------
// Over HTTP
// ---------------------------------------------------------------------

/// What a packet of the advertisement says.
pub enum LineView {
    /// Nothing of interest.
    Skip,
    /// There is a ref.
    Found(RemoteRefView),
    /// There should be an id.
    Malformed,
}

/// What a line says that is not the service line.
pub open spec fn advertised(line: Seq<u8>) -> LineView {
    if ascii("version "@).is_prefix_of(line) || line.len() < 41 {
        LineView::Skip
    } else {
        match id_from_hex(line.take(40)) {
            None => LineView::Malformed,
            Some(id) => if line[40] != SPACE {
                LineView::Skip
            } else {
                LineView::Found(RemoteRefView { name: line_name(line), id })
            },
        }
    }
}

/// Whether a line announces the service.
pub open spec fn is_service_line(line: Seq<u8>) -> bool {
    ascii("# service="@).is_prefix_of(line)
}

/// The refs in the packets. Up to the first service line, that line itself
/// is passed over; `announced` says that it has been seen. `None` if there
/// is something else where an id should be.
pub open spec fn advertised_refs(ps: Seq<Seq<u8>>, announced: bool) -> Option<Seq<RemoteRefView>>
    decreases ps.len(),
{
    if ps.len() == 0 {
        Some(Seq::empty())
    } else {
        let line = chomp(ps[0]);
        let rest = ps.skip(1);
        if !announced && is_service_line(line) {
            advertised_refs(rest, true)
        } else {
            match advertised(line) {
                LineView::Skip => advertised_refs(rest, announced),
                LineView::Malformed => None,
                LineView::Found(r) => match advertised_refs(rest, announced) {
                    None => None,
                    Some(rs) => Some(seq![r] + rs),
                },
            }
        }
    }
}

/// The refs in a reply to a request for them.
pub open spec fn advertisement(body: Seq<u8>) -> Option<Seq<RemoteRefView>> {
    match packets(body, 0) {
        None => None,
        Some(ps) => advertised_refs(ps, false),
    }
}

/// Parses a ref advertisement.
pub fn parse_ref_advertisement(body: &[u8]) -> (r: Result<Vec<RemoteRef>, TransportError>)
    ensures
        match r {
            Ok(rs) => advertisement(body@) == Some(remote_refs_view(rs@)),
            Err(e) => advertisement(body@) is None && e@ == TransportErrorView::PktLine,
        },
{
    let pkts = pkt_line_decode_all(body)?;
    let ghost ps = pkts_view(pkts@);
    let mut refs: Vec<RemoteRef> = Vec::new();
    let mut announced = false;
    proof {
        reveal_strlit("# service=");
        reveal_strlit("version ");
        assert(ps.skip(0) =~= ps);
        match advertised_refs(ps, false) {
            Some(rs) => {
                assert(remote_refs_view(refs@) + rs =~= rs);
            },
            None => {},
        }
    }
    let mut i: usize = 0;
    while i < pkts.len()
        invariant
            i <= pkts@.len(),
            ps == pkts_view(pkts@),
            advertisement(body@) == advertised_refs(ps, false),
            match advertised_refs(ps.skip(i as int), announced) {
                Some(rs) => advertised_refs(ps, false) == Some(remote_refs_view(refs@) + rs),
                None => advertised_refs(ps, false) is None,
            },
        decreases pkts.len() - i,
    {
        proof {
            reveal_strlit("# service=");
            reveal_strlit("version ");
            assert(ps.skip(i as int)[0] == pkts@[i as int]@);
            assert(ps.skip(i as int).skip(1) =~= ps.skip(i + 1));
        }
        let line = strip_lf(&pkts[i]);
        if !announced && has_prefix(line, text("# service=")) {
            announced = true;
        } else if has_prefix(line, text("version ")) || line.len() < 41 {
        } else {
            assert(line@.subrange(0, 40) =~= line@.take(40));
            let id: ObjectId = match ObjectId::from_hex_bytes(&line[0..40]) {
                Ok(id) => id,
                Err(_) => return Err(TransportError::PktLine),
            };
            if line[40] == SPACE {
                let ghost before = refs@;
                let name = name_of_line(line);
                let ghost v = RemoteRefView { name: name@, id: id@ };
                refs.push(RemoteRef { name, id });
                proof {
                    assert(remote_refs_view(refs@) =~= remote_refs_view(before).push(v));
                    match advertised_refs(ps.skip(i + 1), announced) {
                        Some(rs) => {
                            assert(remote_refs_view(before) + (seq![v] + rs)
                                =~= remote_refs_view(refs@) + rs);
                        },
                        None => {},
                    }
                }
            }
        }
        i += 1;
    }
    proof {
        assert(ps.skip(i as int).len() == 0);
        assert(remote_refs_view(refs@) + Seq::<RemoteRefView>::empty() =~= remote_refs_view(
            refs@,
        ));
    }
    Ok(refs)
}

// ---------------------------------------------------------------------
// Over SSH
// ---------------------------------------------------------------------

/// What the length field of a packet says.
#[derive(Debug, Clone, Copy, PartialEq, Eq, Structural)]
pub enum PacketStart {
    /// The list of packets ends.
    Flush,
    /// So many bytes of data follow.
    Data(usize),
}

/// What the four bytes of a length field say; `None` if they are malformed.
pub open spec fn packet_start(field: Seq<u8>) -> Option<PacketStart> {
    match length_field(field) {
        None => None,
        Some(n) => if n == 0 {
            Some(PacketStart::Flush)
        } else if n < 4 {
            None
        } else {
            Some(PacketStart::Data((n - 4) as usize))
        },
    }
}

/// Reads the length field of a packet.
pub fn read_packet_start(field: &[u8; 4]) -> (r: Result<PacketStart, TransportError>)
    ensures
        match r {
            Ok(s) => packet_start(field@) == Some(s),
            Err(e) => packet_start(field@) is None && e@ == TransportErrorView::PktLine,
        },
{
    let field: &[u8] = field;
    assert(field@.subrange(0, 4) =~= field@);
    match read_length(field, 0) {
        None => Err(TransportError::PktLine),
        Some(n) => if n == 0 {
            Ok(PacketStart::Flush)
        } else if n < 4 {
            Err(TransportError::PktLine)
        } else {
            Ok(PacketStart::Data(n - 4))
        },
    }
}

/// What a packet says over SSH, where a line that is no ref line is passed
/// over, and so is the entry that stands for an empty repository.
pub open spec fn advertised_ssh(payload: Seq<u8>) -> LineView {
    let line = chomp(payload);
    if line.len() < 41 || line[40] != SPACE {
        LineView::Skip
    } else if !valid_utf8(line.take(40)) {
        LineView::Malformed
    } else {
        match id_from_hex(line.take(40)) {
            None => LineView::Skip,
            Some(id) => if line_name(line) == "capabilities^{}"@ {
                LineView::Skip
            } else {
                LineView::Found(RemoteRefView { name: line_name(line), id })
            },
        }
    }
}

/// Parses a packet of an advertisement over SSH.
pub fn parse_ssh_ref(payload: &[u8]) -> (r: Result<Option<RemoteRef>, TransportError>)
    ensures
        match r {
            Ok(None) => advertised_ssh(payload@) is Skip,
            Ok(Some(x)) => advertised_ssh(payload@) == LineView::Found(x@),
            Err(e) => advertised_ssh(payload@) is Malformed && e@ == TransportErrorView::PktLine,
        },
{
    let line = strip_lf(payload);
    if line.len() < 41 || line[40] != SPACE {
        return Ok(None);
    }
    assert(line@.subrange(0, 40) =~= line@.take(40));
    if !is_utf8(&line[0..40]) {
        return Err(TransportError::PktLine);
    }
    let id: ObjectId = match ObjectId::from_hex_bytes(&line[0..40]) {
        Ok(id) => id,
        Err(_) => return Ok(None),
    };
    let name = name_of_line(line);
    if same_text(name.as_str(), "capabilities^{}") {
        return Ok(None);
    }
    Ok(Some(RemoteRef { name, id }))
}

} // verus!
