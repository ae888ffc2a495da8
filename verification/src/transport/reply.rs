//! The remote's report on a push.

use vstd::prelude::*;
use vstd::utf8::valid_utf8;

use crate::bytes::{ascii, find, has_prefix, same_bytes, text, upto, SPACE};
use crate::notation::{is_utf8, lossy_string, text_of};
use crate::refs::{chomp, strip_lf};

use super::{packets, pkt_line_decode_all, pkts_view, TransportError, TransportErrorView};

verus! {

/// What the remote did.
#[derive(Debug)]
pub struct PushResult {
    /// Whether it unpacked the objects.
    pub unpack_ok: bool,
    /// For each ref it reports on, that it was updated or why not.
    pub per_ref: Vec<(String, Result<(), String>)>,
}

/// The name of a ref, and why it was not updated.
pub struct RefReport {
    pub name: Seq<char>,
    pub refused: Option<Seq<char>>,
}

/// The contents of a [`PushResult`].
pub struct PushResultView {
    pub unpack_ok: bool,
    pub per_ref: Seq<RefReport>,
}

/// The report on one ref.
pub open spec fn report_view(p: (String, Result<(), String>)) -> RefReport {
    RefReport {
        name: p.0@,
        refused: match p.1 {
            Ok(_) => None,
            Err(reason) => Some(reason@),
        },
    }
}

/// The reports of a list.
pub open spec fn reports_view(ps: Seq<(String, Result<(), String>)>) -> Seq<RefReport> {
    ps.map_values(|p: (String, Result<(), String>)| report_view(p))
}

impl View for PushResult {
    type V = PushResultView;

    open spec fn view(&self) -> PushResultView {
        PushResultView { unpack_ok: self.unpack_ok, per_ref: reports_view(self.per_ref@) }
    }
}

/// What a line of the report says.
pub enum ReportLine {
    /// Nothing of interest.
    Skip,
    /// The objects were unpacked.
    Unpacked,
    /// They were not.
    Refused(Seq<char>),
    /// What became of a ref.
    OfRef(RefReport),
}

/// What a packet of the report says.
pub open spec fn report_line(payload: Seq<u8>) -> ReportLine {
    let line = chomp(payload);
    if !valid_utf8(line) {
        ReportLine::Skip
    } else if ascii("unpack "@).is_prefix_of(line) {
        if line.skip(7) == ascii("ok"@) {
            ReportLine::Unpacked
        } else {
            ReportLine::Refused(text_of(line.skip(7)))
        }
    } else if ascii("ok "@).is_prefix_of(line) {
        ReportLine::OfRef(RefReport { name: text_of(line.skip(3)), refused: None })
    } else if ascii("ng "@).is_prefix_of(line) {
        let rest = line.skip(3);
        let k = upto(rest, SPACE);
        ReportLine::OfRef(
            RefReport {
                name: text_of(rest.take(k)),
                refused: Some(
                    if k < rest.len() {
                        text_of(rest.skip(k + 1))
                    } else {
                        Seq::empty()
                    },
                ),
            },
        )
    } else {
        ReportLine::Skip
    }
}

/// What the first `n` packets report; the error is why the objects were
/// not unpacked.
pub open spec fn report(ps: Seq<Seq<u8>>, n: nat) -> Result<PushResultView, Seq<char>>
    decreases n,
{
    if n == 0 {
        Ok(PushResultView { unpack_ok: false, per_ref: Seq::empty() })
    } else {
        match report(ps, (n - 1) as nat) {
            Err(reason) => Err(reason),
            Ok(v) => match report_line(ps[n - 1]) {
                ReportLine::Skip => Ok(v),
                ReportLine::Unpacked => Ok(PushResultView { unpack_ok: true, ..v }),
                ReportLine::Refused(reason) => Err(reason),
                ReportLine::OfRef(r) => Ok(PushResultView { per_ref: v.per_ref.push(r), ..v }),
            },
        }
    }
}

/// What the body of a reply reports.
pub open spec fn push_report(body: Seq<u8>) -> Result<PushResultView, TransportErrorView> {
    match packets(body, 0) {
        None => Err(TransportErrorView::PktLine),
        Some(ps) => match report(ps, ps.len()) {
            Ok(v) => Ok(v),
            Err(reason) => Err(TransportErrorView::Server("unpack failed: "@ + reason)),
        },
    }
}

/// An error early in the list is the error of the list.
proof fn report_error(ps: Seq<Seq<u8>>, k: nat, n: nat)
    requires
        k <= n,
        report(ps, k) is Err,
    ensures
        report(ps, n) == report(ps, k),
    decreases n,
{
    if k < n {
        report_error(ps, k, (n - 1) as nat);
    }
}

/// The text from `at` on.
fn text_from(line: &[u8], at: usize) -> (r: String)
    requires
        at <= line@.len(),
    ensures
        r@ == text_of(line@.skip(at as int)),
{
    assert(line@.subrange(at as int, line@.len() as int) =~= line@.skip(at as int));
    lossy_string(&line[at..line.len()])
}

/// Parses a refusal of a ref.
fn parse_refusal(rest: &[u8]) -> (r: (String, Result<(), String>))
    ensures
        report_view(r) == (RefReport {
            name: text_of(rest@.take(upto(rest@, SPACE))),
            refused: Some(
                if upto(rest@, SPACE) < rest@.len() {
                    text_of(rest@.skip(upto(rest@, SPACE) + 1))
                } else {
                    Seq::empty()
                },
            ),
        }),
{
    let k: usize = find(rest, SPACE);
    assert(rest@.subrange(0, k as int) =~= rest@.take(k as int));
    let name = lossy_string(&rest[0..k]);
    let reason = if k < rest.len() {
        text_from(rest, k + 1)
    } else {
        "".to_owned()
    };
    proof {
        reveal_strlit("");
        assert(""@ =~= Seq::<char>::empty());
    }
    (name, Err(reason))
}

/// Parses the remote's report on a push.
pub fn parse_push_result(body: &[u8]) -> (r: Result<PushResult, TransportError>)
    ensures
        match r {
            Ok(p) => push_report(body@) == Ok::<_, TransportErrorView>(p@),
            Err(e) => push_report(body@) == Err::<PushResultView, _>(e@),
        },
{
    let pkts = match pkt_line_decode_all(body) {
        Ok(pkts) => pkts,
        Err(e) => return Err(e),
    };
    let ghost ps = pkts_view(pkts@);
    let mut unpack_ok = false;
    let mut per_ref: Vec<(String, Result<(), String>)> = Vec::new();
    assert(reports_view(per_ref@) =~= Seq::<RefReport>::empty());
    let mut i: usize = 0;
    while i < pkts.len()
        invariant
            i <= pkts@.len(),
            ps == pkts_view(pkts@),
            packets(body@, 0) == Some(ps),
            report(ps, i as nat) == Ok::<_, Seq<char>>(
                (PushResultView { unpack_ok, per_ref: reports_view(per_ref@) }),
            ),
        decreases pkts.len() - i,
    {
        proof {
            reveal_strlit("unpack ");
            reveal_strlit("ok");
            reveal_strlit("ok ");
            reveal_strlit("ng ");
            assert(ps[i as int] == pkts@[i as int]@);
        }
        let ghost before = per_ref@;
        let line = strip_lf(&pkts[i]);
        if is_utf8(line) {
            if has_prefix(line, text("unpack ")) {
                assert(line@.subrange(7, line@.len() as int) =~= line@.skip(7));
                unpack_ok = same_bytes(&line[7..line.len()], text("ok"));
                if !unpack_ok {
                    let reason = text_from(line, 7);
                    let mut message = "unpack failed: ".to_owned();
                    message.append(reason.as_str());
                    proof {
                        report_error(ps, (i + 1) as nat, ps.len());
                    }
                    return Err(TransportError::Server(message));
                }
            } else if has_prefix(line, text("ok ")) {
                let name = text_from(line, 3);
                per_ref.push((name, Ok(())));
                assert(reports_view(per_ref@) =~= reports_view(before).push(
                    report_view(per_ref@.last()),
                ));
            } else if has_prefix(line, text("ng ")) {
                assert(line@.subrange(3, line@.len() as int) =~= line@.skip(3));
                let refusal = parse_refusal(&line[3..line.len()]);
                per_ref.push(refusal);
                assert(reports_view(per_ref@) =~= reports_view(before).push(
                    report_view(per_ref@.last()),
                ));
            }
        }
        i += 1;
    }
    Ok(PushResult { unpack_ok, per_ref })
}

} // verus!
