//! What the replies of a remote and its URL say.

use vstd::prelude::*;
use vstd::utf8::{encode_utf8, valid_utf8};

use super::advertisement::{
    advertised, advertised_refs, advertised_ssh, advertisement, line_name, packet_start, LineView,
    PacketStart, RemoteRefView,
};
use super::laws::{hex_number_four, law_flush_passed_over, law_packet_round_trip};
use super::reply::{push_report, report, report_line, PushResultView, RefReport, ReportLine};
use super::url::{route_of, ssh_parts, without_slashes, Route, SshUrlView};
use super::{hex_number, packet, packets, TransportErrorView};
use crate::bytes::{ascii, upto_is};
use crate::notation::{ascii_bytes_encode, hex, hex_round_trip, text_of};
use crate::refs::chomp;

verus! {

// ---------------------------------------------------------------------
// Advertisements
// ---------------------------------------------------------------------

/// Whether some bytes can be the name in a ref line.
pub open spec fn plain_name(name: Seq<u8>) -> bool {
    forall|i: int| 0 <= i < name.len() ==> #[trigger] name[i] != 0 && name[i] != 10
}

/// A ref as it is advertised: its id, a space, its name, and perhaps a NUL with
/// capabilities behind it.
pub open spec fn ref_line(id: Seq<u8>, name: Seq<u8>, caps: Option<Seq<u8>>) -> Seq<u8> {
    hex(id) + seq![32u8] + name + match caps {
        Some(c) => seq![0u8] + c,
        None => Seq::empty(),
    }
}

/// The id and the name of a ref line.
proof fn ref_line_read(id: Seq<u8>, name: Seq<u8>, caps: Option<Seq<u8>>)
    requires
        id.len() == 20,
        plain_name(name),
    ensures
        ({
            let l = ref_line(id, name, caps);
            &&& l.len() >= 41
            &&& l[40] == 32
            &&& l[0] != 118
            &&& l[0] != 35
            &&& valid_utf8(l.take(40))
            &&& crate::object::id_from_hex(l.take(40)) == Some(id)
            &&& line_name(l) == text_of(name)
        }),
{
    let l = ref_line(id, name, caps);
    hex_round_trip(id);
    let h = hex(id);
    assert(l.take(40) =~= h);
    ascii_bytes_encode(h);
    assert(l[0] == h[0]);
    assert(crate::notation::nibble_value(h[0]) is Some);
    assert(l[40] == 32);
    let rest = l.skip(41);
    let n = name.len() as int;
    assert forall|j: int| 0 <= j < n implies rest[j] != 0 by {
        assert(rest[j] == name[j]);
    }
    match caps {
        Some(c) => {
            assert(rest[n] == 0);
        },
        None => {
            assert(rest.len() == n);
        },
    }
    upto_is(rest, 0, n);
    assert(rest.take(n) =~= name);
}

/// Law: a ref line tells the ref, over HTTP and over SSH, with or without
/// capabilities. Over SSH the entry of an empty repository is passed over.
pub proof fn law_ref_line(id: Seq<u8>, name: Seq<u8>, caps: Option<Seq<u8>>)
    requires
        id.len() == 20,
        plain_name(name),
        caps matches Some(c) ==> c.len() == 0 || c.last() != 10,
    ensures
        advertised(ref_line(id, name, caps)) == LineView::Found(
            RemoteRefView { name: text_of(name), id },
        ),
        advertised_ssh(ref_line(id, name, caps)) == if text_of(name) == "capabilities^{}"@ {
            LineView::Skip
        } else {
            LineView::Found(RemoteRefView { name: text_of(name), id })
        },
        advertised_ssh(ref_line(id, name, caps).push(10)) == advertised_ssh(
            ref_line(id, name, caps),
        ),
{
    reveal_strlit("version ");
    let l = ref_line(id, name, caps);
    ref_line_read(id, name, caps);
    if ascii("version "@).is_prefix_of(l) {
        assert(l[0] == ascii("version "@)[0]);
    }
    assert(l.last() != 10) by {
        match caps {
            Some(c) => {
                assert(l.last() == if c.len() > 0 {
                    c.last()
                } else {
                    0u8
                });
            },
            None => {
                if name.len() > 0 {
                    assert(l.last() == name[name.len() - 1]);
                } else {
                    assert(l.last() == 32);
                }
            },
        }
    }
    assert(l.push(10).drop_last() =~= l);
}

/// Law: over SSH what is no ref line is passed over.
pub proof fn law_ssh_other_line(l: Seq<u8>)
    requires
        l.len() == 0 || l.last() != 10,
        l.len() < 41 || l[40] != 32,
    ensures
        advertised_ssh(l) is Skip,
        advertised_ssh(l.push(10)) is Skip,
{
    assert(l.push(10).drop_last() =~= l);
}

/// Law: over HTTP a line of fewer than 41 bytes is passed over; in a longer one
/// an id must stand, unless it tells the protocol's version.
pub proof fn law_http_other_line(l: Seq<u8>)
    requires
        l.len() > 0,
        l[0] != 118,
    ensures
        l.len() < 41 ==> advertised(l) is Skip,
        l.len() >= 41 ==> (advertised(l) is Malformed <==> crate::object::id_from_hex(l.take(40))
            is None),
        l.len() >= 41 && advertised(l) is Found ==> l[40] == 32,
{
    reveal_strlit("version ");
    if ascii("version "@).is_prefix_of(l) {
        assert(l[0] == ascii("version "@)[0]);
    }
}

/// The lines of a list of refs, each with a line feed.
pub open spec fn ref_lines(ids: Seq<Seq<u8>>, names: Seq<Seq<u8>>) -> Seq<Seq<u8>> {
    Seq::new(ids.len(), |i: int| ref_line(ids[i], names[i], None).push(10))
}

/// The refs of a list.
pub open spec fn refs_told(ids: Seq<Seq<u8>>, names: Seq<Seq<u8>>) -> Seq<RemoteRefView> {
    Seq::new(ids.len(), |i: int| RemoteRefView { name: text_of(names[i]), id: ids[i] })
}

/// Whether each id and each name can stand in a ref line.
pub open spec fn tellable(ids: Seq<Seq<u8>>, names: Seq<Seq<u8>>) -> bool {
    &&& ids.len() == names.len()
    &&& forall|i: int|
        0 <= i < ids.len() ==> (#[trigger] ids[i]).len() == 20 && plain_name(names[i])
}

/// Law: the packets of a list of refs tell just these refs, in order, whether
/// or not a service line stands before them.
pub proof fn law_advertised_refs(
    service: Seq<u8>,
    ids: Seq<Seq<u8>>,
    names: Seq<Seq<u8>>,
    announced: bool,
)
    requires
        tellable(ids, names),
        service.len() == 0 || service.last() != 10,
    ensures
        advertised_refs(ref_lines(ids, names), announced) == Some(refs_told(ids, names)),
        advertised_refs(
            seq![(ascii("# service="@) + service).push(10)] + ref_lines(ids, names),
            false,
        ) == Some(refs_told(ids, names)),
    decreases ids.len(), 1nat,
{
    reveal_strlit("# service=");
    refs_tell(ids, names, announced);
    refs_tell(ids, names, true);
    let m = ascii("# service="@);
    let first = (m + service).push(10);
    let ps = seq![first] + ref_lines(ids, names);
    assert(ps.skip(1) =~= ref_lines(ids, names));
    assert(first.drop_last() =~= m + service);
    assert(m =~= (m + service).take(10));
    assert(chomp(ps[0]) == m + service);
}

/// The packets of a list of refs tell just these refs.
proof fn refs_tell(ids: Seq<Seq<u8>>, names: Seq<Seq<u8>>, announced: bool)
    requires
        tellable(ids, names),
    ensures
        advertised_refs(ref_lines(ids, names), announced) == Some(refs_told(ids, names)),
    decreases ids.len(), 0nat,
{
    reveal_strlit("# service=");
    let ps = ref_lines(ids, names);
    if ids.len() == 0 {
        assert(refs_told(ids, names) =~= Seq::<RemoteRefView>::empty());
    } else {
        let (a, b) = (ids.skip(1), names.skip(1));
        assert(tellable(a, b)) by {
            assert forall|i: int| 0 <= i < a.len() implies (#[trigger] a[i]).len() == 20
                && plain_name(b[i]) by {
                assert(a[i] == ids[i + 1]);
            }
        }
        refs_tell(a, b, announced);
        assert(ids[0].len() == 20);
        let l = ref_line(ids[0], names[0], None);
        assert(ps[0] == l.push(10));
        assert(l.push(10).drop_last() =~= l);
        assert(chomp(ps[0]) == l);
        law_ref_line(ids[0], names[0], None);
        ref_line_read(ids[0], names[0], None);
        assert(ascii("# service="@)[0] == 35);
        assert(ps.skip(1) =~= ref_lines(a, b));
        assert(refs_told(ids, names) =~= seq![
            RemoteRefView { name: text_of(names[0]), id: ids[0] },
        ] + refs_told(a, b));
    }
}

/// Some packets one after the other.
pub open spec fn packed_lines(ps: Seq<Seq<u8>>) -> Seq<u8>
    decreases ps.len(),
{
    if ps.len() == 0 {
        Seq::empty()
    } else {
        packet(ps[0]) + packed_lines(ps.skip(1))
    }
}

/// The packets of a body.
proof fn lines_unpacked(ps: Seq<Seq<u8>>, rest: Seq<u8>)
    requires
        forall|i: int| 0 <= i < ps.len() ==> (#[trigger] ps[i]).len() + 4 <= 0xffff,
    ensures
        packets(packed_lines(ps) + rest, 0) == (match packets(rest, 0) {
            None => None::<Seq<Seq<u8>>>,
            Some(qs) => Some(ps + qs),
        }),
    decreases ps.len(),
{
    if ps.len() == 0 {
        assert(packed_lines(ps) + rest =~= rest);
        if let Some(qs) = packets(rest, 0) {
            assert(ps + qs =~= qs);
        }
    } else {
        let t = ps.skip(1);
        assert forall|i: int| 0 <= i < t.len() implies (#[trigger] t[i]).len() + 4 <= 0xffff by {
            assert(t[i] == ps[i + 1]);
        }
        lines_unpacked(t, rest);
        assert(ps[0].len() + 4 <= 0xffff);
        law_packet_round_trip(ps[0], packed_lines(t) + rest);
        assert(packed_lines(ps) + rest =~= packet(ps[0]) + (packed_lines(t) + rest));
        if let Some(qs) = packets(rest, 0) {
            assert(seq![ps[0]] + (t + qs) =~= ps + qs);
        }
    }
}

/// Law: the body of a reply with a service line, a flush packet, the lines of
/// a list of refs and a flush packet tells just these refs, in order.
pub proof fn law_advertisement(service: Seq<u8>, ids: Seq<Seq<u8>>, names: Seq<Seq<u8>>)
    requires
        tellable(ids, names),
        service.len() == 0 || service.last() != 10,
        service.len() < 60000,
        forall|i: int| 0 <= i < names.len() ==> (#[trigger] names[i]).len() < 60000,
    ensures
        advertisement(
            packet((ascii("# service="@) + service).push(10)) + ascii("0000"@) + packed_lines(
                ref_lines(ids, names),
            ) + ascii("0000"@),
        ) == Some(refs_told(ids, names)),
{
    reveal_strlit("# service=");
    reveal_strlit("0000");
    let first = (ascii("# service="@) + service).push(10);
    let ls = ref_lines(ids, names);
    let flush = ascii("0000"@);
    let e = Seq::<u8>::empty();
    assert forall|i: int| 0 <= i < ls.len() implies (#[trigger] ls[i]).len() + 4 <= 0xffff by {
        assert(ids[i].len() == 20);
        assert(names[i].len() < 60000);
        hex_round_trip(ids[i]);
    }
    law_flush_passed_over(e);
    assert(flush + e =~= flush);
    assert(packets(e, 0) == Some(Seq::<Seq<u8>>::empty()));
    lines_unpacked(ls, flush);
    assert(ls + Seq::<Seq<u8>>::empty() =~= ls);
    let tail = packed_lines(ls) + flush;
    law_flush_passed_over(tail);
    law_packet_round_trip(first, flush + tail);
    assert(packet(first) + flush + packed_lines(ls) + flush =~= packet(first) + (flush + tail));
    law_advertised_refs(service, ids, names, false);
}

/// Law: the length field of a packet tells how much data follows; four zeros
/// are a flush packet, and lengths below four are malformed.
pub proof fn law_packet_start(n: nat)
    requires
        n <= 0xffff,
    ensures
        n == 0 ==> packet_start(hex_number(n, 4)) == Some(PacketStart::Flush),
        0 < n < 4 ==> packet_start(hex_number(n, 4)) is None,
        n >= 4 ==> packet_start(hex_number(n, 4)) == Some(PacketStart::Data((n - 4) as usize)),
{
    hex_number_four(n);
}

// ---------------------------------------------------------------------
// Push reports
// ---------------------------------------------------------------------

/// Law: the lines of a push report: that the objects were unpacked, or why
/// not; that a ref was updated; and that one was not, and why.
pub proof fn law_report_lines(x: Seq<u8>, reason: Seq<u8>)
    requires
        x.len() == 0 || x.last() != 10,
        reason.len() == 0 || reason.last() != 10,
    ensures
        report_line(ascii("unpack ok"@)) is Unpacked,
        report_line(ascii("unpack ok\n"@)) is Unpacked,
        valid_utf8(ascii("unpack "@) + x) && x != ascii("ok"@) ==> report_line(
            ascii("unpack "@) + x,
        ) == ReportLine::Refused(text_of(x)),
        valid_utf8(ascii("ok "@) + x) ==> report_line(ascii("ok "@) + x) == ReportLine::OfRef(
            RefReport { name: text_of(x), refused: None },
        ),
        valid_utf8(ascii("ng "@) + x + seq![32u8] + reason) && !x.contains(32u8) ==> report_line(
            ascii("ng "@) + x + seq![32u8] + reason,
        ) == ReportLine::OfRef(RefReport { name: text_of(x), refused: Some(text_of(reason)) }),
{
    reveal_strlit("unpack ok");
    reveal_strlit("unpack ok\n");
    reveal_strlit("unpack ");
    reveal_strlit("ok");
    reveal_strlit("ok ");
    reveal_strlit("ng ");
    let u = ascii("unpack "@);
    let whole = ascii("unpack ok"@);
    assert(whole.skip(7) =~= ascii("ok"@));
    assert(u =~= whole.take(7));
    ascii_bytes_encode(whole);
    assert(ascii("unpack ok\n"@).drop_last() =~= whole);
    let a = u + x;
    assert(a.skip(7) =~= x);
    assert(u =~= a.take(7));
    assert(chomp(a) == a) by {
        assert(a.last() == if x.len() > 0 {
            x.last()
        } else {
            32u8
        });
    }
    let o = ascii("ok "@);
    let b = o + x;
    assert(b.skip(3) =~= x);
    assert(o =~= b.take(3));
    assert(chomp(b) == b) by {
        assert(b.last() == if x.len() > 0 {
            x.last()
        } else {
            32u8
        });
    }
    if u.is_prefix_of(b) {
        assert(b[0] == u[0]);
    }
    let g = ascii("ng "@);
    let c = g + x + seq![32u8] + reason;
    assert(g =~= c.take(3));
    assert(chomp(c) == c) by {
        assert(c.last() == if reason.len() > 0 {
            reason.last()
        } else {
            32u8
        });
    }
    if u.is_prefix_of(c) {
        assert(c[0] == u[0]);
    }
    if o.is_prefix_of(c) {
        assert(c[0] == o[0]);
    }
    if !x.contains(32u8) {
        let rest = c.skip(3);
        let k = x.len() as int;
        assert forall|j: int| 0 <= j < k implies rest[j] != 32 by {
            assert(rest[j] == x[j]);
            assert(x.contains(x[j]));
        }
        assert(rest[k] == 32);
        upto_is(rest, 32, k);
        assert(rest.take(k) =~= x);
        assert(rest.skip(k + 1) =~= reason);
    }
}

/// A report looks at the packets before its number only.
proof fn report_front(a: Seq<Seq<u8>>, b: Seq<Seq<u8>>, n: nat)
    requires
        n <= a.len(),
    ensures
        report(a + b, n) == report(a, n),
    decreases n,
{
    if n > 0 {
        report_front(a, b, (n - 1) as nat);
        assert((a + b)[n - 1] == a[n - 1]);
    }
}

/// Law: a report gathers what its packets say, one after the other: the first
/// refusal ends it, and each ref's outcome is kept.
pub proof fn law_report(ps: Seq<Seq<u8>>, p: Seq<u8>)
    ensures
        report(Seq::empty(), 0) == Ok::<_, Seq<char>>(
            PushResultView { unpack_ok: false, per_ref: Seq::empty() },
        ),
        report(ps, ps.len()) is Err ==> report(ps.push(p), ps.len() + 1) == report(ps, ps.len()),
        report(ps, ps.len()) matches Ok(v) ==> report(ps.push(p), ps.len() + 1) == match report_line(
            p,
        ) {
            ReportLine::Skip => Ok::<_, Seq<char>>(v),
            ReportLine::Unpacked => Ok(PushResultView { unpack_ok: true, per_ref: v.per_ref }),
            ReportLine::Refused(reason) => Err(reason),
            ReportLine::OfRef(r) => Ok(
                PushResultView { unpack_ok: v.unpack_ok, per_ref: v.per_ref.push(r) },
            ),
        },
{
    report_front(ps, seq![p], ps.len());
    assert(ps + seq![p] =~= ps.push(p));
    assert(ps.push(p)[ps.len() as int] == p);
}

/// Law: the body of a reply reports what its packets do.
pub proof fn law_push_report(ps: Seq<Seq<u8>>)
    requires
        forall|i: int| 0 <= i < ps.len() ==> (#[trigger] ps[i]).len() + 4 <= 0xffff,
    ensures
        push_report(packed_lines(ps) + ascii("0000"@)) == match report(ps, ps.len()) {
            Ok(v) => Ok::<_, TransportErrorView>(v),
            Err(reason) => Err(TransportErrorView::Server("unpack failed: "@ + reason)),
        },
{
    let e = Seq::<u8>::empty();
    let flush = ascii("0000"@);
    law_flush_passed_over(e);
    assert(flush + e =~= flush);
    assert(packets(e, 0) == Some(Seq::<Seq<u8>>::empty()));
    lines_unpacked(ps, flush);
    assert(ps + Seq::<Seq<u8>>::empty() =~= ps);
}

// ---------------------------------------------------------------------
// URLs
// ---------------------------------------------------------------------

/// Law: slashes at the end of a URL make no difference.
pub proof fn law_without_slashes(s: Seq<u8>)
    ensures
        without_slashes(s.push(47)) == without_slashes(s),
        s.len() == 0 || s.last() != 47 ==> without_slashes(s) == s,
{
    assert(s.push(47).drop_last() =~= s);
}

/// Law: a remote is reached over SSH if its URL begins with `git@` or
/// `ssh://`, over HTTP if it begins with `http://` or `https://` and there are
/// credentials, and otherwise not at all.
pub proof fn law_route(url: Seq<char>, has_credentials: bool)
    ensures
        ({
            let b = encode_utf8(url);
            let ssh = seq![103u8, 105u8, 116u8, 64u8].is_prefix_of(b) || seq![
                115u8,
                115u8,
                104u8,
                58u8,
                47u8,
                47u8,
            ].is_prefix_of(b);
            let http = seq![104u8, 116u8, 116u8, 112u8, 58u8, 47u8, 47u8].is_prefix_of(b) || seq![
                104u8,
                116u8,
                116u8,
                112u8,
                115u8,
                58u8,
                47u8,
                47u8,
            ].is_prefix_of(b);
            &&& route_of(url, has_credentials) == Ok::<_, TransportErrorView>(Route::Ssh) <==> ssh
            &&& route_of(url, has_credentials) == Ok::<_, TransportErrorView>(Route::Http) <==> !ssh
                && http && has_credentials
            &&& route_of(url, has_credentials) == Err::<Route, _>(TransportErrorView::AuthRequired)
                <==> !ssh && http && !has_credentials
        }),
{
    reveal_strlit("git@");
    reveal_strlit("ssh://");
    reveal_strlit("http://");
    reveal_strlit("https://");
    assert(ascii("git@"@) =~= seq![103u8, 105u8, 116u8, 64u8]);
    assert(ascii("ssh://"@) =~= seq![115u8, 115u8, 104u8, 58u8, 47u8, 47u8]);
    assert(ascii("http://"@) =~= seq![104u8, 116u8, 116u8, 112u8, 58u8, 47u8, 47u8]);
    assert(ascii("https://"@) =~= seq![104u8, 116u8, 116u8, 112u8, 115u8, 58u8, 47u8, 47u8]);
}

/// Whether some bytes hold none of `/`, `@` and `:`.
pub open spec fn plain_part(s: Seq<u8>) -> bool {
    forall|i: int|
        0 <= i < s.len() ==> #[trigger] s[i] != 47 && s[i] != 64 && s[i] != 58
}

/// Law: the parts of a URL `ssh://user@host:port/path`, where user and port
/// may be absent: the user, which is `git` if there is none, the host without
/// the port, and the path with its slash.
pub proof fn law_ssh_url(
    url: Seq<char>,
    user: Option<Seq<u8>>,
    host: Seq<u8>,
    port: Option<Seq<u8>>,
    path: Seq<u8>,
)
    requires
        user matches Some(u) ==> plain_part(u),
        plain_part(host),
        port matches Some(p) ==> plain_part(p),
        path.len() > 0,
        path[0] == 47,
        encode_utf8(url) == seq![115u8, 115u8, 104u8, 58u8, 47u8, 47u8] + (match user {
            Some(u) => u + seq![64u8],
            None => Seq::<u8>::empty(),
        }) + host + (match port {
            Some(p) => seq![58u8] + p,
            None => Seq::<u8>::empty(),
        }) + path,
    ensures
        ssh_parts(url) == Ok::<_, TransportErrorView>(
            SshUrlView {
                user: match user {
                    Some(u) => text_of(u),
                    None => seq!['g', 'i', 't'],
                },
                host: text_of(host),
                path: text_of(path),
            },
        ),
{
    reveal_strlit("ssh://");
    reveal_strlit("git");
    assert("git"@ =~= seq!['g', 'i', 't']);
    let b = encode_utf8(url);
    let m = seq![115u8, 115u8, 104u8, 58u8, 47u8, 47u8];
    assert(ascii("ssh://"@) =~= m);
    assert(m =~= b.take(6));
    let front = match user {
        Some(u) => u + seq![64u8],
        None => Seq::<u8>::empty(),
    };
    let back = match port {
        Some(p) => seq![58u8] + p,
        None => Seq::<u8>::empty(),
    };
    let tail = host + back;
    let place = front + tail;
    let rest = b.skip(6);
    assert(rest =~= place + path);
    assert forall|j: int| 0 <= j < tail.len() implies tail[j] != 47 && tail[j] != 64 by {
        if j < host.len() {
            assert(tail[j] == host[j]);
        } else if j > host.len() {
            assert(tail[j] == port->0[j - host.len() - 1]);
        }
    }
    assert forall|j: int| 0 <= j < place.len() implies place[j] != 47 && (place[j] == 64 ==> user
        is Some && j == user->0.len()) by {
        if j < front.len() {
            assert(place[j] == front[j]);
            if j < user->0.len() {
                assert(front[j] == user->0[j]);
            }
        } else {
            assert(place[j] == tail[j - front.len()]);
        }
    }
    let n = place.len() as int;
    assert forall|j: int| 0 <= j < n implies rest[j] != 47 by {
        assert(rest[j] == place[j]);
    }
    assert(rest[n] == path[0]);
    upto_is(rest, 47, n);
    assert(rest.take(n) =~= place);
    assert(rest.skip(n) =~= path);
    match user {
        Some(u) => {
            let k = u.len() as int;
            assert(place[k] == 64);
            upto_is(place, 64, k);
            assert(place.take(k) =~= u);
            assert(place.skip(k + 1) =~= tail);
        },
        None => {
            upto_is(place, 64, n);
            assert(place =~= tail);
        },
    }
    let h = host.len() as int;
    assert forall|j: int| 0 <= j < h implies tail[j] != 58 by {
        assert(tail[j] == host[j]);
    }
    match port {
        Some(p) => {
            assert(tail[h] == 58);
        },
        None => {
            assert(tail.len() == h);
        },
    }
    upto_is(tail, 58, h);
    assert(tail.take(h) =~= host);
}

/// Law: the parts of `user@host:path`, where the path is taken as it is.
pub proof fn law_scp_url(url: Seq<char>, user: Seq<u8>, host: Seq<u8>, path: Seq<u8>)
    requires
        plain_part(user),
        plain_part(host),
        encode_utf8(url) == user + seq![64u8] + host + seq![58u8] + path,
    ensures
        ssh_parts(url) == Ok::<_, TransportErrorView>(
            SshUrlView { user: text_of(user), host: text_of(host), path: text_of(path) },
        ),
{
    reveal_strlit("ssh://");
    let b = encode_utf8(url);
    let u = user.len() as int;
    let colon = u + 1 + host.len();
    assert(b[u] == 64);
    assert(b[colon] == 58);
    assert forall|j: int| 0 <= j < colon implies b[j] != 58 && b[j] != 47 by {
        if j < u {
            assert(b[j] == user[j]);
        } else if j > u {
            assert(b[j] == host[j - u - 1]);
        }
    }
    if ascii("ssh://"@).is_prefix_of(b) {
        let m = ascii("ssh://"@);
        assert(m =~= b.take(6));
        assert(m[0] == 115 && m[1] == 115 && m[2] == 104 && m[3] == 58);
        assert(b.take(6)[0] == b[0] && b.take(6)[1] == b[1] && b.take(6)[2] == b[2]);
        assert(b.take(6)[3] == b[3]);
        assert(colon <= 3);
        assert(b[u] == 115 || b[u] == 104 || b[u] == 58);
    }
    upto_is(b, 58, colon);
    let place = b.take(colon);
    assert forall|j: int| 0 <= j < u implies place[j] != 64 by {
        assert(place[j] == user[j]);
    }
    assert(place[u] == 64);
    upto_is(place, 64, u);
    assert(place.take(u) =~= user);
    assert(place.skip(u + 1) =~= host);
    assert(b.skip(colon + 1) =~= path);
}

} // verus!
