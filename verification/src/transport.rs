//! The push protocol: packet lines, ref advertisements, requests and
//! replies. Sending and receiving is left to the caller.

use vstd::prelude::*;
use vstd::string::StringExecFns;
use vstd::utf8::encode_utf8;

use crate::bytes::{ascii, push_all, text, to_vec, PLUS};
use crate::codec::{base64_encode, base64_text};
use crate::files::IoError;
use crate::notation::{all_hex, decode_hex_nibble, nibble_digit, nibble_value};
use crate::object::ParseError;
use crate::odb::{OdbError, OdbErrorView};
use crate::pack::{PackError, PackErrorView};
use crate::refs::RefError;

pub mod advertisement;
pub mod closure;
pub mod laws;
pub mod pushing;
pub mod reachable;
pub mod replies;
pub mod reply;
pub mod request;
pub mod url;

pub use advertisement::{parse_ref_advertisement, RemoteRef};
pub use reachable::collect_reachable_objects;
pub use reply::{parse_push_result, PushResult};
pub use request::{build_push_body, RefUpdate};
pub use url::parse_ssh_url;


verus! {

/// A user name and a token for HTTP Basic authentication.
#[derive(Debug, Clone)]
pub struct TransportCredentials {
    pub username: String,
    pub token: String,
}

/// Errors of the transport.
#[derive(Debug, Clone, PartialEq, Eq)]
pub enum TransportError {
    /// Reading or writing failed.
    Io(IoError),
    /// The HTTP exchange failed.
    Http(String),
    /// Malformed packet lines.
    PktLine,
    /// The server reported an error.
    Server(String),
    /// The pack could not be made.
    Pack(PackError),
    /// The object database failed.
    Odb(OdbError),
    /// An object cannot be parsed.
    Object(ParseError),
    /// The refs failed.
    Refs(RefError),
    /// The server asks for authentication.
    AuthRequired,
}

/// What a [`TransportError`] of this module says.
pub enum TransportErrorView {
    Io(IoError),
    Http(Seq<char>),
    PktLine,
    Server(Seq<char>),
    Pack(PackErrorView),
    Odb(OdbErrorView),
    Object(crate::object::ParseErrorView),
    Refs(crate::refs::RefErrorView),
    AuthRequired,
}

impl View for TransportError {
    type V = TransportErrorView;

    open spec fn view(&self) -> TransportErrorView {
        match self {
            TransportError::Io(e) => TransportErrorView::Io(*e),
            TransportError::Http(m) => TransportErrorView::Http(m@),
            TransportError::PktLine => TransportErrorView::PktLine,
            TransportError::Server(m) => TransportErrorView::Server(m@),
            TransportError::Pack(e) => TransportErrorView::Pack(e@),
            TransportError::Odb(e) => TransportErrorView::Odb(e@),
            TransportError::Object(e) => TransportErrorView::Object(e@),
            TransportError::Refs(e) => TransportErrorView::Refs(e@),
            TransportError::AuthRequired => TransportErrorView::AuthRequired,
        }
    }
}

/// The error for an HTTP reply with an error status.
pub fn status_error(code: u16, message: &str) -> (r: TransportError)
    ensures
        r@ == if code == 401 {
            TransportErrorView::AuthRequired
        } else {
            TransportErrorView::Http(message@)
        },
{
    if code == 401 {
        TransportError::AuthRequired
    } else {
        TransportError::Http(message.to_owned())
    }
}

// ---------------------------------------------------------------------
// Packet lines
// ---------------------------------------------------------------------

/// `n` in lowercase hexadecimal notation, with at least `width` digits.
pub open spec fn hex_number(n: nat, width: nat) -> Seq<u8>
    decreases n, width,
{
    if n < 16 && width <= 1 {
        seq![nibble_digit(n as int)]
    } else if n < 16 {
        hex_number(0, (width - 1) as nat).push(nibble_digit(n as int))
    } else {
        hex_number(n / 16, if width > 0 { (width - 1) as nat } else { 0 }).push(
            nibble_digit((n % 16) as int),
        )
    }
}

/// A packet: its length with the length field itself in four digits, and
/// the data.
pub open spec fn packet(data: Seq<u8>) -> Seq<u8> {
    hex_number(data.len() + 4, 4) + data
}

/// Appends a number in hexadecimal notation.
fn push_hex(out: &mut Vec<u8>, n: u128, width: u32)
    ensures
        final(out)@ == old(out)@ + hex_number(n as nat, width as nat),
    decreases n, width,
{
    let low: u8 = (n % 16) as u8;
    let digit: u8 = if low < 10 {
        48 + low
    } else {
        87 + low
    };
    if n < 16 {
        if width > 1 {
            push_hex(out, 0, width - 1);
        }
    } else {
        push_hex(out, n / 16, if width > 0 { width - 1 } else { 0 });
    }
    out.push(digit);
    assert(out@ =~= old(out)@ + hex_number(n as nat, width as nat));
}

/// Encodes a packet.
pub fn pkt_line_encode(data: &[u8]) -> (r: Vec<u8>)
    ensures
        r@ == packet(data@),
{
    let mut out: Vec<u8> = Vec::new();
    push_hex(&mut out, data.len() as u128 + 4, 4);
    push_all(&mut out, data);
    assert(out@ =~= packet(data@));
    out
}

/// The packet that ends a list of packets.
pub fn pkt_line_flush() -> (r: &'static [u8])
    ensures
        r@ == ascii("0000"@),
{
    proof {
        reveal_strlit("0000");
    }
    text("0000")
}

/// The number that hexadecimal digits denote.
pub open spec fn hex_value(s: Seq<u8>) -> nat
    decreases s.len(),
{
    if s.len() == 0 {
        0
    } else {
        hex_value(s.drop_last()) * 16 + nibble_value(s.last())->0 as nat
    }
}

/// The length in the four bytes of a length field; a plus sign may stand
/// for its first digit.
pub open spec fn length_field(b: Seq<u8>) -> Option<nat> {
    let body = if b[0] == PLUS {
        b.skip(1)
    } else {
        b
    };
    if all_hex(body) {
        Some(hex_value(body))
    } else {
        None
    }
}

/// Reads the length field at `at`.
pub fn read_length(bytes: &[u8], at: usize) -> (r: Option<usize>)
    requires
        at + 4 <= bytes@.len(),
    ensures
        match r {
            Some(n) => length_field(bytes@.subrange(at as int, at + 4)) == Some(n as nat) && n
                <= 0xffff,
            None => length_field(bytes@.subrange(at as int, at + 4)) is None,
        },
{
    assert(bytes.len() == bytes@.len());
    let ghost b = bytes@.subrange(at as int, at + 4);
    let from: usize = if bytes[at] == PLUS {
        1
    } else {
        0
    };
    let ghost body = b.skip(from as int);
    proof {
        assert(b.skip(0) =~= b);
    }
    let mut n: usize = 0;
    let mut i: usize = from;
    assert(body.take(0) =~= Seq::<u8>::empty());
    while i < 4
        invariant
            from <= i <= 4,
            from <= 1,
            at + 4 <= bytes@.len() <= usize::MAX,
            b == bytes@.subrange(at as int, at + 4),
            body == b.skip(from as int),
            length_field(b) == (if all_hex(body) {
                Some(hex_value(body))
            } else {
                None
            }),
            forall|j: int| 0 <= j < i - from ==> nibble_value(#[trigger] body[j]) is Some,
            n == hex_value(body.take(i - from)),
            i == 0 ==> n == 0,
            i == 1 ==> n <= 0xf,
            i == 2 ==> n <= 0xff,
            i == 3 ==> n <= 0xfff,
            i == 4 ==> n <= 0xffff,
        decreases 4 - i,
    {
        let d: u8 = match decode_hex_nibble(bytes[at + i]) {
            Some(d) => d,
            None => {
                assert(body[i - from] == bytes@[at + i]);
                return None;
            },
        };
        proof {
            let k = i - from;
            assert(body[k] == bytes@[at + i]);
            assert(body.take(k + 1).drop_last() =~= body.take(k));
            assert(body.take(k + 1).last() == body[k]);
        }
        n = n * 16 + d as usize;
        i += 1;
    }
    assert(body.take(4 - from) =~= body);
    Some(n)
}

/// The packets from `at` on, without the flush packets; `None` if they are
/// malformed. Fewer than four bytes at the end are left over.
pub open spec fn packets(bytes: Seq<u8>, at: int) -> Option<Seq<Seq<u8>>>
    decreases bytes.len() - at,
{
    if at + 4 > bytes.len() {
        Some(Seq::empty())
    } else {
        match length_field(bytes.subrange(at, at + 4)) {
            None => None,
            Some(n) => if n == 0 {
                packets(bytes, at + 4)
            } else if n < 4 || at + n > bytes.len() {
                None
            } else {
                match packets(bytes, at + n) {
                    None => None,
                    Some(rest) => Some(seq![bytes.subrange(at + 4, at + n)] + rest),
                }
            },
        }
    }
}

/// The bytes of a list of packets.
pub open spec fn pkts_view(ps: Seq<Vec<u8>>) -> Seq<Seq<u8>> {
    ps.map_values(|p: Vec<u8>| p@)
}

/// Decodes all packets.
pub fn pkt_line_decode_all(bytes: &[u8]) -> (r: Result<Vec<Vec<u8>>, TransportError>)
    ensures
        match r {
            Ok(ps) => packets(bytes@, 0) == Some(pkts_view(ps@)),
            Err(e) => packets(bytes@, 0) is None && e@ == TransportErrorView::PktLine,
        },
{
    let mut out: Vec<Vec<u8>> = Vec::new();
    let mut cursor: usize = 0;
    proof {
        match packets(bytes@, 0) {
            Some(rest) => {
                assert(pkts_view(out@) + rest =~= rest);
            },
            None => {},
        }
    }
    while bytes.len() - cursor >= 4
        invariant
            cursor <= bytes@.len(),
            match packets(bytes@, cursor as int) {
                Some(rest) => packets(bytes@, 0) == Some(pkts_view(out@) + rest),
                None => packets(bytes@, 0) is None,
            },
        decreases bytes.len() - cursor,
    {
        let n: usize = match read_length(bytes, cursor) {
            Some(n) => n,
            None => return Err(TransportError::PktLine),
        };
        if n == 0 {
            cursor += 4;
        } else {
            if n < 4 || n > bytes.len() - cursor {
                return Err(TransportError::PktLine);
            }
            let ghost before = out@;
            let payload = to_vec(&bytes[cursor + 4..cursor + n]);
            let ghost p = payload@;
            out.push(payload);
            proof {
                assert(pkts_view(out@) =~= pkts_view(before).push(p));
                match packets(bytes@, cursor + n) {
                    Some(rest) => {
                        assert(pkts_view(before) + (seq![p] + rest) =~= pkts_view(out@) + rest);
                    },
                    None => {},
                }
            }
            cursor += n;
        }
    }
    assert(pkts_view(out@) + Seq::<Seq<u8>>::empty() =~= pkts_view(out@));
    Ok(out)
}

// ---------------------------------------------------------------------
// Authentication
// ---------------------------------------------------------------------

/// The value of the header for HTTP Basic authentication.
pub fn auth_header(creds: &TransportCredentials) -> (r: String)
    ensures
        r@ == "Basic "@ + base64_text(
            encode_utf8(creds.username@ + ":"@ + creds.token@),
        ),
{
    let mut pair = creds.username.clone();
    pair.append(":");
    pair.append(creds.token.as_str());
    let mut out = "Basic ".to_owned();
    let encoded = base64_encode(pair.as_str().as_bytes());
    out.append(encoded.as_str());
    out
}

} // verus!
