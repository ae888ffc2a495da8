//! Remote URLs.

use vstd::prelude::*;
use vstd::string::StringExecFns;
use vstd::utf8::encode_utf8;

use crate::bytes::{ascii, find, has_prefix, text, upto, COLON, SLASH};
use crate::notation::{lossy_string, text_of};

use super::{TransportError, TransportErrorView};

verus! {

/// The bytes without the slashes at the end.
pub open spec fn without_slashes(s: Seq<u8>) -> Seq<u8>
    decreases s.len(),
{
    if s.len() > 0 && s.last() == SLASH {
        without_slashes(s.drop_last())
    } else {
        s
    }
}

/// A remote's URL with something behind it.
fn below(url: &str, path: &str) -> (r: String)
    ensures
        r@ == text_of(without_slashes(encode_utf8(url@))) + path@,
{
    let b = url.as_bytes();
    let mut n: usize = b.len();
    assert(b@.take(n as int) =~= b@);
    while n > 0 && b[n - 1] == SLASH
        invariant
            n <= b@.len(),
            without_slashes(b@.take(n as int)) == without_slashes(b@),
        decreases n,
    {
        assert(b@.take(n as int).drop_last() =~= b@.take(n - 1));
        n -= 1;
    }
    assert(b@.subrange(0, n as int) =~= b@.take(n as int));
    let mut out = lossy_string(&b[0..n]);
    out.append(path);
    out
}

/// Where the refs of a remote can be asked for.
pub fn refs_url(url: &str) -> (r: String)
    ensures
        r@ == text_of(without_slashes(encode_utf8(url@)))
            + "/info/refs?service=git-receive-pack"@,
{
    below(url, "/info/refs?service=git-receive-pack")
}

/// Where a push is sent.
pub fn push_url(url: &str) -> (r: String)
    ensures
        r@ == text_of(without_slashes(encode_utf8(url@))) + "/git-receive-pack"@,
{
    below(url, "/git-receive-pack")
}

/// How to reach a remote.
#[derive(Debug, Clone, Copy, PartialEq, Eq, Structural)]
pub enum Route {
    Ssh,
    Http,
}

/// The way to reach a remote, by the start of its URL. HTTP needs
/// credentials.
pub open spec fn route_of(url: Seq<char>, has_credentials: bool) -> Result<
    Route,
    TransportErrorView,
> {
    let b = encode_utf8(url);
    if ascii("git@"@).is_prefix_of(b) || ascii("ssh://"@).is_prefix_of(b) {
        Ok(Route::Ssh)
    } else if ascii("http://"@).is_prefix_of(b) || ascii("https://"@).is_prefix_of(b) {
        if has_credentials {
            Ok(Route::Http)
        } else {
            Err(TransportErrorView::AuthRequired)
        }
    } else {
        Err(TransportErrorView::Http("unsupported url scheme: "@ + url))
    }
}

/// Decides how to reach a remote.
pub fn choose_route(url: &str, has_credentials: bool) -> (r: Result<Route, TransportError>)
    ensures
        match r {
            Ok(w) => route_of(url@, has_credentials) == Ok::<_, TransportErrorView>(w),
            Err(e) => route_of(url@, has_credentials) == Err::<Route, _>(e@),
        },
{
    proof {
        reveal_strlit("git@");
        reveal_strlit("ssh://");
        reveal_strlit("http://");
        reveal_strlit("https://");
    }
    let b = url.as_bytes();
    if has_prefix(b, text("git@")) || has_prefix(b, text("ssh://")) {
        Ok(Route::Ssh)
    } else if has_prefix(b, text("http://")) || has_prefix(b, text("https://")) {
        if has_credentials {
            Ok(Route::Http)
        } else {
            Err(TransportError::AuthRequired)
        }
    } else {
        Err(TransportError::Http(message("unsupported url scheme: ", url)))
    }
}

/// A message about a URL.
fn message(what: &str, url: &str) -> (r: String)
    ensures
        r@ == what@ + url@,
{
    let mut out = what.to_owned();
    out.append(url);
    out
}

/// Where an SSH remote is.
#[derive(Debug)]
pub struct SshUrl {
    pub user: String,
    pub host: String,
    pub path: String,
}

/// The parts of an [`SshUrl`].
pub struct SshUrlView {
    pub user: Seq<char>,
    pub host: Seq<char>,
    pub path: Seq<char>,
}

impl View for SshUrl {
    type V = SshUrlView;

    open spec fn view(&self) -> SshUrlView {
        SshUrlView { user: self.user@, host: self.host@, path: self.path@ }
    }
}

/// `@`
pub const AT: u8 = 64;

/// The parts of an SSH URL: `ssh://[user@]host[:port]/path`, or
/// `user@host:path`. Without a user it is `git`.
pub open spec fn ssh_parts(url: Seq<char>) -> Result<SshUrlView, TransportErrorView> {
    let b = encode_utf8(url);
    if ascii("ssh://"@).is_prefix_of(b) {
        let rest = b.skip(6);
        let slash = upto(rest, SLASH);
        if slash == rest.len() {
            Err(TransportErrorView::Http("ssh url missing path: "@ + url))
        } else {
            let place = rest.take(slash);
            let at = upto(place, AT);
            let host = if at < place.len() {
                place.skip(at + 1)
            } else {
                place
            };
            Ok(
                SshUrlView {
                    user: if at < place.len() {
                        text_of(place.take(at))
                    } else {
                        "git"@
                    },
                    host: text_of(host.take(upto(host, COLON))),
                    path: text_of(rest.skip(slash)),
                },
            )
        }
    } else {
        let colon = upto(b, COLON);
        let place = b.take(colon);
        let at = upto(place, AT);
        if colon < b.len() && at < colon {
            Ok(
                SshUrlView {
                    user: text_of(place.take(at)),
                    host: text_of(place.skip(at + 1)),
                    path: text_of(b.skip(colon + 1)),
                },
            )
        } else {
            Err(TransportErrorView::Http("unrecognized ssh url: "@ + url))
        }
    }
}

/// Parses an SSH URL.
pub fn parse_ssh_url(url: &str) -> (r: Result<SshUrl, TransportError>)
    ensures
        match r {
            Ok(s) => ssh_parts(url@) == Ok::<_, TransportErrorView>(s@),
            Err(e) => ssh_parts(url@) == Err::<SshUrlView, _>(e@),
        },
{
    proof {
        reveal_strlit("ssh://");
    }
    let b = url.as_bytes();
    assert(b.len() == b@.len());
    if has_prefix(b, text("ssh://")) {
        let rest = &b[6..b.len()];
        assert(rest@ =~= b@.skip(6));
        let slash: usize = find(rest, SLASH);
        if slash == rest.len() {
            return Err(TransportError::Http(message("ssh url missing path: ", url)));
        }
        let place = &rest[0..slash];
        assert(place@ =~= rest@.take(slash as int));
        let at: usize = find(place, AT);
        let (user, host): (String, &[u8]) = if at < place.len() {
            assert(place@.subrange(0, at as int) =~= place@.take(at as int));
            assert(place@.subrange(at + 1, place@.len() as int) =~= place@.skip(at + 1));
            (lossy_string(&place[0..at]), &place[at + 1..place.len()])
        } else {
            ("git".to_owned(), place)
        };
        let colon: usize = find(host, COLON);
        assert(host@.subrange(0, colon as int) =~= host@.take(colon as int));
        assert(rest@.subrange(slash as int, rest@.len() as int) =~= rest@.skip(slash as int));
        let path = lossy_string(&rest[slash..rest.len()]);
        return Ok(SshUrl { user, host: lossy_string(&host[0..colon]), path });
    }
    let colon: usize = find(b, COLON);
    let place = &b[0..colon];
    assert(place@ =~= b@.take(colon as int));
    let at: usize = find(place, AT);
    if colon < b.len() && at < colon {
        assert(place@.subrange(0, at as int) =~= place@.take(at as int));
        assert(place@.subrange(at + 1, place@.len() as int) =~= place@.skip(at + 1));
        assert(b@.subrange(colon + 1, b@.len() as int) =~= b@.skip(colon + 1));
        return Ok(
            SshUrl {
                user: lossy_string(&place[0..at]),
                host: lossy_string(&place[at + 1..place.len()]),
                path: lossy_string(&b[colon + 1..b.len()]),
            },
        );
    }
    Err(TransportError::Http(message("unrecognized ssh url: ", url)))
}

} // verus!
