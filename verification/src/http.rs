//! Decisions of the local command endpoint: which request it is, whether its body is
//! acceptable, and whether a click succeeded.
use vstd::prelude::*;
use crate::text::{before_char, chars_of, lemma_before_char_prefix, split_once_char, str_eq, string_from_chars};

verus! {

/// Largest accepted request body, in bytes.
pub const MAX_BODY_BYTES: u64 = 65536;

/// Which endpoint a request reaches.
#[derive(Debug, Clone, Copy, PartialEq, Eq, Structural)]
pub enum HttpRoute {
    /// Body over `MAX_BODY_BYTES`: answer 413 without parsing.
    TooLarge,
    /// `/ping`: answer ok.
    Ping,
    /// `/shutdown`: end the process.
    Shutdown,
    /// `/click`: act on the focus of the shared state.
    Click,
    /// `/open`: act on the focus of the shared state.
    Open,
    /// `/refresh`: ask for a menu refresh and answer ok.
    Refresh,
    /// Any other path: answer 404.
    NotFound,
}

/// The path part of a request target: everything before the first `?`.
pub open spec fn url_path(u: Seq<char>) -> Seq<char> {
    before_char(u, '?')
}

/// The path part of a request target (before the first `?`).
pub fn path_of_url(url: &str) -> (r: String)
    ensures
        r@ == url_path(url@),
{
    let (p, _) = split_once_char(&chars_of(url), '?');
    string_from_chars(&p)
}

/// The endpoint of a request with target `url` and a body of `body_len` bytes: an oversized
/// body is refused first, whatever the path; then the path alone decides.
pub open spec fn route_of(url: Seq<char>, body_len: nat) -> HttpRoute {
    let p = url_path(url);
    if body_len > MAX_BODY_BYTES {
        HttpRoute::TooLarge
    } else if p == "/ping"@ {
        HttpRoute::Ping
    } else if p == "/shutdown"@ {
        HttpRoute::Shutdown
    } else if p == "/click"@ {
        HttpRoute::Click
    } else if p == "/open"@ {
        HttpRoute::Open
    } else if p == "/refresh"@ {
        HttpRoute::Refresh
    } else {
        HttpRoute::NotFound
    }
}

/// Routes a request (see `route_of`). The shared state is consulted afterwards, and only
/// for `/click` and `/open` (see `Shared::request_focus`; `None` there answers "no session").
pub fn route_request(url: &str, body_len: u64) -> (r: HttpRoute)
    ensures
        r == route_of(url@, body_len as nat),
{
    if body_len > MAX_BODY_BYTES {
        return HttpRoute::TooLarge;
    }
    let p = path_of_url(url);
    let p = p.as_str();
    if str_eq(p, "/ping") {
        HttpRoute::Ping
    } else if str_eq(p, "/shutdown") {
        HttpRoute::Shutdown
    } else if str_eq(p, "/click") {
        HttpRoute::Click
    } else if str_eq(p, "/open") {
        HttpRoute::Open
    } else if str_eq(p, "/refresh") {
        HttpRoute::Refresh
    } else {
        HttpRoute::NotFound
    }
}

/// A click reply is `ok` when the item was found and its action ran; only then is a menu
/// refresh requested.
pub fn click_succeeded(found: bool, clicked: bool) -> (ok: bool)
    ensures
        ok == (found && clicked),
{
    found && clicked
}

/// A request for `path`, with or without a query after `?`, reaches the endpoint of that
/// path: `/ping`, `/shutdown`, `/click`, `/open`, `/refresh`; any body over
/// `MAX_BODY_BYTES` is refused first whatever the path.
pub proof fn lemma_route_by_path(path: Seq<char>, query: Option<Seq<char>>, body_len: nat)
    requires
        forall|i: int| 0 <= i < path.len() ==> path[i] != '?',
    ensures
        ({
            let url = match query {
                Some(q) => path + seq!['?'] + q,
                None => path,
            };
            &&& body_len > MAX_BODY_BYTES ==> route_of(url, body_len) == HttpRoute::TooLarge
            &&& body_len <= MAX_BODY_BYTES ==> route_of(url, body_len) == (if path == "/ping"@ {
                HttpRoute::Ping
            } else if path == "/shutdown"@ {
                HttpRoute::Shutdown
            } else if path == "/click"@ {
                HttpRoute::Click
            } else if path == "/open"@ {
                HttpRoute::Open
            } else if path == "/refresh"@ {
                HttpRoute::Refresh
            } else {
                HttpRoute::NotFound
            })
        }),
{
    match query {
        Some(q) => lemma_before_char_prefix(path, '?', q),
        None => lemma_before_char_prefix(path, '?', Seq::empty()),
    }
}

} // verus!
