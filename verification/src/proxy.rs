//! The proxy's decisions: where a request goes, what the management
//! endpoints answer, which address the proxy listens on, and how a request
//! is rewritten to HTTPS.
use vstd::prelude::*;
use crate::text::{
    split_on, char_views, chars_of, split_chars, chars_equal, free_of, lemma_split_on_free,
    lemma_split_on_sep_then_free,
};
use crate::credentials::opt_view;

verus! {

/// The subnet from which the proxy picks its outgoing source addresses.
pub const TUNNEL_CIDR: &'static str = "2001:470:8a72::/48";

/// The port of the proxy itself.
pub const PROXY_PORT: u16 = 1080;

/// The port of the management server.
pub const MANAGEMENT_PORT: u16 = 8080;

/// How many connections the proxy serves at once.
pub const MAX_CONCURRENT_CONNECTIONS: usize = 16;

/// How long the proxy waits, in seconds, after the shutdown signal before it
/// stops accepting connections.
pub const SHUTDOWN_GRACE_SECONDS: u64 = 1;

/// The port of a plain HTTP request that names none.
pub const DEFAULT_HTTP_PORT: u16 = 80;

// ---------------------------------------------------------------------------
// Routing of proxy requests
// ---------------------------------------------------------------------------
/// The options that a user name carries: its `-`-separated pieces.
pub open spec fn proxy_options(username: Option<Seq<char>>) -> Seq<Seq<char>> {
    match username {
        Some(u) => split_on(u, '-'),
        None => Seq::<Seq<char>>::empty(),
    }
}

/// The user asks for plain HTTP requests to be sent on over HTTPS.
pub open spec fn rewrite_option(username: Option<Seq<char>>) -> bool {
    exists|i: int|
        0 <= i < proxy_options(username).len() && #[trigger] proxy_options(username)[i]
            == "rewrite"@
}

/// Whether one of the user name's `-`-separated options is `rewrite`.
pub fn wants_https_rewrite(username: &Option<String>) -> (r: bool)
    ensures
        r == rewrite_option(opt_view(*username)),
{
    match username {
        None => false,
        Some(u) => {
            let chars = chars_of(u.as_str());
            let options = split_chars(&chars, '-');
            assert(char_views(options@) == split_on(u@, '-'));
            let rewrite = chars_of("rewrite");
            let mut i: usize = 0;
            while i < options.len()
                invariant
                    i <= options.len(),
                    char_views(options@) == split_on(u@, '-'),
                    rewrite@ == "rewrite"@,
                    proxy_options(opt_view(*username)) == split_on(u@, '-'),
                    forall|j: int| 0 <= j < i ==> split_on(u@, '-')[j] != "rewrite"@,
                decreases options.len() - i,
            {
                assert(options@[i as int]@ == split_on(u@, '-')[i as int]);
                if chars_equal(&options[i], &rewrite) {
                    assert(proxy_options(opt_view(*username))[i as int] == "rewrite"@);
                    return true;
                }
                i = i + 1;
            }
            false
        },
    }
}

/// The rewrite option is asked for exactly when `rewrite` is one of the
/// user name's `-`-separated pieces, wherever it stands; in particular a
/// user name that ends in `-rewrite` asks for it, whatever comes before.
pub proof fn lemma_rewrite_option(u: Seq<char>)
    ensures
        rewrite_option(Some(u)) <==> split_on(u, '-').contains("rewrite"@),
        rewrite_option(Some(u + seq!['-'] + "rewrite"@)),
        rewrite_option(Some("rewrite"@)),
        !rewrite_option(None),
{
    reveal_strlit("rewrite");
    let r = "rewrite"@;
    assert(free_of(r, '-'));
    if split_on(u, '-').contains(r) {
        let i = choose|i: int| 0 <= i < split_on(u, '-').len() && split_on(u, '-')[i] == r;
        assert(proxy_options(Some(u))[i] == r);
    }
    lemma_split_on_sep_then_free(u, r, '-');
    let p = split_on(u + seq!['-'] + r, '-');
    assert(p[p.len() - 1] == r);
    assert(proxy_options(Some(u + seq!['-'] + r))[p.len() - 1] == r);
    lemma_split_on_free(r, '-');
    assert(proxy_options(Some(r))[0] == r);
}

/// Where a proxy request goes.
#[derive(Debug, PartialEq, Eq)]
pub enum Route {
    /// A `CONNECT` request: answer it, then join the client's connection to
    /// a new connection to `target`.
    Tunnel { target: String },
    /// Answer with this status and body and go no further.
    Reject { status: u16, body: String },
    /// A plain request: send it on to `host` at `port`, over TLS when
    /// `rewrite_to_https` holds.
    Forward { host: String, port: u16, rewrite_to_https: bool },
}

/// The route of a request: `CONNECT` requests go to their authority, or are
/// refused without one; other requests go to their host, at port 80 when
/// they name none.
pub open spec fn route_of(
    is_connect: bool,
    authority: Option<Seq<char>>,
    host: Option<Seq<char>>,
    port: Option<u16>,
    username: Option<Seq<char>>,
    r: Route,
) -> bool {
    if is_connect {
        match authority {
            Some(a) => r matches Route::Tunnel { target } && target@ == a,
            None => {
                &&& r matches Route::Reject { status, body }
                &&& r->status == 400
                &&& r->body@ == "CONNECT must be to a socket address"@
            },
        }
    } else {
        &&& r matches Route::Forward { .. }
        &&& r->host@ == host->0
        &&& r->port == (match port {
            Some(n) => n,
            None => 80u16,
        })
        &&& r->rewrite_to_https == rewrite_option(username)
    }
}

/// A request that is not `CONNECT` goes to its URI's host, whatever its
/// authority says, at its port or at 80; a `CONNECT` request with an
/// authority goes to exactly that authority, whatever its host and port.
pub proof fn lemma_route_targets(
    is_connect: bool,
    authority: Option<Seq<char>>,
    host: Option<Seq<char>>,
    port: Option<u16>,
    username: Option<Seq<char>>,
    r: Route,
)
    requires
        is_connect || host is Some,
        route_of(is_connect, authority, host, port, username, r),
    ensures
        !is_connect ==> (r matches Route::Forward { host: h, port: p, .. } && host == Some(h@)
            && p == (if port is Some {
            port->0
        } else {
            80u16
        })),
        is_connect && authority is Some ==> (r matches Route::Tunnel { target } && authority
            == Some(target@)),
        is_connect && authority is None ==> (r matches Route::Reject { status, .. } && status
            == 400),
{
}

/// Decides where a request goes. `username` is the user of the request's
/// proxy credentials.
pub fn route_request(
    is_connect: bool,
    authority: Option<String>,
    host: Option<String>,
    port: Option<u16>,
    username: &Option<String>,
) -> (r: Route)
    requires
        is_connect || host is Some,
    ensures
        route_of(is_connect, opt_view(authority), opt_view(host), port, opt_view(*username), r),
{
    if is_connect {
        match authority {
            Some(a) => Route::Tunnel { target: a },
            None => Route::Reject {
                status: 400,
                body: String::from_str("CONNECT must be to a socket address"),
            },
        }
    } else {
        let host = host.unwrap();
        let port = match port {
            Some(n) => n,
            None => DEFAULT_HTTP_PORT,
        };
        Route::Forward { host, port, rewrite_to_https: wants_https_rewrite(username) }
    }
}

// ---------------------------------------------------------------------------
// Rewriting a request to HTTPS
// ---------------------------------------------------------------------------
/// `http::Uri`, an opaque value here.
#[verifier::external_type_specification]
#[verifier::external_body]
pub struct ExUri(http::Uri);

/// Whether `http::Uri::builder()` accepts a scheme, an authority and a path
/// with query, and builds a URI of them.
pub uninterp spec fn http_uri_accepts(
    scheme: Seq<char>,
    authority: Seq<char>,
    path_and_query: Seq<char>,
) -> bool;

/// The parts that a URI reports of itself.
pub struct UriParts {
    pub scheme: Option<Seq<char>>,
    pub authority: Option<Seq<char>>,
    pub path_and_query: Option<Seq<char>>,
}

/// A built URI together with the scheme, authority and path with query that
/// it reports (`scheme_str`, `authority`, `path_and_query`).
pub struct RebuiltUri {
    uri: http::Uri,
    scheme: Option<String>,
    authority: Option<String>,
    path_and_query: Option<String>,
}

impl View for RebuiltUri {
    type V = UriParts;

    closed spec fn view(&self) -> UriParts {
        UriParts {
            scheme: opt_view(self.scheme),
            authority: opt_view(self.authority),
            path_and_query: opt_view(self.path_and_query),
        }
    }
}

impl RebuiltUri {
    /// The URI itself.
    pub fn into_uri(self) -> http::Uri {
        self.uri
    }
}

/// `http::Uri::builder()` with the given scheme, authority and path, then
/// `build()`, and the parts that the built URI reports: `None` where the
/// builder rejects one of the parts, as `http_uri_accepts` names it. A built
/// URI reports the scheme and the authority it was given (http's
/// `Scheme::try_from` keeps the text, `Authority::try_from` keeps the whole
/// text or fails); it reports the path with query it was given when that is
/// not empty and holds no `#` (`PathAndQuery` drops a fragment and reads an
/// empty path as `/`), which is not stated for other paths.
#[verifier::external_body]
fn uri_from_parts(scheme: &str, authority: &str, path_and_query: &str) -> (r: Option<RebuiltUri>)
    ensures
        r is Some <==> http_uri_accepts(scheme@, authority@, path_and_query@),
        r matches Some(u) ==> {
            &&& u@.scheme == Some(scheme@)
            &&& u@.authority == Some(authority@)
            &&& u@.path_and_query is Some
            &&& (path_and_query@.len() > 0 && !path_and_query@.contains('#'))
                ==> u@.path_and_query == Some(path_and_query@)
        },
{
    let built = http::Uri::builder().scheme(scheme).authority(authority).path_and_query(
        path_and_query,
    ).build();
    match built {
        Ok(uri) => {
            let scheme = uri.scheme_str().map(|s| s.to_string());
            let authority = uri.authority().map(|a| a.as_str().to_string());
            let path_and_query = uri.path_and_query().map(|p| p.as_str().to_string());
            Some(RebuiltUri { uri, scheme, authority, path_and_query })
        },
        Err(_) => None,
    }
}

/// The parts of the rewritten URI: the request's scheme, `https` where it
/// has none, and its authority and path unchanged.
pub fn https_uri_parts(
    scheme: Option<&str>,
    authority: Option<&str>,
    path_and_query: Option<&str>,
) -> (r: (String, String, String))
    requires
        authority is Some,
        path_and_query is Some,
    ensures
        r.0@ == https_scheme(scheme),
        r.1@ == authority->0@,
        r.2@ == path_and_query->0@,
{
    let s = match scheme {
        Some(s) => String::from_str(s),
        None => String::from_str("https"),
    };
    (s, String::from_str(authority.unwrap()), String::from_str(path_and_query.unwrap()))
}

/// The scheme of the rewritten URI.
pub open spec fn https_scheme(scheme: Option<&str>) -> Seq<char> {
    match scheme {
        Some(s) => s@,
        None => "https"@,
    }
}

/// The request's URI rebuilt from `https_uri_parts`; `None` where the URI
/// builder refuses the parts. The rebuilt URI keeps the request's scheme
/// (`https` where it had none), its authority, and its path with query.
pub fn build_https_uri(
    scheme: Option<&str>,
    authority: Option<&str>,
    path_and_query: Option<&str>,
) -> (r: Option<RebuiltUri>)
    requires
        authority is Some,
        path_and_query is Some,
    ensures
        r is Some <==> http_uri_accepts(https_scheme(scheme), authority->0@, path_and_query->0@),
        r matches Some(u) ==> {
            &&& u@.scheme == Some(https_scheme(scheme))
            &&& u@.authority == Some(authority->0@)
            &&& u@.path_and_query is Some
            &&& (path_and_query->0@.len() > 0 && !path_and_query->0@.contains('#'))
                ==> u@.path_and_query == Some(path_and_query->0@)
        },
{
    let (s, a, p) = https_uri_parts(scheme, authority, path_and_query);
    uri_from_parts(s.as_str(), a.as_str(), p.as_str())
}

// ---------------------------------------------------------------------------
// Management server
// ---------------------------------------------------------------------------
/// The body of the `/status` answer.
#[derive(Debug, Clone, Copy, PartialEq, Eq, Structural)]
pub struct Status {
    pub warm_sockets: usize,
}

/// The body of a management answer: text, or the status as JSON.
#[derive(Debug, PartialEq, Eq)]
pub enum ReplyBody {
    Text(String),
    Json(Status),
}

/// A management answer.
#[derive(Debug, PartialEq, Eq)]
pub struct ManagementReply {
    pub status: u16,
    pub body: ReplyBody,
    /// The answer carries `Access-Control-Allow-Origin: *`.
    pub allow_any_origin: bool,
    /// The proxy and the management server are to shut down.
    pub shutdown: bool,
}

/// The answer to a management request for `path`.
pub open spec fn management_reply_of(
    path: Seq<char>,
    warm_sockets: usize,
    version: Seq<char>,
    r: ManagementReply,
) -> bool {
    if path == "/shutdown"@ {
        &&& r.status == 200
        &&& r.body matches ReplyBody::Text(t) && t@ == "Shutting down"@
        &&& !r.allow_any_origin
        &&& r.shutdown
    } else if path == "/info"@ {
        &&& r.status == 200
        &&& r.body matches ReplyBody::Text(t) && t@ == "tonnelle-proxy v"@ + version
        &&& !r.allow_any_origin
        &&& !r.shutdown
    } else if path == "/status"@ {
        &&& r.status == 200
        &&& r.body == ReplyBody::Json(Status { warm_sockets })
        &&& r.allow_any_origin
        &&& !r.shutdown
    } else {
        &&& r.status == 404
        &&& r.body matches ReplyBody::Text(t) && t@ == "Not Found"@
        &&& !r.allow_any_origin
        &&& !r.shutdown
    }
}

fn path_is(path: &Vec<char>, expected: &str) -> (r: bool)
    ensures
        r == (path@ == expected@),
{
    let e = chars_of(expected);
    chars_equal(path, &e)
}

/// What the management server answers to a request for `path`, given the
/// number of warm sockets and the version of the proxy.
pub fn management_reply(path: &str, warm_sockets: usize, version: &str) -> (r: ManagementReply)
    ensures
        management_reply_of(path@, warm_sockets, version@, r),
{
    let p = chars_of(path);
    if path_is(&p, "/shutdown") {
        ManagementReply {
            status: 200,
            body: ReplyBody::Text(String::from_str("Shutting down")),
            allow_any_origin: false,
            shutdown: true,
        }
    } else if path_is(&p, "/info") {
        let mut text = String::from_str("tonnelle-proxy v");
        text.append(version);
        ManagementReply {
            status: 200,
            body: ReplyBody::Text(text),
            allow_any_origin: false,
            shutdown: false,
        }
    } else if path_is(&p, "/status") {
        ManagementReply {
            status: 200,
            body: ReplyBody::Json(Status { warm_sockets }),
            allow_any_origin: true,
            shutdown: false,
        }
    } else {
        ManagementReply {
            status: 404,
            body: ReplyBody::Text(String::from_str("Not Found")),
            allow_any_origin: false,
            shutdown: false,
        }
    }
}

// ---------------------------------------------------------------------------
// Listening address
// ---------------------------------------------------------------------------
/// An IPv4 socket address.
#[derive(Debug, Clone, Copy, PartialEq, Eq)]
pub struct ListenAddr {
    pub octets: [u8; 4],
    pub port: u16,
}

/// The proxy listens on the loopback address when the `DEBUG` variable is
/// `true`, on every address otherwise, at port 1080.
pub fn listen_address(debug_var: Option<&str>) -> (r: ListenAddr)
    ensures
        r.port == 1080,
        (debug_var matches Some(v) && v@ == "true"@) ==> r.octets@ == seq![127u8, 0, 0, 1],
        !(debug_var matches Some(v) && v@ == "true"@) ==> r.octets@ == seq![0u8, 0, 0, 0],
{
    let debug = match debug_var {
        Some(v) => {
            let c = chars_of(v);
            path_is(&c, "true")
        },
        None => false,
    };
    if debug {
        let r = ListenAddr { octets: [127, 0, 0, 1], port: PROXY_PORT };
        assert(r.octets@ =~= seq![127u8, 0, 0, 1]);
        r
    } else {
        let r = ListenAddr { octets: [0, 0, 0, 0], port: PROXY_PORT };
        assert(r.octets@ =~= seq![0u8, 0, 0, 0]);
        r
    }
}

} // verus!
