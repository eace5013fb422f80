use tonnelle::proxy::{
    build_https_uri, https_uri_parts, listen_address, management_reply, route_request,
    wants_https_rewrite, ReplyBody, Route, Status,
};

fn s(x: &str) -> Option<String> {
    Some(x.to_string())
}

#[test]
fn connect_goes_to_authority() {
    let r = route_request(true, s("example.com:443"), s("example.com"), Some(443), &None);
    assert_eq!(r, Route::Tunnel { target: "example.com:443".to_string() });
}

#[test]
fn connect_without_authority_is_refused() {
    let r = route_request(true, None, None, None, &s("user"));
    assert_eq!(
        r,
        Route::Reject { status: 400, body: "CONNECT must be to a socket address".to_string() }
    );
}

#[test]
fn plain_request_defaults_to_port_80() {
    let r = route_request(false, s("example.com"), s("example.com"), None, &None);
    assert_eq!(
        r,
        Route::Forward { host: "example.com".to_string(), port: 80, rewrite_to_https: false }
    );
    let r = route_request(false, None, s("example.com"), Some(8080), &s("bob"));
    assert_eq!(
        r,
        Route::Forward { host: "example.com".to_string(), port: 8080, rewrite_to_https: false }
    );
}

#[test]
fn rewrite_option_in_user_name() {
    assert!(wants_https_rewrite(&s("rewrite")));
    assert!(wants_https_rewrite(&s("alice-rewrite")));
    assert!(wants_https_rewrite(&s("alice-rewrite-fast")));
    assert!(!wants_https_rewrite(&s("alice-rewriter")));
    assert!(!wants_https_rewrite(&s("alicerewrite")));
    assert!(!wants_https_rewrite(&None));
    let r = route_request(false, None, s("example.com"), None, &s("alice-rewrite"));
    assert_eq!(
        r,
        Route::Forward { host: "example.com".to_string(), port: 80, rewrite_to_https: true }
    );
}

#[test]
fn https_uri_keeps_scheme_or_defaults() {
    let (a, b, c) = https_uri_parts(None, Some("example.com"), Some("/a?b=c"));
    assert_eq!((a.as_str(), b.as_str(), c.as_str()), ("https", "example.com", "/a?b=c"));
    let (a, _, _) = https_uri_parts(Some("http"), Some("example.com"), Some("/"));
    assert_eq!(a, "http");
    let uri = build_https_uri(None, Some("example.com:8443"), Some("/x?y=1")).unwrap().into_uri();
    assert_eq!(uri.to_string(), "https://example.com:8443/x?y=1");
    let uri = build_https_uri(Some("http"), Some("example.com"), Some("/a?b=1")).unwrap().into_uri();
    assert_eq!(uri.to_string(), "http://example.com/a?b=1");
    assert_eq!(uri.scheme_str(), Some("http"));
    assert_eq!(uri.authority().map(|a| a.as_str()), Some("example.com"));
    assert_eq!(uri.path_and_query().map(|p| p.as_str()), Some("/a?b=1"));
    assert!(build_https_uri(None, Some("bad host"), Some("/")).is_none());
}

#[test]
fn management_endpoints() {
    let r = management_reply("/shutdown", 3, "0.1.0");
    assert_eq!(r.status, 200);
    assert_eq!(r.body, ReplyBody::Text("Shutting down".to_string()));
    assert!(r.shutdown);
    assert!(!r.allow_any_origin);

    let r = management_reply("/info", 3, "0.1.0");
    assert_eq!(r.status, 200);
    assert_eq!(r.body, ReplyBody::Text("tonnelle-proxy v0.1.0".to_string()));
    assert!(!r.shutdown);

    let r = management_reply("/status", 7, "0.1.0");
    assert_eq!(r.status, 200);
    assert_eq!(r.body, ReplyBody::Json(Status { warm_sockets: 7 }));
    assert!(r.allow_any_origin);
    assert!(!r.shutdown);

    let r = management_reply("/statuses", 7, "0.1.0");
    assert_eq!(r.status, 404);
    assert_eq!(r.body, ReplyBody::Text("Not Found".to_string()));
    assert!(!r.shutdown);
}

#[test]
fn listen_address_follows_debug() {
    let d = listen_address(Some("true"));
    assert_eq!((d.octets, d.port), ([127, 0, 0, 1], 1080));
    let p = listen_address(Some("false"));
    assert_eq!((p.octets, p.port), ([0, 0, 0, 0], 1080));
    let n = listen_address(None);
    assert_eq!((n.octets, n.port), ([0, 0, 0, 0], 1080));
    let t = listen_address(Some("TRUE"));
    assert_eq!(t.octets, [0, 0, 0, 0]);
}
