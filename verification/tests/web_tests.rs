use duckception::headers::{header_match, HeaderList};
use duckception::web::{
    empty_reply, error_response, method_not_allowed, resource_location, resource_reply, route,
    split_path, upgrade_connection, Action, EchoSession, Incoming,
};

fn headers(pairs: &[(&str, &[u8])]) -> HeaderList {
    HeaderList { entries: pairs.iter().map(|(n, v)| (n.to_string(), v.to_vec())).collect() }
}

fn resource(a: &Action) -> Option<String> {
    match a {
        Action::Resource(name) => Some(name.clone()),
        _ => None,
    }
}

#[test]
fn root_serves_index() {
    assert_eq!(resource(&route("GET", "/")), Some("index.html".to_string()));
}

#[test]
fn web_paths_serve_resources() {
    assert_eq!(resource(&route("GET", "/web/site.css")), Some("site.css".to_string()));
    assert_eq!(resource(&route("GET", "/web/img/duck.png")), Some("img/duck.png".to_string()));
    assert_eq!(resource(&route("GET", "/web")), Some(String::new()));
    assert_eq!(resource(&route("GET", "/web/")), Some(String::new()));
}

#[test]
fn ws_opens_websocket() {
    assert!(matches!(route("GET", "/ws"), Action::WebSocket));
    assert!(matches!(route("GET", "/ws/anything"), Action::WebSocket));
}

#[test]
fn other_paths_get_nothing() {
    assert!(matches!(route("GET", "/room/lobby"), Action::Nothing));
    assert!(matches!(route("GET", "/WEB/x"), Action::Nothing));
}

#[test]
fn other_methods_are_refused() {
    assert!(matches!(route("POST", "/"), Action::MethodNotAllowed));
    assert!(matches!(route("get", "/"), Action::MethodNotAllowed));
    let r = method_not_allowed();
    assert_eq!(r.status, 405);
    assert_eq!(r.headers, vec![("allow".to_string(), "GET".to_string())]);
    assert!(r.body.is_empty());
}

#[test]
fn path_splitting() {
    let p = split_path("/a/b/c");
    assert_eq!(p.segment, "a");
    assert!(p.has_tail);
    assert_eq!(p.tail, "b/c");
    let q = split_path("/a");
    assert_eq!(q.segment, "a");
    assert!(!q.has_tail);
    assert_eq!(q.tail, "");
}

#[test]
fn resources_live_under_dist() {
    assert_eq!(resource_location("index.html"), "./dist/index.html");
    assert_eq!(resource_location("js/app.js"), "./dist/js/app.js");
}

#[test]
fn found_resource_carries_guessed_type() {
    let r = resource_reply("./dist/index.html", Some(b"<html></html>".to_vec()));
    assert_eq!(r.status, 200);
    assert_eq!(r.headers, vec![("content-type".to_string(), "text/html".to_string())]);
    assert_eq!(r.body, b"<html></html>".to_vec());
    let css = resource_reply("./dist/site.css", Some(vec![]));
    assert_eq!(css.headers[0].1, "text/css");
    let unknown = resource_reply("./dist/blob", Some(vec![1, 2]));
    assert_eq!(unknown.headers[0].1, "application/octet-stream");
}

#[test]
fn missing_resource_is_404() {
    let r = resource_reply("./dist/nope.html", None);
    assert_eq!(r.status, 404);
    assert!(r.headers.is_empty());
    assert!(r.body.is_empty());
}

#[test]
fn empty_and_error_replies() {
    let e = empty_reply();
    assert_eq!((e.status, e.headers.len(), e.body.len()), (200, 0, 0));
    let r = error_response("disk on fire".to_string());
    assert_eq!(r.status, 500);
    assert_eq!(r.body, b"disk on fire".to_vec());
}

#[test]
fn header_matching_ignores_value_case() {
    let h = headers(&[("upgrade", b"WebSocket"), ("x-empty", b"")]);
    assert!(header_match(&h, "upgrade", "websocket"));
    assert!(header_match(&h, "Upgrade", "websocket"));
    assert!(!header_match(&h, "upgrade", "WebSocket"));
    assert!(!header_match(&h, "connection", "upgrade"));
    assert!(header_match(&h, "x-empty", ""));
}

#[test]
fn header_matching_uses_first_value_and_visible_ascii() {
    let h = headers(&[("upgrade", b"h2c"), ("upgrade", b"websocket")]);
    assert!(!header_match(&h, "upgrade", "websocket"));
    let bad = headers(&[("upgrade", b"web\x01socket")]);
    assert!(!header_match(&bad, "upgrade", "web\u{1}socket"));
    let tab = headers(&[("x", b"a\tb")]);
    assert!(header_match(&tab, "x", "a\tb"));
}

fn handshake_headers(connection: &[u8]) -> HeaderList {
    headers(&[
        ("host", b"server.example.com"),
        ("upgrade", b"websocket"),
        ("connection", connection),
        ("sec-websocket-key", b"dGhlIHNhbXBsZSBub25jZQ=="),
        ("sec-websocket-version", b"13"),
    ])
}

#[test]
fn handshake_is_accepted() {
    let r = upgrade_connection(&handshake_headers(b"Upgrade"));
    let reply = r.ok().expect("accepted");
    assert_eq!(reply.status, 101);
    assert_eq!(
        reply.headers,
        vec![
            ("upgrade".to_string(), "websocket".to_string()),
            ("sec-websocket-accept".to_string(), "s3pPLMBiTxaQ9kYGzzhZRbK+xOo=".to_string()),
            ("connection".to_string(), "upgrade".to_string()),
        ]
    );
    assert!(reply.body.is_empty());
}

#[test]
fn connection_may_list_several_options() {
    assert!(upgrade_connection(&handshake_headers(b"keep-alive, Upgrade")).is_ok());
    let mut split = handshake_headers(b"keep-alive");
    split.entries.push(("connection".to_string(), b"upgrade".to_vec()));
    assert!(upgrade_connection(&split).is_ok());
}

#[test]
fn key_with_a_control_byte_gets_no_answer() {
    let mut h = handshake_headers(b"upgrade");
    for e in h.entries.iter_mut() {
        if e.0 == "sec-websocket-key" {
            e.1 = b"bad\nkey".to_vec();
        }
    }
    assert!(upgrade_connection(&h).is_err());
}

#[test]
fn handshake_is_refused() {
    let no_conn = upgrade_connection(&handshake_headers(b"keep-alive"));
    assert_eq!(no_conn.err().map(|r| (r.status, r.headers.len())), Some((400, 0)));
    let no_key = headers(&[
        ("upgrade", b"websocket"),
        ("connection", b"upgrade"),
        ("sec-websocket-version", b"13"),
    ]);
    assert!(upgrade_connection(&no_key).is_err());
    let old_version = headers(&[
        ("upgrade", b"websocket"),
        ("connection", b"upgrade"),
        ("sec-websocket-key", b"dGhlIHNhbXBsZSBub25jZQ=="),
        ("sec-websocket-version", b"8"),
    ]);
    assert!(upgrade_connection(&old_version).is_err());
    assert!(upgrade_connection(&headers(&[])).is_err());
}

#[test]
fn echo_numbers_text_messages() {
    let mut s = EchoSession::new();
    assert_eq!(s.respond(&Incoming::Text("hello".to_string())), Some("Response 1: hello".to_string()));
    assert_eq!(s.respond(&Incoming::Other), None);
    assert_eq!(s.respond(&Incoming::Text("again".to_string())), Some("Response 2: again".to_string()));
    for _ in 0..8 {
        s.respond(&Incoming::Text(String::new()));
    }
    assert_eq!(s.respond(&Incoming::Text("x".to_string())), Some("Response 11: x".to_string()));
}

#[test]
fn path_parts_agree_with_splitting_at_every_slash() {
    for path in ["/", "/web", "/web/", "/web/a/b", "/ws//x", "a/b/c/d", "/x/y"] {
        let pieces: Vec<&str> = path.split('/').collect();
        let p = split_path(path);
        assert_eq!(p.segment, pieces[1]);
        assert_eq!(p.has_tail, pieces.len() >= 3);
        let rest = if pieces.len() > 2 { pieces[2..].join("/") } else { String::new() };
        assert_eq!(p.tail, rest);
    }
}
