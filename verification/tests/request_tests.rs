use httplib::http::request::{from, parse_cookie, parse_method, parse_query, parse_request};
use httplib::Method;

fn lines(v: &[&str]) -> Vec<String> {
    v.iter().map(|s| s.to_string()).collect()
}

#[test]
fn parses_request_line_query_and_body() {
    let req = from(&lines(&[
        "GET /user/5?name=Bob&x=1&flag HTTP/1.1",
        "Host: example.com",
        "Accept: text/html, application/json",
        "",
        "the body",
    ]));
    assert_eq!(req.get_method(), Some(Method::GET));
    assert_eq!(req.get_route(), "/user/5");
    assert_eq!(req.get_query("name"), Some("Bob"));
    assert_eq!(req.get_query("x"), Some("1"));
    assert_eq!(req.get_query("flag"), None);
    assert_eq!(req.get_body(), "the body");
    assert_eq!(req.get_protocol(), Some("HTTP/1.1".to_string()));
}

#[test]
fn unknown_method_is_none() {
    let req = from(&lines(&["BREW /pot HTTP/1.1", ""]));
    assert_eq!(req.get_method(), None);
    assert_eq!(req.get_route(), "/pot");
    assert_eq!(req.get_query("a"), None);
}

#[test]
fn later_query_value_wins() {
    let req = from(&lines(&["POST /a?k=1&k=2 HTTP/1.0", "x"]));
    assert_eq!(req.get_query("k"), Some("2"));
    assert_eq!(req.get_body(), "x");
}

#[test]
fn parse_request_rejects() {
    let srv: httplib::Server<u8> = httplib::Server::new("127.0.0.1", 1);
    assert!(srv.dispatch(&[]).is_none());
    assert!(srv.dispatch(&lines(&["GET /"])).is_none());
    assert!(srv.dispatch(&lines(&["GET / HTTP/1.1", "Sec-GPC: yes", ""])).is_none());
    assert!(srv.dispatch(&lines(&["GET / HTTP/1.1", "Upgrade-Insecure-Requests: 300", ""])).is_none());
    assert!(srv.dispatch(&lines(&["GET / HTTP/1.1", "Sec-GPC: 1", ""])).is_some());
    assert!(srv.dispatch(&lines(&["GET / HTTP/1.1", "", "Sec-GPC: bad"])).is_some());
}

#[test]
fn methods() {
    assert_eq!(parse_method("GET"), Some(Method::GET));
    assert_eq!(parse_method("POST"), Some(Method::POST));
    assert_eq!(parse_method("PUT"), Some(Method::PUT));
    assert_eq!(parse_method("DELETE"), Some(Method::DELETE));
    assert_eq!(parse_method("PATCH"), Some(Method::PATCH));
    assert_eq!(parse_method("OPTIONS"), Some(Method::OPTIONS));
    assert_eq!(parse_method("HEAD"), Some(Method::HEAD));
    assert_eq!(parse_method("TRACE"), Some(Method::TRACE));
    assert_eq!(parse_method("CONNECT"), Some(Method::CONNECT));
    assert_eq!(parse_method("get"), None);
}

#[test]
fn query_and_cookie_pairs() {
    let q = parse_query("a=1&b= two &c&a=3");
    assert_eq!(q, vec![("a".to_string(), "3".to_string()), ("b".to_string(), "two".to_string())]);
    let c = parse_cookie("id=7; theme = dark;x=y");
    assert_eq!(
        c,
        vec![("id".to_string(), "7".to_string()), ("theme".to_string(), "dark;x=y".to_string())]
    );
}

#[test]
fn parse_request_agrees_with_from() {
    let text = lines(&["PUT /doc?v=2 HTTP/1.1", "Host: h", "", "data"]);
    let parsed = parse_request(&text).expect("a request");
    let req = from(&text);
    assert_eq!(parsed.get_method(), req.get_method());
    assert_eq!(parsed.get_route(), req.get_route());
    assert_eq!(parsed.get_query("v"), Some("2"));
    assert_eq!(parsed.get_body(), req.get_body());
    assert_eq!(parsed.get_protocol(), req.get_protocol());
    assert!(parse_request(&[]).is_none());
    assert!(parse_request(&lines(&["GET /"])).is_none());
}

#[test]
fn only_numeric_headers_with_bad_values_refuse() {
    assert!(parse_request(&lines(&["GET / HTTP/1.1", "DNT: maybe", ""])).is_some());
    assert!(parse_request(&lines(&["GET / HTTP/1.1", "upgrade-insecure-requests: 1", ""])).is_some());
    assert!(parse_request(&lines(&["GET / HTTP/1.1", "SEC-GPC: x", ""])).is_none());
    assert!(parse_request(&lines(&["GET / HTTP/1.1", "", "sec-gpc: x"])).is_some());
    assert!(parse_request(&lines(&["GET / HTTP/1.1", "sec-gpc: x"])).is_none());
    assert!(parse_request(&lines(&["GET /"])).is_none());
}
