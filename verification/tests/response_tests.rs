use httplib::response;
use httplib::response::Entries;

#[test]
fn test_json_response_creation() {
    let res = response::json(200, "{\"status\":\"ok\"}");

    assert_eq!(res.code, 200);
    assert_eq!(res.body, Some("{\"status\":\"ok\"}".to_string()));
}

#[test]
fn test_set_phrase() {
    let res = response::json(200, "body").set_phrase("Great Success");

    assert_eq!(res.phrase, Some("Great Success".to_string()));
}

#[test]
fn test_http2_protocol() {
    let res = response::json(200, "body").http2();

    assert_eq!(res.header.protocol, Some("HTTP/2".to_string()));
}

#[test]
fn test_http3_protocol() {
    let res = response::json(200, "body").http3();

    assert_eq!(res.header.protocol, Some("HTTP/3".to_string()));
}

#[test]
fn test_json_response_error() {
    let res = response::json(500, "{}");

    assert_eq!(res.code, 500);
    assert_eq!(res.body, Some("{}".to_string()));
}

#[test]
fn test_set_phrase_error() {
    let res = response::json(200, "body").set_phrase("");

    assert_eq!(res.phrase, Some("".to_string()));
}

#[test]
fn text_trims_body_and_sets_html() {
    let res = response::text(201, "  \t hello world \r\n");
    assert_eq!(res.code, 201);
    assert_eq!(res.body, Some("hello world".to_string()));
    assert_eq!(res.header.content_type, Some(vec!["text/html".to_string()]));
    assert_eq!(res.header.protocol, Some("HTTP/1.1".to_string()));
    assert_eq!(res.phrase, None);
}

#[test]
fn json_content_type_has_charset() {
    let res = response::json(200, "{}");
    assert_eq!(
        res.header.content_type,
        Some(vec!["application/json".to_string(), "charset=utf-8".to_string()])
    );
}

#[test]
fn http1_sets_protocol_back() {
    let res = response::json(200, "x").http2().http1();
    assert_eq!(res.header.protocol, Some("HTTP/1.1".to_string()));
    assert_eq!(res.body, Some("x".to_string()));
}

#[test]
fn to_string_of_text_response() {
    let res = response::text(200, "OK");
    assert_eq!(
        res.to_string(),
        "HTTP/1.1 200 \r\nContent-Length: 2\r\nContent-Type: text/html\r\n\r\nOK"
    );
}

#[test]
fn to_string_with_phrase_and_protocol() {
    let res = response::json(404, " {\"e\":1} ").set_phrase("Not Found").http2();
    assert_eq!(
        res.to_string(),
        "HTTP/2 404 Not Found\r\nContent-Length: 7\r\nContent-Type: application/json, charset=utf-8\r\n\r\n{\"e\":1}"
    );
}

#[test]
fn to_string_counts_body_bytes() {
    let res = response::text(200, "привет");
    assert_eq!(
        res.to_string(),
        "HTTP/1.1 200 \r\nContent-Length: 12\r\nContent-Type: text/html\r\n\r\nпривет"
    );
}

#[test]
fn to_string_without_protocol_defaults_to_http11() {
    let mut res = response::text(500, "x");
    res.header.protocol = None;
    res.body = None;
    assert_eq!(res.to_string(), "HTTP/1.1 500 \r\nContent-Type: text/html\r\n\r\n");
}

#[test]
fn to_string_with_all_headers() {
    let mut res = response::text(200, "b");
    res.header.access_control_allow_origin = Some("*".to_string());
    res.header.connection = Some("close".to_string());
    res.header.etag = Some("v1".to_string());
    res.header.x_kuma_revision = Some(-7);
    res.header.vary = Some(vec!["A".to_string(), "B".to_string()]);
    let mut ka = Entries::new();
    ka.set("timeout".to_string(), 5);
    ka.set("max".to_string(), 100);
    res.header.keep_alive = Some(ka);
    let mut cookies = Entries::new();
    cookies.set("id".to_string(), "0".to_string());
    cookies.set("k".to_string(), "v".to_string());
    cookies.set("id".to_string(), "1".to_string());
    res.header.set_cookie = Some(cookies);
    assert_eq!(
        res.to_string(),
        "HTTP/1.1 200 \r\nContent-Length: 1\r\nAccess-Control-Allow-Origin: *\r\nConnection: close\r\n\
         ETag: \"v1\"\r\nX-kuma-revision: -7\r\nContent-Type: text/html\r\nVary: A, B\r\n\
         Keep-Alive: timeout=5, max=100\r\nSet-Cookie: id=1\r\nSet-Cookie: k=v\r\n\r\nb"
    );
}

#[test]
fn entries_keep_each_name_once() {
    let mut e: Entries<i32> = Entries::new();
    assert!(e.items().is_empty());
    e.set("a".to_string(), 1);
    e.set("b".to_string(), 2);
    e.set("a".to_string(), 3);
    assert_eq!(e.items(), &vec![("a".to_string(), 3), ("b".to_string(), 2)]);
}
