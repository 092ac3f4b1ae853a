use httplib::http::{on_body_error, BodyPlan, ConnectionState, LineStep, Outcome};
use httplib::{Method, Router, Server};

fn lines(v: &[&str]) -> Vec<String> {
    v.iter().map(|s| s.to_string()).collect()
}

#[test]
fn server_builders() {
    let s: Server<u8> = Server::new("0.0.0.0", 7878);
    assert_eq!(s.address, "0.0.0.0");
    assert_eq!(s.port, 7878);
    assert!(!s.logger_enabled);
    assert_eq!(s.max_body_size, 10 * 1024 * 1024);
    let s = s.enable_logger().with_max_body_size(5);
    assert!(s.logger_enabled);
    assert_eq!(s.max_body_size, 5);
    let d: Server<u8> = Server::default();
    assert_eq!(d.port, 0);
    assert_eq!(d.max_body_size, 0);
}

#[test]
fn dispatch_routes() {
    let mut router = Router::new();
    router.add(Method::GET, "/user/{id}", 1u8).add(Method::GET, "/", 2u8);
    let srv = Server::new("127.0.0.1", 0).with_router(router);

    let (req, out) = srv.dispatch(&lines(&["GET /user/42/?q=1 HTTP/1.1", "Host: a", ""])).unwrap();
    assert_eq!(req.get_route(), "/user/42/");
    match out {
        Outcome::Handle(h, params) => {
            assert_eq!(h, 1);
            assert_eq!(params, vec!["42".to_string()]);
        }
        Outcome::Respond(_) => panic!("expected a handler"),
    }

    let (_, out) = srv.dispatch(&lines(&["GET / HTTP/1.1", ""])).unwrap();
    assert!(matches!(out, Outcome::Handle(2, _)));

    let (_, out) = srv.dispatch(&lines(&["GET /nothing HTTP/1.1", ""])).unwrap();
    match out {
        Outcome::Respond(r) => {
            assert_eq!(r.code, 404);
            assert_eq!(r.body, Some("Not Found".to_string()));
        }
        _ => panic!("expected 404"),
    }

    let (_, out) = srv.dispatch(&lines(&["FETCH / HTTP/1.1", ""])).unwrap();
    match out {
        Outcome::Respond(r) => {
            assert_eq!(r.code, 405);
            assert_eq!(r.body, Some("Method Not Allowed".to_string()));
        }
        _ => panic!("expected 405"),
    }
}

#[test]
fn header_lines_are_recorded() {
    let mut st = ConnectionState::new();
    assert!(st.before_line().is_none());
    assert!(matches!(st.on_line("POST /upload HTTP/1.0\r\n", 24), LineStep::Continue));
    assert!(st.is_http_1_0);
    assert!(matches!(st.on_line("Content-Length: 12\r\n", 20), LineStep::Continue));
    assert_eq!(st.content_length, Some(12));
    assert!(matches!(st.on_line("Connection: Keep-Alive\r\n", 24), LineStep::Continue));
    assert!(st.keep_alive_requested);
    assert!(!st.close_requested);
    assert_eq!(st.lines, lines(&["POST /upload HTTP/1.0", "Content-Length: 12", "Connection: Keep-Alive"]));
    assert!(matches!(st.on_line("\r\n", 2), LineStep::HeadersDone));
    match st.body_plan(100) {
        BodyPlan::Read { length, close, capacity } => {
            assert_eq!(length, 12);
            assert!(!close);
            assert_eq!(capacity, 12);
        }
        BodyPlan::Reject(_) => panic!("expected a read"),
    }
}

#[test]
fn http11_closes_only_on_request() {
    let mut st = ConnectionState::new();
    st.on_line("GET / HTTP/1.1\r\n", 16);
    assert!(matches!(st.body_plan(10), BodyPlan::Read { length: 0, close: false, .. }));
    st.on_line("connection: close\n", 18);
    assert!(matches!(st.body_plan(10), BodyPlan::Read { length: 0, close: true, .. }));
    let mut st10 = ConnectionState::new();
    st10.on_line("GET / HTTP/1.0\r\n", 16);
    assert!(matches!(st10.body_plan(10), BodyPlan::Read { length: 0, close: true, .. }));
}

#[test]
fn rejections() {
    let mut st = ConnectionState::new();
    st.on_line("POST / HTTP/1.1\r\n", 17);
    match st.on_line("Content-Length: abc\r\n", 21) {
        LineStep::Reject(r) => {
            assert_eq!(r.code, 400);
            assert_eq!(r.body, Some("Bad Request: Invalid Content-Length".to_string()));
        }
        _ => panic!("expected 400"),
    }
    let mut st = ConnectionState::new();
    st.on_line("POST / HTTP/1.1\r\n", 17);
    st.on_line("Content-Length: 4000000000\r\n", 28);
    match st.body_plan(10 * 1024 * 1024) {
        BodyPlan::Reject(r) => assert_eq!(r.code, 413),
        _ => panic!("expected 413"),
    }
    let long = "a".repeat(8192);
    match ConnectionState::new().on_line(&long, 8192) {
        LineStep::Reject(r) => assert_eq!(r.code, 431),
        _ => panic!("expected 431"),
    }
    let mut st = ConnectionState::new();
    for _ in 0..100 {
        st.on_line("X: y\r\n", 6);
    }
    assert_eq!(st.before_line().unwrap().code, 431);
}

#[test]
fn read_errors() {
    let mut st = ConnectionState::new();
    assert!(st.on_read_error(true).is_none());
    st.on_line("GET / HTTP/1.1\r\n", 16);
    assert_eq!(st.on_read_error(true).unwrap().code, 408);
    assert!(st.on_read_error(false).is_none());
    assert_eq!(on_body_error(true).code, 408);
    assert_eq!(on_body_error(false).code, 400);
    assert_eq!(on_body_error(false).body, Some("Bad Request: Incomplete Body".to_string()));
}

#[test]
fn header_names_and_connection_values_ignore_case() {
    let mut st = ConnectionState::new();
    st.on_line("PUT /x HTTP/1.1\r\n", 17);
    assert!(matches!(st.on_line("CONTENT-LENGTH:  5 \r\n", 21), LineStep::Continue));
    assert_eq!(st.content_length, Some(5));
    assert!(matches!(st.on_line("connection: CLOSE\r\n", 19), LineStep::Continue));
    assert!(st.close_requested);
    assert!(matches!(st.body_plan(5), BodyPlan::Read { length: 5, close: true, .. }));
    assert!(matches!(st.body_plan(4), BodyPlan::Reject(_)));
}

#[test]
fn huge_content_length_is_refused_before_reading() {
    let mut st = ConnectionState::new();
    st.on_line("POST /upload HTTP/1.1\r\n", 23);
    st.on_line("Host: 127.0.0.1\r\n", 17);
    st.on_line("Content-Type: application/octet-stream\r\n", 40);
    st.on_line("Content-Length: 4000000000\r\n", 28);
    st.on_line("Connection: close\r\n", 19);
    assert!(matches!(st.on_line("\r\n", 2), LineStep::HeadersDone));
    match st.body_plan(10 * 1024 * 1024) {
        BodyPlan::Reject(r) => {
            assert_eq!(r.code, 413);
            assert!(r.to_string().contains("413"));
        }
        BodyPlan::Read { .. } => panic!("a 4 GB body must not be read"),
    }
}

#[test]
fn http10_first_line_detection_is_case_insensitive() {
    let mut st = ConnectionState::new();
    st.on_line("GET / http/1.0\r\n", 16);
    assert!(st.is_http_1_0);
    let mut st = ConnectionState::new();
    st.on_line("GET / HTTP/1.1\r\n", 16);
    st.on_line("X-Proto: HTTP/1.0\r\n", 19);
    assert!(!st.is_http_1_0);
}

#[test]
fn initial_body_buffer_is_capped() {
    let mut st = ConnectionState::new();
    st.on_line("POST /upload HTTP/1.1\r\n", 23);
    st.on_line("Content-Length: 1000000\r\n", 25);
    assert!(matches!(st.on_line("\r\n", 2), LineStep::HeadersDone));
    match st.body_plan(10 * 1024 * 1024) {
        BodyPlan::Read { length, capacity, .. } => {
            assert_eq!(length, 1000000);
            assert_eq!(capacity, 65536);
        }
        BodyPlan::Reject(_) => panic!("expected a read"),
    }
    let mut st = ConnectionState::new();
    st.on_line("POST /upload HTTP/1.1\r\n", 23);
    st.on_line("Content-Length: 65536\r\n", 23);
    match st.body_plan(10 * 1024 * 1024) {
        BodyPlan::Read { capacity, .. } => assert_eq!(capacity, 65536),
        BodyPlan::Reject(_) => panic!("expected a read"),
    }
}

#[test]
fn cloned_server_keeps_settings_and_routes() {
    let mut router: Router<u8> = Router::new();
    router.add(Method::GET, "/ping", 1);
    let srv = Server::new("127.0.0.1", 8080).with_router(router).enable_logger().with_max_body_size(5);
    let copy = srv.clone();
    assert_eq!(copy.address, "127.0.0.1");
    assert_eq!(copy.port, 8080);
    assert!(copy.logger_enabled);
    assert_eq!(copy.max_body_size, 5);
    assert_eq!(copy.router.find(Method::GET, &["ping"]).unwrap().0, 1);
}

#[test]
fn request_lines_are_head_then_decoded_body() {
    let mut st = ConnectionState::new();
    st.on_line("POST /a HTTP/1.1\r\n", 18);
    st.on_line("Content-Length: 4\r\n", 19);
    assert_eq!(st.request_lines(b"hi\xffx"), lines(&["POST /a HTTP/1.1", "Content-Length: 4", "hi\u{FFFD}x"]));
    let mut st = ConnectionState::new();
    st.on_line("GET / HTTP/1.1\r\n", 16);
    assert_eq!(st.request_lines("caf\u{e9}".as_bytes()), lines(&["GET / HTTP/1.1", "caf\u{e9}"]));
    assert_eq!(ConnectionState::new().request_lines(&[]), lines(&[""]));
}

#[test]
fn on_header_reads_the_given_lower_case_forms() {
    let mut st = ConnectionState::new();
    assert!(matches!(st.on_header("Content-Length: 5\r\n", "content-length: 5\r\n", "5"), LineStep::Continue));
    assert_eq!(st.content_length, Some(5));
    assert_eq!(st.lines, lines(&["Content-Length: 5"]));
    assert!(matches!(st.on_header("Connection: Close\r\n", "connection: close\r\n", "close"), LineStep::Continue));
    assert!(st.close_requested);
    assert!(!st.keep_alive_requested);
    assert!(matches!(st.on_header("X: y\r\n", "x: y\r\n", "keep-alive"), LineStep::Continue));
    assert!(!st.keep_alive_requested);
    match st.on_header("Content-Length: x\r\n", "content-length: x\r\n", "x") {
        LineStep::Reject(r) => assert_eq!(r.code, 400),
        _ => panic!("expected a rejection"),
    }
    assert_eq!(st.lines.len(), 3);
}
