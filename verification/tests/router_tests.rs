use httplib::http::trie::{parse_segment, Node, Segment};
use httplib::{Method, Router};

fn names(v: &Vec<String>) -> Vec<&str> {
    v.iter().map(|s| s.as_str()).collect()
}

#[test]
fn empty_router_finds_nothing() {
    let r: Router<&'static str> = Router::new();
    assert!(r.find(Method::GET, &[]).is_none());
    assert!(r.find(Method::GET, &["a"]).is_none());
    let d: Router<&'static str> = Router::default();
    assert!(d.find(Method::POST, &["x", "y"]).is_none());
}

#[test]
fn static_route_is_found_without_params() {
    let mut r = Router::new();
    r.add(Method::GET, "/ping", "ping");
    let (h, p) = r.find(Method::GET, &["ping"]).unwrap();
    assert_eq!(h, "ping");
    assert!(p.is_empty());
    assert!(r.find(Method::POST, &["ping"]).is_none());
    assert!(r.find(Method::GET, &["pong"]).is_none());
    assert!(r.find(Method::GET, &[]).is_none());
}

#[test]
fn root_route() {
    let mut r = Router::new();
    r.add(Method::GET, "/", "root");
    assert_eq!(r.find(Method::GET, &[]).unwrap().0, "root");
}

#[test]
fn add_chains_and_later_add_replaces() {
    let mut r = Router::new();
    r.add(Method::GET, "/a", "first").add(Method::GET, "/a", "second").add(Method::PUT, "/a", "put");
    assert_eq!(r.find(Method::GET, &["a"]).unwrap().0, "second");
    assert_eq!(r.find(Method::PUT, &["a"]).unwrap().0, "put");
}

#[test]
fn params_are_captured_in_order() {
    let mut r = Router::new();
    r.add(Method::PUT, "/posts/{category}/{id}", "update");
    r.add(Method::GET, "/user/:id", "user");
    let (h, p) = r.find(Method::PUT, &["posts", "news", "42"]).unwrap();
    assert_eq!(h, "update");
    assert_eq!(names(&p), vec!["news", "42"]);
    let (h, p) = r.find(Method::GET, &["user", "7"]).unwrap();
    assert_eq!(h, "user");
    assert_eq!(names(&p), vec!["7"]);
    assert!(r.find(Method::GET, &["user"]).is_none());
    assert!(r.find(Method::GET, &["user", "7", "x"]).is_none());
}

#[test]
fn static_beats_param_beats_catch_all() {
    let mut r = Router::new();
    r.add(Method::GET, "/user/me", "me");
    r.add(Method::GET, "/user/{id}", "by_id");
    r.add(Method::GET, "/user/{*rest}", "rest");
    let (h, p) = r.find(Method::GET, &["user", "me"]).unwrap();
    assert_eq!(h, "me");
    assert!(p.is_empty());
    let (h, p) = r.find(Method::GET, &["user", "5"]).unwrap();
    assert_eq!(h, "by_id");
    assert_eq!(names(&p), vec!["5"]);
    let (h, p) = r.find(Method::GET, &["user", "5", "photos"]).unwrap();
    assert_eq!(h, "rest");
    assert_eq!(names(&p), vec!["5/photos"]);
}

#[test]
fn fallback_when_static_branch_fails() {
    let mut r = Router::new();
    r.add(Method::GET, "/files/special/deep", "deep");
    r.add(Method::GET, "/files/{name}/info", "info");
    let (h, p) = r.find(Method::GET, &["files", "special", "info"]).unwrap();
    assert_eq!(h, "info");
    assert_eq!(names(&p), vec!["special"]);
}

#[test]
fn catch_all_joins_the_rest() {
    let mut r = Router::new();
    r.add(Method::GET, "/static/{*filepath}", "files");
    let (h, p) = r.find(Method::GET, &["static", "css", "style.css"]).unwrap();
    assert_eq!(h, "files");
    assert_eq!(names(&p), vec!["css/style.css"]);
    assert!(r.find(Method::GET, &["static"]).is_none());
    let mut r2 = Router::new();
    r2.add(Method::GET, "/s/*path", "star");
    assert_eq!(names(&r2.find(Method::GET, &["s", "a", "b", "c"]).unwrap().1), vec!["a/b/c"]);
}

#[test]
fn other_methods_unaffected() {
    let mut r = Router::new();
    r.add(Method::GET, "/x/{id}", "get");
    let before = r.find(Method::DELETE, &["x", "1"]).is_none();
    r.add(Method::POST, "/x/1", "post");
    assert_eq!(before, r.find(Method::DELETE, &["x", "1"]).is_none());
    assert_eq!(r.find(Method::GET, &["x", "1"]).unwrap().0, "get");
    assert_eq!(r.find(Method::POST, &["x", "1"]).unwrap().0, "post");
}

#[test]
fn empty_segments_are_ignored() {
    let mut r = Router::new();
    r.add(Method::GET, "//a///b/", "ab");
    assert_eq!(r.find(Method::GET, &["a", "b"]).unwrap().0, "ab");
}

#[test]
fn segment_kinds() {
    assert!(matches!(parse_segment("user"), Segment::Static(n) if n == "user"));
    assert!(matches!(parse_segment("{id}"), Segment::Param(n) if n == "id"));
    assert!(matches!(parse_segment(":id"), Segment::Param(n) if n == "id"));
    assert!(matches!(parse_segment("{*path}"), Segment::CatchAll(n) if n == "path"));
    assert!(matches!(parse_segment("*path"), Segment::CatchAll(n) if n == "path"));
    assert!(matches!(parse_segment("{"), Segment::Static(n) if n == "{"));
    assert!(matches!(parse_segment("{}"), Segment::Param(n) if n.is_empty()));
}

#[test]
fn node_insert_and_find() {
    let mut n: Node<u8> = Node::new();
    n.insert(Method::HEAD, &["a", "{b}"], 3);
    let (h, p) = n.find(Method::HEAD, &["a", "z"]).unwrap();
    assert_eq!(h, 3);
    assert_eq!(names(&p), vec!["z"]);
    assert!(n.find(Method::GET, &["a", "z"]).is_none());
}

#[test]
fn single_route_answers_exactly_its_instances() {
    let mut r = Router::new();
    r.add(Method::GET, "/a/{x}/b/{*rest}", "only");
    let (h, p) = r.find(Method::GET, &["a", "1", "b", "c", "d"]).unwrap();
    assert_eq!(h, "only");
    assert_eq!(names(&p), vec!["1", "c/d"]);
    assert!(r.find(Method::GET, &["a", "1", "b"]).is_none());
    assert!(r.find(Method::GET, &["a", "1", "c", "d"]).is_none());
    assert!(r.find(Method::POST, &["a", "1", "b", "c"]).is_none());
}

#[test]
fn adding_a_route_keeps_lookups_of_other_paths() {
    let mut r = Router::new();
    r.add(Method::GET, "/user/{id}", "by_id");
    r.add(Method::GET, "/static/{*f}", "files");
    let before: Vec<Option<&str>> = [vec!["user", "5"], vec!["static", "a", "b"], vec!["user"]]
        .iter()
        .map(|q| r.find(Method::GET, q).map(|x| x.0))
        .collect();
    r.add(Method::GET, "/user/5/posts", "posts");
    r.add(Method::GET, "/static/a/c", "c");
    let after: Vec<Option<&str>> = [vec!["user", "5"], vec!["static", "a", "b"], vec!["user"]]
        .iter()
        .map(|q| r.find(Method::GET, q).map(|x| x.0))
        .collect();
    assert_eq!(before, after);
    assert_eq!(r.find(Method::GET, &["user", "5", "posts"]).unwrap().0, "posts");
}

#[test]
fn match_path_appends_captures_or_leaves_params_alone() {
    let mut n: Node<u8> = Node::new();
    n.insert(Method::GET, &["files", "{*path}"], 1);
    n.insert(Method::GET, &["user", "{id}"], 2);
    let mut params = vec!["kept".to_string()];
    assert_eq!(n.match_path(Method::GET, &["user", "9"], &mut params), Some(2));
    assert_eq!(names(&params), vec!["kept", "9"]);
    assert_eq!(n.match_path(Method::GET, &["files", "a", "b"], &mut params), Some(1));
    assert_eq!(names(&params), vec!["kept", "9", "a/b"]);
    assert_eq!(n.match_path(Method::POST, &["user", "9"], &mut params), None);
    assert_eq!(n.match_path(Method::GET, &["user"], &mut params), None);
    assert_eq!(names(&params), vec!["kept", "9", "a/b"]);
}

#[test]
fn best_of_many_routes_answers() {
    let mut r = Router::new();
    r.add(Method::GET, "/a/{x}/c", "param-then-static")
        .add(Method::GET, "/a/*rest", "catch")
        .add(Method::GET, "/{p}/b/{q}", "param-first")
        .add(Method::GET, "/a/b/{y}", "static-static-param")
        .add(Method::GET, "/a/:z/c", "param-then-static-again");
    let (h, p) = r.find(Method::GET, &["a", "b", "c"]).unwrap();
    assert_eq!(h, "static-static-param");
    assert_eq!(names(&p), vec!["c"]);
    let (h, p) = r.find(Method::GET, &["a", "x", "c"]).unwrap();
    assert_eq!(h, "param-then-static-again");
    assert_eq!(names(&p), vec!["x"]);
    let (h, p) = r.find(Method::GET, &["a", "x", "d"]).unwrap();
    assert_eq!(h, "catch");
    assert_eq!(names(&p), vec!["x/d"]);
    let (h, p) = r.find(Method::GET, &["z", "b", "1"]).unwrap();
    assert_eq!(h, "param-first");
    assert_eq!(names(&p), vec!["z", "1"]);
    assert!(r.find(Method::GET, &["z", "c", "1"]).is_none());
    assert!(r.find(Method::GET, &["a"]).is_none());
}

#[test]
fn cloned_router_answers_alike() {
    let mut r = Router::new();
    r.add(Method::GET, "/a/{x}", "param").add(Method::GET, "/a/b", "static").add(Method::POST, "/f/*rest", "catch");
    let c = r.clone();
    r.add(Method::GET, "/a/c", "later");
    assert_eq!(c.find(Method::GET, &["a", "b"]).unwrap().0, "static");
    let (h, p) = c.find(Method::GET, &["a", "c"]).unwrap();
    assert_eq!(h, "param");
    assert_eq!(names(&p), vec!["c"]);
    assert_eq!(names(&c.find(Method::POST, &["f", "x", "y"]).unwrap().1), vec!["x/y"]);
    assert_eq!(r.find(Method::GET, &["a", "c"]).unwrap().0, "later");
}
