//! The HTTP server: its configuration, the decisions it takes on each line of
//! a connection, and how it routes a parsed request.
pub mod text;
pub mod request;
pub mod response;
pub mod trie;
pub mod router;
pub mod precedence;

use vstd::prelude::*;
use vstd::string::*;
pub use request::{Request, Method};
pub use router::Router;
pub use response::Response;
use crate::http::request::{from, parse_request_spec, string_views, RequestView};
use crate::http::response::{starting_header, text as text_response};
use crate::http::text::{
    contains, decode_lossy, filter_non_empty, lead_count, trail_count, lossy_utf8, lowercase, non_empty, parse_usize, parse_usize_exec, split, split_char,
    split_once, split_once_char, starts_with, str_contains, str_eq, str_starts_with, to_lowercase, trim,
    trim_by, trim_chars, trim_end_by, trim_end_ws, trim_ws, views, Strip,
};
use crate::http::trie::empty_shape;
use crate::http::router::{law_slash_path_segments, lemma_slash_path_chars, plain_segments, slash_path};

verus! {

/// The most header lines a request may have.
pub const MAX_HEADER_LINES: usize = 100;

/// The longest header line, in bytes.
pub const MAX_LINE_LENGTH: usize = 8192;

/// The largest body accepted by default, in bytes.
pub const DEFAULT_MAX_BODY_SIZE: usize = 10485760;

/// The most room reserved for a body before any of it has been read, in
/// bytes; the buffer grows past it only as body bytes arrive.
pub const MAX_INITIAL_BODY_CAPACITY: usize = 65536;

/// `r` is the `text/html` response with code `code` and body `msg`.
pub open spec fn is_text(r: Response, code: u16, msg: Seq<char>) -> bool {
    &&& r.code == code
    &&& r.phrase is None
    &&& starting_header(r.header, seq!["text/html"@])
    &&& r.body matches Some(b) && b@ == trim(msg)
}

/// The server configuration: where it listens, its routes, whether it logs,
/// and the largest request body it accepts.
pub struct Server<H> {
    pub address: String,
    pub port: u16,
    pub router: Router<H>,
    pub logger_enabled: bool,
    pub max_body_size: usize,
}

impl<H: Copy> Default for Server<H> {
    /// A server with every setting at its zero value: empty address, port 0,
    /// no routes, no logging, no body accepted.
    fn default() -> (r: Self)
        ensures
            r.address@ == Seq::<char>::empty(),
            r.port == 0,
            r.router.root().shape() == empty_shape::<H>(),
            !r.logger_enabled,
            r.max_body_size == 0,
    {
        Server { address: String::new(), port: 0, router: Router::new(), logger_enabled: false, max_body_size: 0 }
    }
}

impl<H: Copy> Clone for Server<H> {
    /// A copy with the same settings and a router that answers every lookup
    /// as this one's does.
    fn clone(&self) -> (r: Self)
        ensures
            r.address == self.address,
            r.port == self.port,
            r.logger_enabled == self.logger_enabled,
            r.max_body_size == self.max_body_size,
            forall|m: Method, q: Seq<Seq<char>>| #[trigger] r.router.lookup(m, q) == self.router.lookup(m, q),
    {
        Server {
            address: self.address.clone(),
            port: self.port,
            router: self.router.clone(),
            logger_enabled: self.logger_enabled,
            max_body_size: self.max_body_size,
        }
    }
}

impl<H: Copy> Server<H> {
    /// The same server, accepting bodies of at most `size` bytes.
    pub fn with_max_body_size(self, size: usize) -> (r: Self)
        ensures
            r.max_body_size == size,
            r.address == self.address,
            r.port == self.port,
            r.router == self.router,
            r.logger_enabled == self.logger_enabled,
    {
        let mut s = self;
        s.max_body_size = size;
        s
    }

    /// A server for `address:port` with no routes, no logging and a body
    /// limit of 10 MiB.
    pub fn new(address: &str, port: u16) -> (r: Self)
        ensures
            r.address@ == address@,
            r.port == port,
            r.router.root().shape() == empty_shape::<H>(),
            !r.logger_enabled,
            r.max_body_size == 10 * 1024 * 1024,
    {
        Server {
            address: address.to_owned(),
            port,
            router: Router::new(),
            logger_enabled: false,
            max_body_size: DEFAULT_MAX_BODY_SIZE,
        }
    }

    /// The same server, logging each request.
    pub fn enable_logger(self) -> (r: Self)
        ensures
            r.logger_enabled,
            r.address == self.address,
            r.port == self.port,
            r.router == self.router,
            r.max_body_size == self.max_body_size,
    {
        let mut s = self;
        s.logger_enabled = true;
        s
    }

    /// The same server, with the routes of `router`.
    pub fn with_router(self, router: Router<H>) -> (r: Self)
        ensures
            r.router == router,
            r.address == self.address,
            r.port == self.port,
            r.logger_enabled == self.logger_enabled,
            r.max_body_size == self.max_body_size,
    {
        let mut s = self;
        s.router = router;
        s
    }
}

/// The path segments of a request route: the part before any `?`, without
/// leading and trailing `/`, split at `/`, empty pieces dropped.
pub open spec fn request_path(route: Seq<char>) -> Seq<Seq<char>> {
    let path = match split_once(route, '?') {
        Some(pq) => pq.0,
        None => route,
    };
    non_empty(split(trim_by(path, Strip::Char('/')), '/'))
}

/// `r` is what the routes of `router` decide for the request `req`: `405
/// Method Not Allowed` for an unknown method, the handler and captured
/// values of the route that the request path matches, or `404 Not Found`.
pub open spec fn routed<H>(router: Router<H>, req: RequestView, r: Outcome<H>) -> bool {
    match req.method {
        None => r matches Outcome::Respond(resp) && is_text(resp, 405, "Method Not Allowed"@),
        Some(m) => {
            let q = request_path(
                match req.route {
                    Some(s) => s,
                    None => Seq::empty(),
                },
            );
            match router.lookup(m, q) {
                Some(found) => r matches Outcome::Handle(h, ps) && h == found.0 && ps.deep_view() == found.1,
                None => r matches Outcome::Respond(resp) && is_text(resp, 404, "Not Found"@),
            }
        },
    }
}

/// Routing looks the request path up as written: for a request whose route
/// is `/s1/s2/...`, with or without a `?` and a query after it, the router is
/// asked for exactly the segments `s1`, `s2`, ..., character for character,
/// and the handler and captured values it finds are what the request gets;
/// when it finds nothing the answer is `404 Not Found`.
pub proof fn law_route_path_verbatim<H>(
    router: Router<H>,
    req: RequestView,
    r: Outcome<H>,
    m: Method,
    q: Seq<Seq<char>>,
    query: Option<Seq<char>>,
)
    requires
        routed(router, req, r),
        req.method == Some(m),
        plain_segments(q),
        req.route == Some(
            match query {
                Some(t) => slash_path(q) + seq!['?'] + t,
                None => slash_path(q),
            },
        ),
    ensures
        match router.lookup(m, q) {
            Some(found) => r matches Outcome::Handle(h, ps) && h == found.0 && ps.deep_view() == found.1,
            None => r matches Outcome::Respond(resp) && is_text(resp, 404, "Not Found"@),
        },
{
    let p = slash_path(q);
    lemma_slash_path_chars(q);
    law_slash_path_segments(q);
    let route = req.route.unwrap();
    match query {
        Some(t) => {
            assert(route[p.len() as int] == '?');
            assert forall|j: int| 0 <= j < p.len() implies route[j] != '?' by {
                assert(route[j] == p[j]);
            }
            crate::http::text::lemma_index_of_found(route, '?', p.len() as int);
            assert(route.take(p.len() as int) =~= p);
        },
        None => {
            crate::http::text::lemma_index_of_absent(route, '?');
        },
    }
    let k = Strip::Char('/');
    if q.len() == 0 {
        assert(trim_by(p, k) =~= p);
    } else {
        let inner = q[0] + slash_path(q.drop_first());
        assert(p.drop_first() =~= inner);
        assert(inner[0] == q[0][0]);
        assert(lead_count(inner, k) == 0);
        assert(lead_count(p, k) == 1);
        assert(p.skip(1) =~= inner);
        assert(inner.last() == p.last());
        assert(trail_count(inner, k) == 0);
        assert(trim_by(p, k) =~= inner);
        crate::http::router::lemma_split_segments(q);
        crate::http::router::lemma_non_empty_plain(q);
    }
}

/// What the server does with a parsed request.
pub enum Outcome<H> {
    /// Sends this response.
    Respond(Response),
    /// Calls this handler with the request and these captured values.
    Handle(H, Vec<String>),
}

impl<H: Copy> Server<H> {
    /// Routes a parsed request: `405 Method Not Allowed` for an unknown
    /// method, the handler and captured values of the route that matches, or
    /// `404 Not Found`.
    pub fn route(&self, req: &Request) -> (r: Outcome<H>)
        ensures
            routed(self.router, req@, r),
    {
        let http_route = req.get_route();
        let clean_route: &str = match split_once_char(http_route, '?') {
            Some((path, _query_string)) => path,
            None => http_route,
        };
        let trimmed = trim_chars(clean_route, Strip::Char('/'));
        let pieces = split_char(trimmed, '/');
        let path_parts = filter_non_empty(&pieces);
        let method = match req.get_method() {
            Some(met) => met,
            None => {
                return Outcome::Respond(text_response(405, "Method Not Allowed"));
            },
        };
        match self.router.find(method, path_parts.as_slice()) {
            Some((handler, params)) => Outcome::Handle(handler, params),
            None => Outcome::Respond(text_response(404, "Not Found")),
        }
    }

    /// Parses the lines of a request (request line, header lines, body) and
    /// routes it; `None` when the lines are not a request.
    pub fn dispatch(&self, lines: &[String]) -> (r: Option<(Request, Outcome<H>)>)
        ensures
            match parse_request_spec(string_views(lines@)) {
                None => r is None,
                Some(v) => r matches Some(x) && x.0@ == v && routed(self.router, v, x.1),
            },
    {
        match crate::http::request::parse_request(lines) {
            Some(_) => {
                let req = from(lines);
                let outcome = self.route(&req);
                Some((req, outcome))
            },
            None => None,
        }
    }
}

/// What the server has read of the request head on a connection so far.
pub struct ConnectionState {
    /// The header lines read so far, without trailing whitespace.
    pub lines: Vec<String>,
    /// The value of the last `Content-Length` header.
    pub content_length: Option<usize>,
    /// A `Connection` header asked to close.
    pub close_requested: bool,
    /// A `Connection` header asked to keep the connection alive.
    pub keep_alive_requested: bool,
    /// The request line names HTTP/1.0.
    pub is_http_1_0: bool,
}

/// What to do after a header line.
pub enum LineStep {
    /// Read the next header line.
    Continue,
    /// The head is complete; read the body.
    HeadersDone,
    /// Send this response and close the connection.
    Reject(Response),
}

/// What to do once the head is complete.
pub enum BodyPlan {
    /// Send this response and close the connection.
    Reject(Response),
    /// Read `length` bytes of body into a buffer that starts with room for
    /// `capacity` bytes, dispatch, then close the connection when `close`
    /// holds, else read the next request.
    Read { length: usize, close: bool, capacity: usize },
}

/// The value of a `name: value` header line, as `line.split(':').nth(1)` gives
/// it: the text between the first and the second `:`.
pub open spec fn second_piece(line: Seq<char>) -> Option<Seq<char>> {
    let pieces = split(line, ':');
    if pieces.len() > 1 {
        Some(pieces[1])
    } else {
        None
    }
}

/// The state after the header line `line` was accepted, given `lower`, the
/// line in lower case, and `value_lower`, its trimmed value (see
/// `second_piece`) in lower case: the first line tells whether the request is
/// HTTP/1.0, a `Content-Length` line gives the body length, a `Connection`
/// line asks to close or to keep the connection alive, and the line is kept
/// without its trailing whitespace.
pub open spec fn after_lowered(
    lines: Seq<Seq<char>>,
    content_length: Option<usize>,
    close: bool,
    keep_alive: bool,
    http10: bool,
    line: Seq<char>,
    lower: Seq<char>,
    value_lower: Seq<char>,
) -> (Seq<Seq<char>>, Option<usize>, bool, bool, bool) {
    let http10_2 = http10 || (lines.len() == 0 && contains(lower, "http/1.0"@));
    let content_length_2 = if starts_with(lower, "content-length:"@) && second_piece(line) is Some {
        parse_usize(trim(second_piece(line).unwrap()))
    } else {
        content_length
    };
    let is_conn = starts_with(lower, "connection:"@) && second_piece(line) is Some;
    let close_2 = close || (is_conn && contains(value_lower, "close"@));
    let keep_alive_2 = keep_alive || (is_conn && contains(value_lower, "keep-alive"@));
    (lines.push(trim_end_by(line, Strip::Whitespace)), content_length_2, close_2, keep_alive_2, http10_2)
}

/// The trimmed value of the header line `line` in lower case (empty when the
/// line has no `:`).
pub open spec fn value_lowercase(line: Seq<char>) -> Seq<char> {
    match second_piece(line) {
        Some(v) => lowercase(trim(v)),
        None => Seq::empty(),
    }
}

/// The state after the header line `line` was accepted.
pub open spec fn after_line(
    lines: Seq<Seq<char>>,
    content_length: Option<usize>,
    close: bool,
    keep_alive: bool,
    http10: bool,
    line: Seq<char>,
) -> (Seq<Seq<char>>, Option<usize>, bool, bool, bool) {
    after_lowered(lines, content_length, close, keep_alive, http10, line, lowercase(line), value_lowercase(line))
}

/// The flags of a head only ever get set: once the request line has named
/// HTTP/1.0, or a `Connection` header has asked to close or to keep the
/// connection alive, every later accepted line leaves that so; and the first
/// line sets the HTTP/1.0 flag when it names HTTP/1.0, in any case.
pub proof fn law_head_flags_stay_set(
    lines: Seq<Seq<char>>,
    content_length: Option<usize>,
    close: bool,
    keep_alive: bool,
    http10: bool,
    line: Seq<char>,
    lower: Seq<char>,
    value_lower: Seq<char>,
)
    ensures
        http10 ==> after_lowered(lines, content_length, close, keep_alive, http10, line, lower, value_lower).4,
        close ==> after_lowered(lines, content_length, close, keep_alive, http10, line, lower, value_lower).2,
        keep_alive ==> after_lowered(lines, content_length, close, keep_alive, http10, line, lower, value_lower).3,
        lines.len() == 0 && contains(lower, "http/1.0"@) ==> after_lowered(
            lines,
            content_length,
            close,
            keep_alive,
            http10,
            line,
            lower,
            value_lower,
        ).4,
        after_lowered(lines, content_length, close, keep_alive, http10, line, lower, value_lower).0 == lines.push(
            trim_end_by(line, Strip::Whitespace),
        ),
{
}

/// A header line of `bytes_read` bytes reached the length limit without its
/// line break.
pub open spec fn too_long(line: Seq<char>, bytes_read: usize) -> bool {
    bytes_read >= MAX_LINE_LENGTH && !(line.len() > 0 && line.last() == '\n')
}

/// The header line `line`, whose lower-case form is `lower`, is a
/// `Content-Length` line with a value that is no `usize`.
pub open spec fn bad_length_lowered(line: Seq<char>, lower: Seq<char>) -> bool {
    &&& starts_with(lower, "content-length:"@)
    &&& second_piece(line) is Some
    &&& parse_usize(trim(second_piece(line).unwrap())) is None
}

/// The `Content-Length` header line `line` has a value that is no `usize`.
pub open spec fn bad_length(line: Seq<char>) -> bool {
    bad_length_lowered(line, lowercase(line))
}

impl ConnectionState {
    /// The state at the start of a request: nothing read.
    pub fn new() -> (r: Self)
        ensures
            r.lines@.len() == 0,
            r.content_length is None,
            !r.close_requested,
            !r.keep_alive_requested,
            !r.is_http_1_0,
    {
        ConnectionState {
            lines: Vec::new(),
            content_length: None,
            close_requested: false,
            keep_alive_requested: false,
            is_http_1_0: false,
        }
    }

    /// Before reading a header line: `431` when the head already has the
    /// most lines allowed.
    pub fn before_line(&self) -> (r: Option<Response>)
        ensures
            match r {
                Some(resp) => self.lines@.len() >= MAX_HEADER_LINES && is_text(
                    resp,
                    431,
                    "Request Header Fields Too Large"@,
                ),
                None => self.lines@.len() < MAX_HEADER_LINES,
            },
    {
        if self.lines.len() >= MAX_HEADER_LINES {
            Some(text_response(431, "Request Header Fields Too Large"))
        } else {
            None
        }
    }

    /// When reading a header line failed: `408` when it timed out after part
    /// of the head was read; otherwise the connection closes without a reply.
    pub fn on_read_error(&self, timed_out: bool) -> (r: Option<Response>)
        ensures
            match r {
                Some(resp) => timed_out && self.lines@.len() > 0 && is_text(resp, 408, "Request Timeout"@),
                None => !timed_out || self.lines@.len() == 0,
            },
    {
        if timed_out && !self.lines.is_empty() {
            Some(text_response(408, "Request Timeout"))
        } else {
            None
        }
    }

    /// Takes in a header line `line` of `bytes_read` bytes (its line break
    /// included): `431` for an over-long line, the end of the head at a blank
    /// line, `400` for a `Content-Length` that is no number; otherwise the line
    /// is recorded with what it says of the HTTP version, the body length and
    /// the connection.
    pub fn on_line(&mut self, line: &str, bytes_read: usize) -> (r: LineStep)
        ensures
            old(self).is_http_1_0 ==> final(self).is_http_1_0,
            old(self).close_requested ==> final(self).close_requested,
            old(self).keep_alive_requested ==> final(self).keep_alive_requested,
            if too_long(line@, bytes_read) {
                &&& r matches LineStep::Reject(resp) && is_text(resp, 431, "Request Header Fields Too Large"@)
                &&& *final(self) == *old(self)
            } else if line@ == "\r\n"@ || line@ == "\n"@ {
                &&& r is HeadersDone
                &&& *final(self) == *old(self)
            } else if bad_length(line@) {
                &&& r matches LineStep::Reject(resp) && is_text(resp, 400, "Bad Request: Invalid Content-Length"@)
                &&& *final(self) == *old(self)
            } else {
                &&& r is Continue
                &&& final(self).lines@.len() == old(self).lines@.len() + 1
                &&& (final(self).lines.deep_view(), final(self).content_length, final(self).close_requested,
                    final(self).keep_alive_requested, final(self).is_http_1_0) == after_line(
                    old(self).lines.deep_view(),
                    old(self).content_length,
                    old(self).close_requested,
                    old(self).keep_alive_requested,
                    old(self).is_http_1_0,
                    line@,
                )
            },
    {
        let cs = crate::http::text::chars_of(line);
        let n = cs.len();
        let ends_nl = n > 0 && cs[n - 1] == '\n';
        if bytes_read >= MAX_LINE_LENGTH && !ends_nl {
            return LineStep::Reject(text_response(431, "Request Header Fields Too Large"));
        }
        if str_eq(line, "\r\n") || str_eq(line, "\n") {
            return LineStep::HeadersDone;
        }
        let lower = to_lowercase(line);
        let pieces = split_char(line, ':');
        proof {
            assert(views(pieces@).len() == pieces@.len());
        }
        let value_lower = if pieces.len() > 1 {
            proof {
                assert(views(pieces@)[1] == pieces@[1]@);
            }
            to_lowercase(trim_ws(pieces[1]))
        } else {
            String::new()
        };
        self.on_header(line, lower.as_str(), value_lower.as_str())
    }

    /// Takes in the header line `line`, given `lower`, the line in lower case,
    /// and `value_lower`, its trimmed value (see `second_piece`) in lower case,
    /// which is not read when the line has no `:`: `400` for a
    /// `Content-Length` that is no number, leaving the state as it was;
    /// otherwise the line is recorded as `after_lowered` says.
    pub fn on_header(&mut self, line: &str, lower: &str, value_lower: &str) -> (r: LineStep)
        ensures
            old(self).is_http_1_0 ==> final(self).is_http_1_0,
            old(self).close_requested ==> final(self).close_requested,
            old(self).keep_alive_requested ==> final(self).keep_alive_requested,
            if bad_length_lowered(line@, lower@) {
                &&& r matches LineStep::Reject(resp) && is_text(resp, 400, "Bad Request: Invalid Content-Length"@)
                &&& *final(self) == *old(self)
            } else {
                &&& r is Continue
                &&& final(self).lines@.len() == old(self).lines@.len() + 1
                &&& (final(self).lines.deep_view(), final(self).content_length, final(self).close_requested,
                    final(self).keep_alive_requested, final(self).is_http_1_0) == after_lowered(
                    old(self).lines.deep_view(),
                    old(self).content_length,
                    old(self).close_requested,
                    old(self).keep_alive_requested,
                    old(self).is_http_1_0,
                    line@,
                    lower@,
                    value_lower@,
                )
            },
    {
        let pieces = split_char(line, ':');
        proof {
            assert(views(pieces@).len() == pieces@.len());
        }
        let mut content_length = self.content_length;
        if str_starts_with(lower, "content-length:") {
            if pieces.len() > 1 {
                proof {
                    assert(views(pieces@)[1] == pieces@[1]@);
                }
                match parse_usize_exec(trim_ws(pieces[1])) {
                    Some(len) => content_length = Some(len),
                    None => {
                        return LineStep::Reject(text_response(400, "Bad Request: Invalid Content-Length"));
                    },
                }
            }
        }
        if self.lines.is_empty() && str_contains(lower, "http/1.0") {
            self.is_http_1_0 = true;
        }
        self.content_length = content_length;
        if str_starts_with(lower, "connection:") {
            if pieces.len() > 1 {
                if str_contains(value_lower, "close") {
                    self.close_requested = true;
                }
                if str_contains(value_lower, "keep-alive") {
                    self.keep_alive_requested = true;
                }
            }
        }
        let kept = trim_end_ws(line).to_owned();
        let ghost prev = self.lines.deep_view();
        self.lines.push(kept);
        proof {
            assert(self.lines.deep_view() =~= prev.push(kept@));
        }
        LineStep::Continue
    }

    /// The lines handed on for parsing once the body `body` has been read:
    /// the recorded head lines, then the body decoded from UTF-8 with U+FFFD
    /// in place of each invalid sequence.
    pub fn request_lines(self, body: &[u8]) -> (r: Vec<String>)
        ensures
            r.deep_view() == self.lines.deep_view().push(lossy_utf8(body@)),
    {
        let text = decode_lossy(body);
        let mut lines = self.lines;
        let ghost prev = lines.deep_view();
        let ghost t = text@;
        lines.push(text);
        proof {
            assert(lines.deep_view() =~= prev.push(t));
        }
        lines
    }

    /// Once the head is complete: `413` when the announced body is larger
    /// than `max_body_size`; otherwise read that many bytes (none when no
    /// length was given), and close afterwards when HTTP/1.0 did not ask to
    /// keep the connection alive or HTTP/1.1 asked to close it. The room
    /// reserved for the body up front is the announced length, but never more
    /// than `MAX_INITIAL_BODY_CAPACITY`; nothing is reserved for a body that is
    /// refused.
    pub fn body_plan(&self, max_body_size: usize) -> (r: BodyPlan)
        ensures
            ({
                let length = match self.content_length {
                    Some(l) => l,
                    None => 0,
                };
                let close = if self.is_http_1_0 {
                    !self.keep_alive_requested
                } else {
                    self.close_requested
                };
                if length > max_body_size {
                    r matches BodyPlan::Reject(resp) && is_text(resp, 413, "Payload Too Large"@)
                } else {
                    r == (BodyPlan::Read {
                        length,
                        close,
                        capacity: if length <= MAX_INITIAL_BODY_CAPACITY {
                            length
                        } else {
                            MAX_INITIAL_BODY_CAPACITY
                        },
                    })
                }
            }),
            r matches BodyPlan::Read { length, close, capacity } ==> length <= max_body_size
                && capacity <= length && capacity <= MAX_INITIAL_BODY_CAPACITY,
    {
        let should_close = if self.is_http_1_0 {
            !self.keep_alive_requested
        } else {
            self.close_requested
        };
        let content_length = match self.content_length {
            Some(l) => l,
            None => 0,
        };
        if content_length > max_body_size {
            BodyPlan::Reject(text_response(413, "Payload Too Large"))
        } else {
            let capacity = if content_length <= MAX_INITIAL_BODY_CAPACITY {
                content_length
            } else {
                MAX_INITIAL_BODY_CAPACITY
            };
            BodyPlan::Read { length: content_length, close: should_close, capacity }
        }
    }
}

/// When reading the body failed: `408` when it timed out, `400` otherwise.
pub fn on_body_error(timed_out: bool) -> (r: Response)
    ensures
        timed_out ==> is_text(r, 408, "Request Timeout: Slow Body"@),
        !timed_out ==> is_text(r, 400, "Bad Request: Incomplete Body"@),
{
    if timed_out {
        text_response(408, "Request Timeout: Slow Body")
    } else {
        text_response(400, "Bad Request: Incomplete Body")
    }
}

} // verus!
