//! HTTP Response utilities and builders.
//!
//! This module provides the `Response` structure and shorthand functions
//! like `text()` and `json()` to construct standard HTTP responses quickly.
use vstd::prelude::*;
use vstd::string::*;
use crate::http::text::{
    contains, decimal, format_decimal, format_signed_decimal, index_of, occurs_at, join, join_strings, lemma_index_of_absent,
    lemma_index_of_found, lemma_push_no_duplicates, no_duplicates, signed_decimal, trim, trim_ws,
};

verus! {

/// The number of bytes in the UTF-8 encoding of `s`.
pub open spec fn utf8_len(s: Seq<char>) -> nat {
    vstd::utf8::encode_utf8(s).len()
}

/// Values stored by name, each name at most once, in the order in which the
/// names were first set.
pub struct Entries<V> {
    items: Vec<(String, V)>,
}

/// The names of a list of entries, in order.
pub open spec fn entry_names<V>(es: Seq<(String, V)>) -> Seq<Seq<char>> {
    es.map_values(|p: (String, V)| p.0@)
}

/// The entries `es` after `name` is set to `value`: the entry of that name
/// takes the new value where it stands, or a new entry is appended.
pub open spec fn set_entry<V>(es: Seq<(String, V)>, name: String, value: V) -> Seq<(String, V)> {
    let i = index_of(entry_names(es), name@);
    if 0 <= i < es.len() {
        es.update(i, (name, value))
    } else {
        es.push((name, value))
    }
}

impl<V> View for Entries<V> {
    type V = Seq<(String, V)>;

    /// The entries, in order.
    closed spec fn view(&self) -> Seq<(String, V)> {
        self.items@
    }
}

impl<V> Entries<V> {
    /// No name occurs twice.
    #[verifier::type_invariant]
    closed spec fn inv(self) -> bool {
        no_duplicates(entry_names(self.items@))
    }

    /// No entries.
    pub fn new() -> (r: Self)
        ensures
            r@ == Seq::<(String, V)>::empty(),
    {
        let r = Entries { items: Vec::new() };
        proof {
            assert(entry_names(r.items@) =~= Seq::<Seq<char>>::empty());
        }
        r
    }

    /// Sets `name` to `value`, replacing the value the name had.
    pub fn set(&mut self, name: String, value: V)
        ensures
            final(self)@ == set_entry(old(self)@, name, value),
    {
        proof {
            use_type_invariant(&*self);
        }
        let mut items: Vec<(String, V)> = Vec::new();
        std::mem::swap(&mut items, &mut self.items);
        let ghost before = items@;
        let n = items.len();
        let mut j: usize = 0;
        while j < n
            invariant
                n == items@.len(),
                items@ == before,
                before == old(self)@,
                no_duplicates(entry_names(before)),
                j <= n,
                forall|k: int| 0 <= k < j ==> entry_names(items@)[k] != name@,
            decreases n - j,
        {
            if items[j].0 == name {
                proof {
                    lemma_index_of_found(entry_names(items@), name@, j as int);
                }
                items.set(j, (name, value));
                proof {
                    assert(entry_names(items@) =~= entry_names(before));
                }
                self.items = items;
                return;
            }
            j = j + 1;
        }
        proof {
            lemma_index_of_absent(entry_names(items@), name@);
            lemma_push_no_duplicates(entry_names(items@), name@);
        }
        let ghost nm = name@;
        items.push((name, value));
        proof {
            assert(entry_names(items@) =~= entry_names(before).push(nm));
        }
        self.items = items;
    }

    /// The entries, in order; no name occurs twice.
    pub fn items(&self) -> (r: &Vec<(String, V)>)
        ensures
            r@ == self@,
            no_duplicates(entry_names(r@)),
    {
        proof {
            use_type_invariant(self);
        }
        &self.items
    }
}

/// The response headers.
pub struct Header {
    /// Protocol like `HTTP/1.1`.
    pub protocol: Option<String>,
    pub access_control_allow_origin: Option<String>,
    pub connection: Option<String>,
    pub content_encoding: Option<Vec<String>>,
    pub content_type: Option<Vec<String>>,
    pub date: Option<String>,
    pub etag: Option<String>,
    /// `Keep-Alive` parameters by name.
    pub keep_alive: Option<Entries<i32>>,
    pub last_modified: Option<String>,
    pub server: Option<String>,
    /// Cookies to set, by name.
    pub set_cookie: Option<Entries<String>>,
    pub transfer_encoding: Option<String>,
    pub vary: Option<Vec<String>>,
    pub x_backend_server: Option<String>,
    pub x_cache_info: Option<String>,
    pub x_kuma_revision: Option<i32>,
    pub x_frame_options: Option<String>,
}

/// An HTTP response: status code, reason phrase, headers and body.
pub struct Response {
    pub code: u16,
    pub phrase: Option<String>,
    pub header: Header,
    pub body: Option<String>,
}

/// `name: value` and a line break, when there is a value.
pub open spec fn opt_line(name: Seq<char>, value: Option<String>) -> Seq<char> {
    match value {
        Some(v) => name + ": "@ + v@ + "\r\n"@,
        None => Seq::empty(),
    }
}

/// `name: ` and the values joined with `, `, and a line break, when there are values.
pub open spec fn list_line(name: Seq<char>, value: Option<Vec<String>>) -> Seq<char> {
    match value {
        Some(v) => name + ": "@ + join(v.deep_view(), ", "@) + "\r\n"@,
        None => Seq::empty(),
    }
}

/// `name=value` for each `Keep-Alive` parameter.
pub open spec fn keep_alive_items(kv: Seq<(String, i32)>) -> Seq<Seq<char>> {
    kv.map_values(|p: (String, i32)| p.0@ + "="@ + signed_decimal(p.1 as int))
}

/// A `Set-Cookie: name=value` line for each cookie, in order.
pub open spec fn cookie_lines(cs: Seq<(String, String)>) -> Seq<char>
    decreases cs.len(),
{
    if cs.len() == 0 {
        Seq::empty()
    } else {
        cookie_lines(cs.drop_last()) + "Set-Cookie: "@ + cs.last().0@ + "="@ + cs.last().1@ + "\r\n"@
    }
}

impl Response {
    /// The status line: protocol (`HTTP/1.1` when unset), code and phrase.
    pub open spec fn status_line(self) -> Seq<char> {
        let protocol = match self.header.protocol {
            Some(p) => p@,
            None => "HTTP/1.1"@,
        };
        let phrase = match self.phrase {
            Some(p) => p@,
            None => Seq::empty(),
        };
        protocol + " "@ + decimal(self.code as nat) + " "@ + phrase + "\r\n"@
    }

    /// The `Content-Length` line (the body's length in bytes), when there is a body.
    pub open spec fn length_line(self) -> Seq<char> {
        match self.body {
            Some(b) => "Content-Length: "@ + decimal(utf8_len(b@)) + "\r\n"@,
            None => Seq::empty(),
        }
    }

    /// The single-valued header lines, in their fixed order.
    pub open spec fn plain_lines(self) -> Seq<char> {
        let h = self.header;
        opt_line("Access-Control-Allow-Origin"@, h.access_control_allow_origin) + opt_line(
            "Connection"@,
            h.connection,
        ) + opt_line("Date"@, h.date) + opt_line("Last-Modified"@, h.last_modified) + opt_line(
            "Server"@,
            h.server,
        ) + opt_line("Transfer-Encoding"@, h.transfer_encoding) + opt_line(
            "X-Backend-Server"@,
            h.x_backend_server,
        ) + opt_line("X-Cache-Info"@, h.x_cache_info) + opt_line("X-Frame-Options"@, h.x_frame_options)
    }

    /// The `ETag` line (quoted) and the `X-kuma-revision` line.
    pub open spec fn tag_lines(self) -> Seq<char> {
        let e = match self.header.etag {
            Some(t) => "ETag: \""@ + t@ + "\"\r\n"@,
            None => Seq::empty(),
        };
        let r = match self.header.x_kuma_revision {
            Some(v) => "X-kuma-revision: "@ + signed_decimal(v as int) + "\r\n"@,
            None => Seq::empty(),
        };
        e + r
    }

    /// The list-valued header lines, `Keep-Alive` and the `Set-Cookie` lines.
    pub open spec fn list_lines(self) -> Seq<char> {
        let h = self.header;
        let lists = list_line("Content-Encoding"@, h.content_encoding) + list_line(
            "Content-Type"@,
            h.content_type,
        ) + list_line("Vary"@, h.vary);
        let ka = match h.keep_alive {
            Some(kv) => "Keep-Alive: "@ + join(keep_alive_items(kv@), ", "@) + "\r\n"@,
            None => Seq::empty(),
        };
        let ck = match h.set_cookie {
            Some(cs) => cookie_lines(cs@),
            None => Seq::empty(),
        };
        lists + ka + ck
    }

    /// The response as text on the wire: status line, header lines, a blank
    /// line and the body.
    pub open spec fn wire(self) -> Seq<char> {
        let body = match self.body {
            Some(b) => b@,
            None => Seq::empty(),
        };
        self.status_line() + self.length_line() + self.plain_lines() + self.tag_lines() + self.list_lines()
            + "\r\n"@ + body
    }
}

fn push_opt_line(res: &mut String, name: &str, value: &Option<String>)
    ensures
        final(res)@ == old(res)@ + opt_line(name@, *value),
{
    match value {
        Some(v) => {
            res.append(name);
            res.append(": ");
            res.append(v.as_str());
            res.append("\r\n");
        },
        None => {},
    }
}

fn push_list_line(res: &mut String, name: &str, value: &Option<Vec<String>>)
    ensures
        final(res)@ == old(res)@ + list_line(name@, *value),
{
    match value {
        Some(v) => {
            let joined = join_strings(v, ", ");
            res.append(name);
            res.append(": ");
            res.append(joined.as_str());
            res.append("\r\n");
        },
        None => {},
    }
}

fn keep_alive_strings(kv: &Vec<(String, i32)>) -> (r: Vec<String>)
    ensures
        r.deep_view() == keep_alive_items(kv@),
{
    let n = kv.len();
    let mut out: Vec<String> = Vec::new();
    let mut i: usize = 0;
    while i < n
        invariant
            n == kv@.len(),
            i <= n,
            out.deep_view() == keep_alive_items(kv@).take(i as int),
        decreases n - i,
    {
        let mut item = String::new();
        item.append(kv[i].0.as_str());
        item.append("=");
        let v = format_signed_decimal(kv[i].1 as i64);
        item.append(v.as_str());
        let ghost prev = out.deep_view();
        out.push(item);
        proof {
            assert(out.deep_view() =~= prev.push(item@));
            assert(keep_alive_items(kv@).take(i + 1) =~= keep_alive_items(kv@).take(i as int).push(item@));
        }
        i = i + 1;
    }
    proof {
        assert(keep_alive_items(kv@).take(n as int) =~= keep_alive_items(kv@));
    }
    out
}

fn push_cookie_lines(res: &mut String, cs: &Vec<(String, String)>)
    ensures
        final(res)@ == old(res)@ + cookie_lines(cs@),
{
    let n = cs.len();
    let mut i: usize = 0;
    proof {
        assert(cs@.take(0) =~= Seq::<(String, String)>::empty());
        assert(res@ =~= old(res)@ + cookie_lines(cs@.take(0)));
    }
    while i < n
        invariant
            n == cs@.len(),
            i <= n,
            res@ == old(res)@ + cookie_lines(cs@.take(i as int)),
        decreases n - i,
    {
        res.append("Set-Cookie: ");
        res.append(cs[i].0.as_str());
        res.append("=");
        res.append(cs[i].1.as_str());
        res.append("\r\n");
        proof {
            let t = cs@.take(i + 1);
            assert(t.drop_last() =~= cs@.take(i as int));
            assert(t.last() == cs@[i as int]);
            assert(res@ =~= old(res)@ + cookie_lines(t));
        }
        i = i + 1;
    }
    proof {
        assert(cs@.take(n as int) =~= cs@);
    }
}

impl Response {
    fn push_status_line(&self, res: &mut String)
        ensures
            final(res)@ == old(res)@ + self.status_line(),
    {
        match &self.header.protocol {
            Some(p) => res.append(p.as_str()),
            None => res.append("HTTP/1.1"),
        }
        res.append(" ");
        let code = format_decimal(self.code as u64);
        res.append(code.as_str());
        res.append(" ");
        match &self.phrase {
            Some(p) => res.append(p.as_str()),
            None => {},
        }
        res.append("\r\n");
        proof {
            assert(res@ =~= old(res)@ + self.status_line());
        }
    }

    fn push_length_line(&self, res: &mut String)
        ensures
            final(res)@ == old(res)@ + self.length_line(),
    {
        match &self.body {
            Some(b) => {
                let s: &str = b.as_str();
                let bytes: &[u8] = s.as_bytes();
                let n: usize = bytes.len();
                proof {
                    assert(n == utf8_len(b@));
                }
                let len = format_decimal(n as u64);
                res.append("Content-Length: ");
                res.append(len.as_str());
                res.append("\r\n");
                proof {
                    assert(res@ =~= old(res)@ + self.length_line());
                }
            },
            None => {
                proof {
                    assert(res@ =~= old(res)@ + self.length_line());
                }
            },
        }
    }

    fn push_plain_lines(&self, res: &mut String)
        ensures
            final(res)@ == old(res)@ + self.plain_lines(),
    {
        push_opt_line(res, "Access-Control-Allow-Origin", &self.header.access_control_allow_origin);
        push_opt_line(res, "Connection", &self.header.connection);
        push_opt_line(res, "Date", &self.header.date);
        push_opt_line(res, "Last-Modified", &self.header.last_modified);
        push_opt_line(res, "Server", &self.header.server);
        push_opt_line(res, "Transfer-Encoding", &self.header.transfer_encoding);
        push_opt_line(res, "X-Backend-Server", &self.header.x_backend_server);
        push_opt_line(res, "X-Cache-Info", &self.header.x_cache_info);
        push_opt_line(res, "X-Frame-Options", &self.header.x_frame_options);
        proof {
            assert(res@ =~= old(res)@ + self.plain_lines());
        }
    }

    fn push_tag_lines(&self, res: &mut String)
        ensures
            final(res)@ == old(res)@ + self.tag_lines(),
    {
        match &self.header.etag {
            Some(t) => {
                res.append("ETag: \"");
                res.append(t.as_str());
                res.append("\"\r\n");
            },
            None => {},
        }
        let ghost mid = res@;
        match self.header.x_kuma_revision {
            Some(v) => {
                let rev = format_signed_decimal(v as i64);
                res.append("X-kuma-revision: ");
                res.append(rev.as_str());
                res.append("\r\n");
            },
            None => {},
        }
        proof {
            assert(res@ =~= old(res)@ + self.tag_lines());
        }
    }

    fn push_list_lines(&self, res: &mut String)
        ensures
            final(res)@ == old(res)@ + self.list_lines(),
    {
        push_list_line(res, "Content-Encoding", &self.header.content_encoding);
        push_list_line(res, "Content-Type", &self.header.content_type);
        push_list_line(res, "Vary", &self.header.vary);
        let ghost mid = res@;
        match &self.header.keep_alive {
            Some(kv) => {
                let items = keep_alive_strings(kv.items());
                let joined = join_strings(&items, ", ");
                res.append("Keep-Alive: ");
                res.append(joined.as_str());
                res.append("\r\n");
            },
            None => {},
        }
        match &self.header.set_cookie {
            Some(cs) => push_cookie_lines(res, cs.items()),
            None => {},
        }
        proof {
            assert(res@ =~= old(res)@ + self.list_lines());
        }
    }

    /// The response as text on the wire.
    pub fn to_string(&self) -> (r: String)
        ensures
            r@ == self.wire(),
    {
        let mut res = String::new();
        self.push_status_line(&mut res);
        self.push_length_line(&mut res);
        self.push_plain_lines(&mut res);
        self.push_tag_lines(&mut res);
        self.push_list_lines(&mut res);
        res.append("\r\n");
        match &self.body {
            Some(b) => res.append(b.as_str()),
            None => {},
        }
        proof {
            assert(res@ =~= self.wire());
        }
        res
    }
}

/// The headers that `text` and `json` start from: protocol `HTTP/1.1`, the
/// given content types, and nothing else.
pub open spec fn starting_header(h: Header, content_type: Seq<Seq<char>>) -> bool {
    &&& h.protocol matches Some(p) && p@ == "HTTP/1.1"@
    &&& h.content_type matches Some(ct) && ct.deep_view() == content_type
    &&& h.access_control_allow_origin is None
    &&& h.connection is None
    &&& h.content_encoding is None
    &&& h.date is None
    &&& h.etag is None
    &&& h.keep_alive is None
    &&& h.last_modified is None
    &&& h.server is None
    &&& h.set_cookie is None
    &&& h.transfer_encoding is None
    &&& h.vary is None
    &&& h.x_backend_server is None
    &&& h.x_cache_info is None
    &&& h.x_kuma_revision is None
    &&& h.x_frame_options is None
}

/// `a` and `b` agree on every header but the protocol.
pub open spec fn same_but_protocol(a: Header, b: Header) -> bool {
    &&& a.access_control_allow_origin == b.access_control_allow_origin
    &&& a.connection == b.connection
    &&& a.content_encoding == b.content_encoding
    &&& a.content_type == b.content_type
    &&& a.date == b.date
    &&& a.etag == b.etag
    &&& a.keep_alive == b.keep_alive
    &&& a.last_modified == b.last_modified
    &&& a.server == b.server
    &&& a.set_cookie == b.set_cookie
    &&& a.transfer_encoding == b.transfer_encoding
    &&& a.vary == b.vary
    &&& a.x_backend_server == b.x_backend_server
    &&& a.x_cache_info == b.x_cache_info
    &&& a.x_kuma_revision == b.x_kuma_revision
    &&& a.x_frame_options == b.x_frame_options
}

fn starting(content_type: Vec<String>) -> (h: Header)
    ensures
        starting_header(h, content_type.deep_view()),
{
    Header {
        protocol: Some("HTTP/1.1".to_owned()),
        access_control_allow_origin: None,
        connection: None,
        content_encoding: None,
        content_type: Some(content_type),
        date: None,
        etag: None,
        keep_alive: None,
        last_modified: None,
        server: None,
        set_cookie: None,
        transfer_encoding: None,
        vary: None,
        x_backend_server: None,
        x_cache_info: None,
        x_kuma_revision: None,
        x_frame_options: None,
    }
}

/// A response with the given code and the body without surrounding
/// whitespace, as `text/html`.
pub fn text(code: u16, body: &str) -> (r: Response)
    ensures
        r.code == code,
        r.phrase is None,
        starting_header(r.header, seq!["text/html"@]),
        r.body matches Some(b) && b@ == trim(body@),
{
    let ct = vec!["text/html".to_owned()];
    proof {
        assert(ct.deep_view() =~= seq!["text/html"@]);
    }
    Response { code, phrase: None, header: starting(ct), body: Some(trim_ws(body).to_owned()) }
}

/// A response with the given code and the body without surrounding
/// whitespace, as `application/json` in UTF-8.
pub fn json(code: u16, body: &str) -> (r: Response)
    ensures
        r.code == code,
        r.phrase is None,
        starting_header(r.header, seq!["application/json"@, "charset=utf-8"@]),
        r.body matches Some(b) && b@ == trim(body@),
{
    let ct = vec!["application/json".to_owned(), "charset=utf-8".to_owned()];
    proof {
        assert(ct.deep_view() =~= seq!["application/json"@, "charset=utf-8"@]);
    }
    Response { code, phrase: None, header: starting(ct), body: Some(trim_ws(body).to_owned()) }
}

impl Response {
    /// The same response with the reason phrase `phrase`.
    pub fn set_phrase(self, phrase: &str) -> (r: Response)
        ensures
            r.code == self.code,
            r.header == self.header,
            r.body == self.body,
            r.phrase matches Some(p) && p@ == phrase@,
    {
        let mut res = self;
        res.phrase = Some(phrase.to_owned());
        res
    }

    fn with_protocol(self, protocol: &str) -> (r: Response)
        ensures
            r.code == self.code,
            r.phrase == self.phrase,
            r.body == self.body,
            same_but_protocol(r.header, self.header),
            r.header.protocol matches Some(p) && p@ == protocol@,
    {
        let mut res = self;
        res.header.protocol = Some(protocol.to_owned());
        res
    }

    /// The same response, sent as `HTTP/1.1`.
    pub fn http1(self) -> (r: Response)
        ensures
            r.code == self.code,
            r.phrase == self.phrase,
            r.body == self.body,
            same_but_protocol(r.header, self.header),
            r.header.protocol matches Some(p) && p@ == "HTTP/1.1"@,
    {
        self.with_protocol("HTTP/1.1")
    }

    /// The same response, sent as `HTTP/2`.
    pub fn http2(self) -> (r: Response)
        ensures
            r.code == self.code,
            r.phrase == self.phrase,
            r.body == self.body,
            same_but_protocol(r.header, self.header),
            r.header.protocol matches Some(p) && p@ == "HTTP/2"@,
    {
        self.with_protocol("HTTP/2")
    }

    /// The same response, sent as `HTTP/3`.
    pub fn http3(self) -> (r: Response)
        ensures
            r.code == self.code,
            r.phrase == self.phrase,
            r.body == self.body,
            same_but_protocol(r.header, self.header),
            r.header.protocol matches Some(p) && p@ == "HTTP/3"@,
    {
        self.with_protocol("HTTP/3")
    }
}

/// A response with a body announces its length: right after the status line
/// its wire text has the line `Content-Length: ` followed by the number of
/// bytes of the body in decimal, an empty body included.
pub proof fn law_body_length_announced(resp: Response)
    requires
        resp.body is Some,
    ensures
        occurs_at(
            resp.wire(),
            "Content-Length: "@ + decimal(utf8_len(resp.body.unwrap()@)) + "\r\n"@,
            resp.status_line().len() as int,
        ),
        contains(resp.wire(), "Content-Length: "@ + decimal(utf8_len(resp.body.unwrap()@)) + "\r\n"@),
{
    let line = "Content-Length: "@ + decimal(utf8_len(resp.body.unwrap()@)) + "\r\n"@;
    let i = resp.status_line().len() as int;
    assert(resp.wire().subrange(i, i + line.len()) =~= line);
    assert(occurs_at(resp.wire(), line, i));
}

} // verus!
