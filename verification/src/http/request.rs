//! HTTP requests: the method, the request line, the headers, the query
//! parameters and the body, parsed from the lines of a request.
use vstd::prelude::*;
use vstd::string::*;
use crate::http::text::{
    index_of, lemma_index_of_bounds, lemma_index_of_found, lemma_index_of_absent, lemma_index_of_push, lemma_push_no_duplicates, no_duplicates,
    lowercase, parse_i8, parse_i8_exec, split, split_char, split_on_str, split_once, split_once_char,
    split_str, split_whitespace, str_eq, to_lowercase, trim, trim_ws, views, words,
};

verus! {

/// Supported HTTP methods for request routing.
#[derive(Debug, Clone, Copy, PartialEq, Eq, Structural, Hash)]
pub enum Method {
    /// The GET method requests a representation of the specified resource.
    GET,
    /// The POST method submits an entity to the specified resource.
    POST,
    /// The DELETE method deletes the specified resource.
    DELETE,
    /// The PUT method replaces all current representations of the target resource.
    PUT,
    /// The PATCH method applies partial modifications to a resource.
    PATCH,
    /// The HEAD method asks for a response identical to a GET request, without the body.
    HEAD,
    /// The OPTIONS method describes the communication options for the target resource.
    OPTIONS,
    /// The CONNECT method establishes a tunnel to the server identified by the target resource.
    CONNECT,
    /// The TRACE method performs a message loop-back test along the path to the target resource.
    TRACE,
}

/// The method that a method token names.
pub open spec fn method_of(s: Seq<char>) -> Option<Method> {
    if s == "GET"@ {
        Some(Method::GET)
    } else if s == "POST"@ {
        Some(Method::POST)
    } else if s == "PUT"@ {
        Some(Method::PUT)
    } else if s == "DELETE"@ {
        Some(Method::DELETE)
    } else if s == "PATCH"@ {
        Some(Method::PATCH)
    } else if s == "OPTIONS"@ {
        Some(Method::OPTIONS)
    } else if s == "HEAD"@ {
        Some(Method::HEAD)
    } else if s == "TRACE"@ {
        Some(Method::TRACE)
    } else if s == "CONNECT"@ {
        Some(Method::CONNECT)
    } else {
        None
    }
}

/// The method that a method token names.
pub fn parse_method(method: &str) -> (r: Option<Method>)
    ensures
        r == method_of(method@),
{
    if str_eq(method, "GET") {
        Some(Method::GET)
    } else if str_eq(method, "POST") {
        Some(Method::POST)
    } else if str_eq(method, "PUT") {
        Some(Method::PUT)
    } else if str_eq(method, "DELETE") {
        Some(Method::DELETE)
    } else if str_eq(method, "PATCH") {
        Some(Method::PATCH)
    } else if str_eq(method, "OPTIONS") {
        Some(Method::OPTIONS)
    } else if str_eq(method, "HEAD") {
        Some(Method::HEAD)
    } else if str_eq(method, "TRACE") {
        Some(Method::TRACE)
    } else if str_eq(method, "CONNECT") {
        Some(Method::CONNECT)
    } else {
        None
    }
}

/// The keys of a list of key-value pairs, in order.
pub open spec fn pair_keys(v: Seq<(String, String)>) -> Seq<Seq<char>> {
    v.map_values(|p: (String, String)| p.0@)
}

/// The value stored with `k` (the first pair with that key).
pub open spec fn pair_value(v: Seq<(String, String)>, k: Seq<char>) -> Option<Seq<char>> {
    let i = index_of(pair_keys(v), k);
    if 0 <= i < v.len() {
        Some(v[i].1@)
    } else {
        None
    }
}

/// A list of key-value pairs as a map.
pub open spec fn pairs_map(v: Seq<(String, String)>) -> Map<Seq<char>, Seq<char>> {
    Map::new(|k: Seq<char>| pair_value(v, k) is Some, |k: Seq<char>| pair_value(v, k).unwrap())
}

/// The map that `key=value` pieces denote: each piece with a `=` maps its
/// trimmed key to its trimmed value, a later piece overriding an earlier one;
/// pieces without `=` are skipped.
pub open spec fn kv_map(pieces: Seq<Seq<char>>) -> Map<Seq<char>, Seq<char>>
    decreases pieces.len(),
{
    if pieces.len() == 0 {
        Map::empty()
    } else {
        let m = kv_map(pieces.drop_last());
        match split_once(pieces.last(), '=') {
            Some(kv) => m.insert(trim(kv.0), trim(kv.1)),
            None => m,
        }
    }
}

/// The query parameters of a query string (`a=1&b=2`).
pub open spec fn query_map(q: Seq<char>) -> Map<Seq<char>, Seq<char>> {
    kv_map(split(q, '&'))
}

proof fn lemma_kv_map_keys(pieces: Seq<Seq<char>>, k: Seq<char>)
    ensures
        kv_map(pieces).dom().contains(k) <==> exists|i: int|
            0 <= i < pieces.len() && #[trigger] split_once(pieces[i], '=') is Some && trim(
                split_once(pieces[i], '=').unwrap().0,
            ) == k,
        kv_map(pieces).dom().contains(k) ==> exists|i: int|
            {
                &&& 0 <= i < pieces.len()
                &&& #[trigger] split_once(pieces[i], '=') is Some
                &&& trim(split_once(pieces[i], '=').unwrap().0) == k
                &&& trim(split_once(pieces[i], '=').unwrap().1) == kv_map(pieces)[k]
                &&& forall|j: int|
                    i < j < pieces.len() && #[trigger] split_once(pieces[j], '=') is Some ==> trim(
                        split_once(pieces[j], '=').unwrap().0,
                    ) != k
            },
    decreases pieces.len(),
{
    if pieces.len() == 0 {
        return;
    }
    let pre = pieces.drop_last();
    let n = pre.len() as int;
    lemma_kv_map_keys(pre, k);
    assert forall|i: int| 0 <= i < n implies #[trigger] pieces[i] == pre[i] by {}
    let last = pieces.last();
    assert(pieces[n] == last);
    if exists|i: int|
        0 <= i < pieces.len() && #[trigger] split_once(pieces[i], '=') is Some && trim(
            split_once(pieces[i], '=').unwrap().0,
        ) == k {
        let i = choose|i: int|
            0 <= i < pieces.len() && #[trigger] split_once(pieces[i], '=') is Some && trim(
                split_once(pieces[i], '=').unwrap().0,
            ) == k;
        if i < n {
            assert(pieces[i] == pre[i]);
        }
    }
    if split_once(last, '=') is Some && trim(split_once(last, '=').unwrap().0) == k {
        assert(split_once(pieces[n], '=') is Some);
    } else if kv_map(pre).dom().contains(k) {
        let i = choose|i: int|
            {
                &&& 0 <= i < pre.len()
                &&& #[trigger] split_once(pre[i], '=') is Some
                &&& trim(split_once(pre[i], '=').unwrap().0) == k
                &&& trim(split_once(pre[i], '=').unwrap().1) == kv_map(pre)[k]
                &&& forall|j: int|
                    i < j < pre.len() && #[trigger] split_once(pre[j], '=') is Some ==> trim(
                        split_once(pre[j], '=').unwrap().0,
                    ) != k
            };
        assert(pieces[i] == pre[i]);
        assert forall|j: int|
            i < j < pieces.len() && #[trigger] split_once(pieces[j], '=') is Some implies trim(
                split_once(pieces[j], '=').unwrap().0,
            ) != k by {
            if j < n {
                assert(pieces[j] == pre[j]);
            }
        }
    }
}

/// The keys of the parameters of a query string are exactly the trimmed
/// text before the first `=` of each of its `&`-separated pieces that has an
/// `=`, character for character; a key maps to the trimmed text after that
/// `=` in the last piece with that key.
pub proof fn law_query_keys(q: Seq<char>, k: Seq<char>)
    ensures
        query_map(q).dom().contains(k) <==> exists|i: int|
            0 <= i < split(q, '&').len() && #[trigger] split_once(split(q, '&')[i], '=') is Some && trim(
                split_once(split(q, '&')[i], '=').unwrap().0,
            ) == k,
        query_map(q).dom().contains(k) ==> exists|i: int|
            {
                &&& 0 <= i < split(q, '&').len()
                &&& #[trigger] split_once(split(q, '&')[i], '=') is Some
                &&& trim(split_once(split(q, '&')[i], '=').unwrap().0) == k
                &&& trim(split_once(split(q, '&')[i], '=').unwrap().1) == query_map(q)[k]
                &&& forall|j: int|
                    i < j < split(q, '&').len() && #[trigger] split_once(split(q, '&')[j], '=') is Some ==> trim(
                        split_once(split(q, '&')[j], '=').unwrap().0,
                    ) != k
            },
{
    lemma_kv_map_keys(split(q, '&'), k);
}

/// A query string made of one piece `key=value`, where `key` has no `=`,
/// no `&` and no surrounding whitespace and `value` has no `&`, maps exactly
/// `key`, as written, to the trimmed `value`.
pub proof fn law_query_single_pair(key: Seq<char>, value: Seq<char>)
    requires
        forall|i: int| 0 <= i < key.len() ==> key[i] != '=' && key[i] != '&',
        forall|i: int| 0 <= i < value.len() ==> value[i] != '&',
        trim(key) == key,
    ensures
        query_map(key + seq!['='] + value) == Map::<Seq<char>, Seq<char>>::empty().insert(key, trim(value)),
{
    let q = key + seq!['='] + value;
    lemma_index_of_absent(q, '&');
    assert(split(q, '&') == seq![q]);
    lemma_index_of_found(q, '=', key.len() as int);
    assert(q.take(key.len() as int) =~= key);
    assert(q.skip(key.len() as int + 1) =~= value);
    let pieces = seq![q];
    assert(pieces.drop_last() =~= Seq::<Seq<char>>::empty());
    assert(kv_map(pieces.drop_last()) == Map::<Seq<char>, Seq<char>>::empty());
}

/// The cookies of a `Cookie` header value (`a=1; b=2`).
pub open spec fn cookie_map(c: Seq<char>) -> Map<Seq<char>, Seq<char>> {
    kv_map(split_str(c, "; "@))
}

fn set_pair(v: &mut Vec<(String, String)>, k: String, val: String)
    requires
        no_duplicates(pair_keys(old(v)@)),
    ensures
        pairs_map(final(v)@) == pairs_map(old(v)@).insert(k@, val@),
        no_duplicates(pair_keys(final(v)@)),
{
    let n = v.len();
    let mut j: usize = 0;
    while j < n
        invariant
            n == v@.len(),
            v@ == old(v)@,
            no_duplicates(pair_keys(v@)),
            j <= n,
            forall|i: int| 0 <= i < j ==> pair_keys(v@)[i] != k@,
        decreases n - j,
    {
        if v[j].0 == k {
            proof {
                lemma_index_of_found(pair_keys(v@), k@, j as int);
            }
            let ghost ov = v@;
            let ghost kk = k@;
            let ghost vv = val@;
            v.set(j, (k, val));
            proof {
                assert(pair_keys(v@) =~= pair_keys(ov));
                assert forall|x: Seq<char>| #[trigger] pair_value(v@, x) == if x == kk {
                    Some(vv)
                } else {
                    pair_value(ov, x)
                } by {
                    lemma_index_of_bounds(pair_keys(ov), x);
                }
                assert(pairs_map(v@) =~= pairs_map(ov).insert(kk, vv));
            }
            return;
        }
        j = j + 1;
    }
    proof {
        lemma_index_of_absent(pair_keys(v@), k@);
    }
    let ghost ov = v@;
    let ghost kk = k@;
    let ghost vv = val@;
    v.push((k, val));
    proof {
        assert(pair_keys(v@) =~= pair_keys(ov).push(kk));
        lemma_push_no_duplicates(pair_keys(ov), kk);
        assert forall|x: Seq<char>| #[trigger] pair_value(v@, x) == if x == kk {
            Some(vv)
        } else {
            pair_value(ov, x)
        } by {
            lemma_index_of_push(pair_keys(ov), kk, x);
            lemma_index_of_bounds(pair_keys(ov), x);
        }
        assert(pairs_map(v@) =~= pairs_map(ov).insert(kk, vv));
    }
}

/// The pairs that `key=value` pieces denote.
fn parse_pairs(pieces: &Vec<&str>) -> (r: Vec<(String, String)>)
    ensures
        pairs_map(r@) == kv_map(views(pieces@)),
        no_duplicates(pair_keys(r@)),
{
    let n = pieces.len();
    let mut out: Vec<(String, String)> = Vec::new();
    let mut i: usize = 0;
    proof {
        assert(views(pieces@).take(0) =~= Seq::<Seq<char>>::empty());
        assert(pairs_map(out@) =~= Map::<Seq<char>, Seq<char>>::empty());
        assert(pair_keys(out@) =~= Seq::<Seq<char>>::empty());
    }
    while i < n
        invariant
            n == pieces@.len(),
            i <= n,
            pairs_map(out@) == kv_map(views(pieces@).take(i as int)),
            no_duplicates(pair_keys(out@)),
        decreases n - i,
    {
        let piece: &str = pieces[i];
        proof {
            let t = views(pieces@).take(i + 1);
            assert(t.drop_last() =~= views(pieces@).take(i as int));
            assert(t.last() == piece@);
        }
        match split_once_char(piece, '=') {
            Some((k, v)) => {
                let key = trim_ws(k).to_owned();
                let value = trim_ws(v).to_owned();
                set_pair(&mut out, key, value);
            },
            None => {},
        }
        i = i + 1;
    }
    proof {
        assert(views(pieces@).take(n as int) =~= views(pieces@));
    }
    out
}

/// The query parameters of a query string.
pub fn parse_query(query_str: &str) -> (r: Vec<(String, String)>)
    ensures
        pairs_map(r@) == query_map(query_str@),
        no_duplicates(pair_keys(r@)),
{
    let pieces = split_char(query_str, '&');
    parse_pairs(&pieces)
}

/// The cookies of a `Cookie` header value.
pub fn parse_cookie(cookies: &str) -> (r: Vec<(String, String)>)
    ensures
        pairs_map(r@) == cookie_map(cookies@),
        no_duplicates(pair_keys(r@)),
{
    proof {
        reveal_strlit("; ");
    }
    let pieces = split_on_str(cookies, "; ");
    parse_pairs(&pieces)
}

/// The pieces of a comma-separated value, each trimmed.
pub open spec fn comma_list(s: Seq<char>) -> Seq<Seq<char>> {
    split(s, ',').map_values(|x: Seq<char>| trim(x))
}

fn parse_comma_list(value: &str) -> (r: Vec<String>)
    ensures
        r.deep_view() == comma_list(value@),
{
    let pieces = split_char(value, ',');
    let n = pieces.len();
    let mut out: Vec<String> = Vec::new();
    let mut i: usize = 0;
    while i < n
        invariant
            n == pieces@.len(),
            views(pieces@) == split(value@, ','),
            i <= n,
            out.deep_view() == comma_list(value@).take(i as int),
        decreases n - i,
    {
        let item = trim_ws(pieces[i]).to_owned();
        let ghost prev = out.deep_view();
        out.push(item);
        proof {
            assert(out.deep_view() =~= prev.push(item@));
            assert(comma_list(value@).take(i + 1) =~= comma_list(value@).take(i as int).push(item@));
        }
        i = i + 1;
    }
    proof {
        assert(comma_list(value@).take(n as int) =~= comma_list(value@));
    }
    out
}

/// The request headers that the parser records.
pub struct HeaderView {
    pub protocol: Option<Seq<char>>,
    pub host: Option<Seq<char>>,
    pub user_agent: Option<Seq<char>>,
    pub accept: Option<Seq<Seq<char>>>,
    pub accept_language: Option<Seq<Seq<char>>>,
    pub accept_encoding: Option<Seq<Seq<char>>>,
    pub sec_gpc: Option<i8>,
    pub connection: Option<Seq<char>>,
    pub cookie: Option<Map<Seq<char>, Seq<char>>>,
    pub upgrade_insecure_requests: Option<i8>,
    pub sec_fetch_dest: Option<Seq<char>>,
    pub sec_fetch_mode: Option<Seq<char>>,
    pub sec_fetch_site: Option<Seq<char>>,
    pub sec_fetch_user: Option<Seq<char>>,
    pub dnt: Option<i8>,
    pub priority: Option<Seq<char>>,
}

/// A parsed request.
pub struct RequestView {
    pub method: Option<Method>,
    pub route: Option<Seq<char>>,
    pub header: Option<HeaderView>,
    pub body: Option<Seq<char>>,
    pub query: Map<Seq<char>, Seq<char>>,
}

/// The headers before any header line: only the protocol of the request line.
pub open spec fn initial_header(protocol: Seq<char>) -> HeaderView {
    HeaderView {
        protocol: Some(protocol),
        host: None,
        user_agent: None,
        accept: None,
        accept_language: None,
        accept_encoding: None,
        sec_gpc: None,
        connection: None,
        cookie: None,
        upgrade_insecure_requests: None,
        sec_fetch_dest: None,
        sec_fetch_mode: None,
        sec_fetch_site: None,
        sec_fetch_user: None,
        dnt: None,
        priority: None,
    }
}

/// The headers after a `key: value` header line whose trimmed key, in lower
/// case, is `key` and whose trimmed value is `value`: a recorded header is set
/// to the value (a list for the `accept` headers, a number for `sec-gpc`,
/// `upgrade-insecure-requests` and `DNT`, whose value must be an `i8` or the
/// request is rejected, and a map for `cookie`); other keys change nothing.
/// The key `DNT` is compared as written, in capitals.
pub open spec fn apply_keyed(key: Seq<char>, value: Seq<char>, h: HeaderView) -> Option<HeaderView> {
    if key == "host"@ {
        Some(HeaderView { host: Some(value), ..h })
    } else if key == "user-agent"@ {
        Some(HeaderView { user_agent: Some(value), ..h })
    } else if key == "accept"@ {
        Some(HeaderView { accept: Some(comma_list(value)), ..h })
    } else if key == "accept-language"@ {
        Some(HeaderView { accept_language: Some(comma_list(value)), ..h })
    } else if key == "accept-encoding"@ {
        Some(HeaderView { accept_encoding: Some(comma_list(value)), ..h })
    } else if key == "sec-gpc"@ {
        match parse_i8(value) {
            Some(n) => Some(HeaderView { sec_gpc: Some(n), ..h }),
            None => None,
        }
    } else if key == "connection"@ {
        Some(HeaderView { connection: Some(value), ..h })
    } else if key == "cookie"@ {
        Some(HeaderView { cookie: Some(cookie_map(value)), ..h })
    } else if key == "upgrade-insecure-requests"@ {
        match parse_i8(value) {
            Some(n) => Some(HeaderView { upgrade_insecure_requests: Some(n), ..h }),
            None => None,
        }
    } else if key == "sec-fetch-dest"@ {
        Some(HeaderView { sec_fetch_dest: Some(value), ..h })
    } else if key == "sec-fetch-mode"@ {
        Some(HeaderView { sec_fetch_mode: Some(value), ..h })
    } else if key == "sec-fetch-site"@ {
        Some(HeaderView { sec_fetch_site: Some(value), ..h })
    } else if key == "sec-fetch-user"@ {
        Some(HeaderView { sec_fetch_user: Some(value), ..h })
    } else if key == "DNT"@ {
        match parse_i8(value) {
            Some(n) => Some(HeaderView { dnt: Some(n), ..h }),
            None => None,
        }
    } else if key == "priority"@ {
        Some(HeaderView { priority: Some(value), ..h })
    } else {
        Some(h)
    }
}

/// The headers after the (trimmed) header line `line`: a `key: value` line
/// is read by `apply_keyed` with its trimmed key in lower case and its
/// trimmed value; a line without `:` changes nothing.
pub open spec fn apply_line(line: Seq<char>, h: HeaderView) -> Option<HeaderView> {
    match split_once(line, ':') {
        None => Some(h),
        Some(kv) => apply_keyed(lowercase(trim(kv.0)), trim(kv.1), h),
    }
}

/// The headers after the lines `lines`, read in order up to the first blank
/// one; `None` when a line is rejected.
pub open spec fn apply_lines(lines: Seq<Seq<char>>, h: HeaderView) -> Option<HeaderView>
    decreases lines.len(),
{
    if lines.len() == 0 {
        Some(h)
    } else {
        let line = trim(lines[0]);
        if line.len() == 0 {
            Some(h)
        } else {
            match apply_line(line, h) {
                Some(h2) => apply_lines(lines.drop_first(), h2),
                None => None,
            }
        }
    }
}

/// A header whose value must be an `i8`: `sec-gpc`,
/// `upgrade-insecure-requests`, and `DNT` as written.
pub open spec fn numeric_key(key: Seq<char>) -> bool {
    key == "sec-gpc"@ || key == "upgrade-insecure-requests"@ || key == "DNT"@
}

/// The (trimmed) header line `line` is refused: a `key: value` line whose
/// trimmed key in lower case must have an `i8` value, and whose trimmed value
/// is no `i8`.
pub open spec fn refused_line(line: Seq<char>) -> bool {
    &&& split_once(line, ':') is Some
    &&& numeric_key(lowercase(trim(split_once(line, ':').unwrap().0)))
    &&& parse_i8(trim(split_once(line, ':').unwrap().1)) is None
}

proof fn lemma_apply_keyed_refuses(key: Seq<char>, value: Seq<char>, h: HeaderView)
    ensures
        apply_keyed(key, value, h) is None <==> numeric_key(key) && parse_i8(value) is None,
{
    reveal_strlit("host");
    assert("host"@.len() == 4);
    reveal_strlit("user-agent");
    assert("user-agent"@.len() == 10);
    reveal_strlit("accept");
    assert("accept"@.len() == 6);
    reveal_strlit("accept-language");
    assert("accept-language"@.len() == 15);
    reveal_strlit("accept-encoding");
    assert("accept-encoding"@.len() == 15);
    reveal_strlit("sec-gpc");
    assert("sec-gpc"@.len() == 7);
    reveal_strlit("connection");
    assert("connection"@.len() == 10);
    reveal_strlit("cookie");
    assert("cookie"@.len() == 6);
    reveal_strlit("upgrade-insecure-requests");
    assert("upgrade-insecure-requests"@.len() == 25);
    reveal_strlit("sec-fetch-dest");
    assert("sec-fetch-dest"@.len() == 14);
    reveal_strlit("sec-fetch-mode");
    assert("sec-fetch-mode"@.len() == 14);
    reveal_strlit("sec-fetch-site");
    assert("sec-fetch-site"@.len() == 14);
    reveal_strlit("sec-fetch-user");
    assert("sec-fetch-user"@.len() == 14);
    reveal_strlit("DNT");
    assert("DNT"@.len() == 3);
}

proof fn lemma_apply_lines_refuses(lines: Seq<Seq<char>>, h: HeaderView)
    ensures
        apply_lines(lines, h) is None <==> exists|i: int|
            0 <= i < lines.len() && trim(lines[i]).len() > 0 && refused_line(trim(lines[i])) && forall|j: int|
                0 <= j < i ==> trim(#[trigger] lines[j]).len() > 0,
    decreases lines.len(),
{
    if lines.len() == 0 {
        return;
    }
    let line = trim(lines[0]);
    let rest = lines.drop_first();
    if line.len() == 0 {
        assert forall|i: int|
            0 <= i < lines.len() && trim(lines[i]).len() > 0 && refused_line(trim(lines[i])) implies !(forall|j: int|
                0 <= j < i ==> trim(#[trigger] lines[j]).len() > 0) by {
            assert(i > 0);
            assert(trim(lines[0]).len() == 0);
        }
        return;
    }
    match split_once(line, ':') {
        Some(kv) => {
            lemma_apply_keyed_refuses(lowercase(trim(kv.0)), trim(kv.1), h);
        },
        None => {},
    }
    match apply_line(line, h) {
        None => {
            assert(forall|j: int| 0 <= j < 0 ==> trim(#[trigger] lines[j]).len() > 0);
        },
        Some(h2) => {
            lemma_apply_lines_refuses(rest, h2);
            if exists|i: int|
                0 <= i < rest.len() && trim(rest[i]).len() > 0 && refused_line(trim(rest[i])) && forall|j: int|
                    0 <= j < i ==> trim(#[trigger] rest[j]).len() > 0 {
                let i = choose|i: int|
                    0 <= i < rest.len() && trim(rest[i]).len() > 0 && refused_line(trim(rest[i])) && forall|j: int|
                        0 <= j < i ==> trim(#[trigger] rest[j]).len() > 0;
                assert(lines[i + 1] == rest[i]);
                assert forall|j: int| 0 <= j < i + 1 implies trim(#[trigger] lines[j]).len() > 0 by {
                    if j > 0 {
                        assert(lines[j] == rest[j - 1]);
                    }
                }
            }
            assert forall|i: int|
                0 <= i < lines.len() && trim(lines[i]).len() > 0 && refused_line(trim(lines[i])) && (forall|j: int|
                    0 <= j < i ==> trim(#[trigger] lines[j]).len() > 0) implies apply_lines(rest, h2) is None by {
                assert(i > 0);
                assert(rest[i - 1] == lines[i]);
                assert forall|j: int| 0 <= j < i - 1 implies trim(#[trigger] rest[j]).len() > 0 by {
                    assert(rest[j] == lines[j + 1]);
                }
            }
        },
    }
}

/// The lines of a request are refused exactly when there is no line, when
/// the request line has fewer than three words, or when some line after it,
/// before the first blank one (the body counts as such a line), is a refused
/// header line.
pub proof fn law_parse_request_refuses(text: Seq<Seq<char>>)
    ensures
        parse_request_spec(text) is None <==> {
            ||| text.len() == 0
            ||| words(text[0]).len() < 3
            ||| exists|i: int|
                1 <= i < text.len() && trim(text[i]).len() > 0 && refused_line(trim(text[i])) && forall|j: int|
                    1 <= j < i ==> trim(#[trigger] text[j]).len() > 0
        },
{
    if text.len() > 0 && words(text[0]).len() >= 3 {
        let toks = words(text[0]);
        let rest = text.drop_first();
        lemma_apply_lines_refuses(rest, initial_header(toks[2]));
        if exists|i: int|
            0 <= i < rest.len() && trim(rest[i]).len() > 0 && refused_line(trim(rest[i])) && forall|j: int|
                0 <= j < i ==> trim(#[trigger] rest[j]).len() > 0 {
            let i = choose|i: int|
                0 <= i < rest.len() && trim(rest[i]).len() > 0 && refused_line(trim(rest[i])) && forall|j: int|
                    0 <= j < i ==> trim(#[trigger] rest[j]).len() > 0;
            assert(text[i + 1] == rest[i]);
            assert forall|j: int| 1 <= j < i + 1 implies trim(#[trigger] text[j]).len() > 0 by {
                assert(text[j] == rest[j - 1]);
            }
        }
        assert forall|i: int|
            1 <= i < text.len() && trim(text[i]).len() > 0 && refused_line(trim(text[i])) && (forall|j: int|
                1 <= j < i ==> trim(#[trigger] text[j]).len() > 0) implies apply_lines(
            rest,
            initial_header(toks[2]),
        ) is None by {
            assert(rest[i - 1] == text[i]);
            assert forall|j: int| 0 <= j < i - 1 implies trim(#[trigger] rest[j]).len() > 0 by {
                assert(rest[j] == text[j + 1]);
            }
        }
    }
}

/// The character views of a sequence of strings.
pub open spec fn string_views(s: Seq<String>) -> Seq<Seq<char>> {
    s.map_values(|x: String| x@)
}

/// The request that the lines `text` denote: the request line gives the
/// method, the route (without the query) with its query parameters, and the
/// protocol; every following line is read as a header line up to the first
/// blank one; the last line is the body. `None` when there is no line, when
/// the request line has fewer than three words, or when a header is rejected.
pub open spec fn parse_request_spec(text: Seq<Seq<char>>) -> Option<RequestView> {
    if text.len() == 0 {
        None
    } else {
        let toks = words(text[0]);
        if toks.len() < 3 {
            None
        } else {
            let raw_route = toks[1];
            let (route, query) = match split_once(raw_route, '?') {
                Some(pq) => (pq.0, query_map(pq.1)),
                None => (raw_route, Map::empty()),
            };
            match apply_lines(text.drop_first(), initial_header(toks[2])) {
                Some(h) => Some(
                    RequestView {
                        method: method_of(toks[0]),
                        route: Some(route),
                        header: Some(h),
                        body: Some(text.last()),
                        query,
                    },
                ),
                None => None,
            }
        }
    }
}

/// Request headers.
pub struct Header {
    protocol: Option<String>,
    host: Option<String>,
    user_agent: Option<String>,
    accept: Option<Vec<String>>,
    accept_language: Option<Vec<String>>,
    accept_encoding: Option<Vec<String>>,
    sec_gpc: Option<i8>,
    connection: Option<String>,
    cookie: Option<Vec<(String, String)>>,
    upgrade_insecure_requests: Option<i8>,
    sec_fetch_dest: Option<String>,
    sec_fetch_mode: Option<String>,
    sec_fetch_site: Option<String>,
    sec_fetch_user: Option<String>,
    dnt: Option<i8>,
    priority: Option<String>,
}

/// The characters of an optional string.
pub open spec fn opt_view(o: Option<String>) -> Option<Seq<char>> {
    match o {
        Some(s) => Some(s@),
        None => None,
    }
}

/// The items of an optional list of strings.
pub open spec fn opt_list_view(o: Option<Vec<String>>) -> Option<Seq<Seq<char>>> {
    match o {
        Some(v) => Some(v.deep_view()),
        None => None,
    }
}

impl View for Header {
    type V = HeaderView;

    closed spec fn view(&self) -> HeaderView {
        HeaderView {
            protocol: opt_view(self.protocol),
            host: opt_view(self.host),
            user_agent: opt_view(self.user_agent),
            accept: opt_list_view(self.accept),
            accept_language: opt_list_view(self.accept_language),
            accept_encoding: opt_list_view(self.accept_encoding),
            sec_gpc: self.sec_gpc,
            connection: opt_view(self.connection),
            cookie: match self.cookie {
                Some(c) => Some(pairs_map(c@)),
                None => None,
            },
            upgrade_insecure_requests: self.upgrade_insecure_requests,
            sec_fetch_dest: opt_view(self.sec_fetch_dest),
            sec_fetch_mode: opt_view(self.sec_fetch_mode),
            sec_fetch_site: opt_view(self.sec_fetch_site),
            sec_fetch_user: opt_view(self.sec_fetch_user),
            dnt: self.dnt,
            priority: opt_view(self.priority),
        }
    }
}

impl Header {
    /// A cookie name occurs once at most.
    #[verifier::type_invariant]
    closed spec fn inv(self) -> bool {
        self.cookie matches Some(c) ==> no_duplicates(pair_keys(c@))
    }

    /// Records the (trimmed) header line `line`; false when it is rejected.
    fn apply_line(&mut self, line: &str) -> (r: bool)
        ensures
            r == (apply_line(line@, old(self)@) is Some),
            r ==> final(self)@ == apply_line(line@, old(self)@).unwrap(),
    {
        proof {
            use_type_invariant(&*self);
        }
        let (k, v) = match split_once_char(line, ':') {
            Some(kv) => kv,
            None => {
                return true;
            },
        };
        let key = to_lowercase(trim_ws(k));
        let value: &str = trim_ws(v);
        self.apply_keyed(key.as_str(), value)
    }

    /// Records a `key: value` header line, given `key`, its trimmed key in
    /// lower case, and `value`, its trimmed value; false when it is rejected.
    pub fn apply_keyed(&mut self, key: &str, value: &str) -> (r: bool)
        ensures
            r == (apply_keyed(key@, value@, old(self)@) is Some),
            r ==> final(self)@ == apply_keyed(key@, value@, old(self)@).unwrap(),
    {
        proof {
            use_type_invariant(&*self);
        }
        if str_eq(key, "host") {
            self.host = Some(value.to_owned());
        } else if str_eq(key, "user-agent") {
            self.user_agent = Some(value.to_owned());
        } else if str_eq(key, "accept") {
            self.accept = Some(parse_comma_list(value));
        } else if str_eq(key, "accept-language") {
            self.accept_language = Some(parse_comma_list(value));
        } else if str_eq(key, "accept-encoding") {
            self.accept_encoding = Some(parse_comma_list(value));
        } else if str_eq(key, "sec-gpc") {
            match parse_i8_exec(value) {
                Some(n) => self.sec_gpc = Some(n),
                None => {
                    return false;
                },
            }
        } else if str_eq(key, "connection") {
            self.connection = Some(value.to_owned());
        } else if str_eq(key, "cookie") {
            self.cookie = Some(parse_cookie(value));
        } else if str_eq(key, "upgrade-insecure-requests") {
            match parse_i8_exec(value) {
                Some(n) => self.upgrade_insecure_requests = Some(n),
                None => {
                    return false;
                },
            }
        } else if str_eq(key, "sec-fetch-dest") {
            self.sec_fetch_dest = Some(value.to_owned());
        } else if str_eq(key, "sec-fetch-mode") {
            self.sec_fetch_mode = Some(value.to_owned());
        } else if str_eq(key, "sec-fetch-site") {
            self.sec_fetch_site = Some(value.to_owned());
        } else if str_eq(key, "sec-fetch-user") {
            self.sec_fetch_user = Some(value.to_owned());
        } else if str_eq(key, "DNT") {
            match parse_i8_exec(value) {
                Some(n) => self.dnt = Some(n),
                None => {
                    return false;
                },
            }
        } else if str_eq(key, "priority") {
            self.priority = Some(value.to_owned());
        }
        true
    }
}

/// A parsed HTTP request.
pub struct Request {
    method: Option<Method>,
    route: Option<String>,
    header: Option<Header>,
    body: Option<String>,
    query: Vec<(String, String)>,
}

impl View for Request {
    type V = RequestView;

    closed spec fn view(&self) -> RequestView {
        RequestView {
            method: self.method,
            route: opt_view(self.route),
            header: match self.header {
                Some(h) => Some(h@),
                None => None,
            },
            body: opt_view(self.body),
            query: pairs_map(self.query@),
        }
    }
}

/// Parses the lines of a request: the request line, header lines and, last,
/// the body; `None` when they are not a request.
#[verifier::loop_isolation(false)]
pub fn parse_request(text: &[String]) -> (r: Option<Request>)
    ensures
        match parse_request_spec(string_views(text@)) {
            Some(v) => r matches Some(req) && req@ == v,
            None => r is None,
        },
{
    let ghost t = string_views(text@);
    let n = text.len();
    if n == 0 {
        return None;
    }
    let toks = split_whitespace(text[0].as_str());
    if toks.len() < 3 {
        return None;
    }
    let method = parse_method(toks[0]);
    let raw_route: &str = toks[1];
    let protocol: &str = toks[2];
    let (route, query) = match split_once_char(raw_route, '?') {
        Some((path, query_str)) => (path.to_owned(), parse_query(query_str)),
        None => {
            let empty: Vec<(String, String)> = Vec::new();
            proof {
                assert(pairs_map(empty@) =~= Map::<Seq<char>, Seq<char>>::empty());
                assert(pair_keys(empty@) =~= Seq::<Seq<char>>::empty());
            }
            (raw_route.to_owned(), empty)
        },
    };
    let mut header = Header {
        protocol: Some(protocol.to_owned()),
        host: None,
        user_agent: None,
        accept: None,
        accept_language: None,
        accept_encoding: None,
        sec_gpc: None,
        connection: None,
        cookie: None,
        upgrade_insecure_requests: None,
        sec_fetch_dest: None,
        sec_fetch_mode: None,
        sec_fetch_site: None,
        sec_fetch_user: None,
        dnt: None,
        priority: None,
    };
    proof {
        assert(header@ == initial_header(protocol@));
        assert(t.drop_first() =~= t.skip(1));
    }
    let mut i: usize = 1;
    while i < n
        invariant
            n == text@.len(),
            t == string_views(text@),
            1 <= i <= n,
            apply_lines(t.skip(1), initial_header(protocol@)) == apply_lines(t.skip(i as int), header@),
        decreases n - i,
    {
        let line = trim_ws(text[i].as_str());
        proof {
            assert(t.skip(i as int)[0] == text@[i as int]@);
            assert(t.skip(i as int).drop_first() =~= t.skip(i + 1));
        }
        if line.is_empty() {
            proof {
                assert(apply_lines(t.skip(i as int), header@) == Some(header@));
            }
            break;
        }
        let ghost before = header@;
        if !header.apply_line(line) {
            proof {
                assert(apply_lines(t.skip(i as int), before) is None);
                assert(t.drop_first() =~= t.skip(1));
            }
            return None;
        }
        i = i + 1;
    }
    let body = text[n - 1].as_str().to_owned();
    proof {
        assert(t.drop_first() =~= t.skip(1));
        assert(body@ == t.last());
        assert(t[0] == text@[0]@);
        assert(views(toks@) == words(t[0]));
        assert(toks@[1]@ == raw_route@);
    }
    Some(Request { method, route: Some(route), header: Some(header), body: Some(body), query })
}

/// The request that the lines `req` denote: the very request that
/// `parse_request` gives for them. The lines must be a request, that is,
/// lines on which `parse_request` does not give `None`.
pub fn from(req: &[String]) -> (r: Request)
    requires
        parse_request_spec(string_views(req@)) is Some,
    ensures
        r@ == parse_request_spec(string_views(req@)).unwrap(),
{
    match parse_request(req) {
        Some(r) => r,
        None => {
            proof {
                assert(false);
            }
            vstd::pervasive::unreached()
        },
    }
}

/// `from` can be called on exactly the lines on which `parse_request` gives a
/// request rather than `None`, and it then gives that very request.
pub proof fn law_from_is_parse_request(req: &[String], parsed: Option<Request>, made: Request)
    requires
        call_ensures(parse_request, (req,), parsed),
    ensures
        parsed is Some <==> parse_request_spec(string_views(req@)) is Some,
        parsed is Some ==> call_requires(from, (req,)),
        parsed is Some && call_ensures(from, (req,), made) ==> made@ == parsed.unwrap()@,
{
}

impl Request {
    /// A query key occurs once at most.
    #[verifier::type_invariant]
    closed spec fn inv(self) -> bool {
        no_duplicates(pair_keys(self.query@))
    }

    /// The route without the query (empty when unset).
    pub fn get_route(&self) -> (r: &str)
        ensures
            r@ == match self@.route {
                Some(s) => s,
                None => Seq::empty(),
            },
    {
        proof {
            reveal_strlit("");
        }
        match &self.route {
            Some(s) => s.as_str(),
            None => "",
        }
    }

    /// The request method, when it is a known one.
    pub fn get_method(&self) -> (r: Option<Method>)
        ensures
            r == self@.method,
    {
        self.method
    }

    /// The body (empty when unset).
    pub fn get_body(&self) -> (r: &str)
        ensures
            r@ == match self@.body {
                Some(s) => s,
                None => Seq::empty(),
            },
    {
        proof {
            reveal_strlit("");
        }
        match &self.body {
            Some(s) => s.as_str(),
            None => "",
        }
    }

    /// The protocol of the request line.
    pub fn get_protocol(self) -> (r: Option<String>)
        ensures
            opt_view(r) == match self@.header {
                Some(h) => h.protocol,
                None => None,
            },
    {
        match self.header {
            Some(h) => h.protocol,
            None => None,
        }
    }

    /// Returns the parsed query parameter value by its key.
    ///
    /// Route: `/user?name=Nickname` gives `Some("Nickname")` for `name`.
    pub fn get_query(&self, key: &str) -> (r: Option<&str>)
        ensures
            match r {
                Some(v) => self@.query.dom().contains(key@) && v@ == self@.query[key@],
                None => !self@.query.dom().contains(key@),
            },
    {
        let n = self.query.len();
        let mut j: usize = 0;
        while j < n
            invariant
                n == self.query@.len(),
                j <= n,
                forall|i: int| 0 <= i < j ==> pair_keys(self.query@)[i] != key@,
            decreases n - j,
        {
            if str_eq(self.query[j].0.as_str(), key) {
                proof {
                    lemma_index_of_found(pair_keys(self.query@), key@, j as int);
                }
                return Some(self.query[j].1.as_str());
            }
            j = j + 1;
        }
        proof {
            lemma_index_of_absent(pair_keys(self.query@), key@);
        }
        None
    }
}

} // verus!
