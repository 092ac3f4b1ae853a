//! Character-level text operations on which the request parser, the router
//! and the response serializer are built, each with its specification.
use vstd::prelude::*;
use vstd::string::*;

verus! {

/// The character views of a sequence of string slices.
pub open spec fn views(s: Seq<&str>) -> Seq<Seq<char>> {
    s.map_values(|p: &str| p@)
}

/// `i` is the position of the first occurrence of `x` in `s`.
pub open spec fn is_first<A>(s: Seq<A>, x: A, i: int) -> bool {
    &&& 0 <= i < s.len()
    &&& s[i] == x
    &&& forall|j: int| 0 <= j < i ==> s[j] != x
}

/// The position of the first occurrence of `x` in `s`, or -1 when there is none.
pub open spec fn index_of<A>(s: Seq<A>, x: A) -> int {
    if exists|i: int| is_first(s, x, i) {
        choose|i: int| is_first(s, x, i)
    } else {
        -1
    }
}

pub proof fn lemma_index_of_found<A>(s: Seq<A>, x: A, i: int)
    requires
        is_first(s, x, i),
    ensures
        index_of(s, x) == i,
{
    let k = choose|k: int| is_first(s, x, k);
    assert(is_first(s, x, k));
    if k < i {
        assert(s[k] != x);
    } else if i < k {
        assert(s[i] != x);
    }
}

pub proof fn lemma_index_of_absent<A>(s: Seq<A>, x: A)
    requires
        forall|j: int| 0 <= j < s.len() ==> s[j] != x,
    ensures
        index_of(s, x) == -1,
{
}

pub proof fn lemma_index_of_bounds<A>(s: Seq<A>, x: A)
    ensures
        index_of(s, x) == -1 || is_first(s, x, index_of(s, x)),
{
}

pub proof fn lemma_index_of_push<A>(s: Seq<A>, x: A, y: A)
    ensures
        index_of(s.push(x), y) == if index_of(s, y) >= 0 {
            index_of(s, y)
        } else if x == y {
            s.len() as int
        } else {
            -1
        },
{
    lemma_index_of_bounds(s, y);
    let t = s.push(x);
    if index_of(s, y) >= 0 {
        lemma_index_of_found(t, y, index_of(s, y));
    } else {
        assert(forall|j: int| 0 <= j < s.len() ==> s[j] != y) by {
            assert forall|j: int| 0 <= j < s.len() implies s[j] != y by {
                if s[j] == y {
                    lemma_first_exists(s, y, j);
                }
            }
        }
        if x == y {
            lemma_index_of_found(t, y, s.len() as int);
        } else {
            lemma_index_of_absent(t, y);
        }
    }
}

/// An occurrence of `y` means there is a first occurrence.
pub proof fn lemma_first_exists<A>(s: Seq<A>, y: A, j: int)
    requires
        0 <= j < s.len(),
        s[j] == y,
    ensures
        index_of(s, y) >= 0,
    decreases j,
{
    if exists|k: int| 0 <= k < j && s[k] == y {
        let k = choose|k: int| 0 <= k < j && s[k] == y;
        lemma_first_exists(s, y, k);
    } else {
        lemma_index_of_found(s, y, j);
    }
}

/// No two entries of `s` are equal.
pub open spec fn no_duplicates<A>(s: Seq<A>) -> bool {
    forall|i: int, j: int| 0 <= i < j < s.len() ==> s[i] != s[j]
}

pub proof fn lemma_absent_all<A>(s: Seq<A>, x: A)
    requires
        index_of(s, x) == -1,
    ensures
        forall|j: int| 0 <= j < s.len() ==> s[j] != x,
{
    assert forall|j: int| 0 <= j < s.len() implies s[j] != x by {
        if s[j] == x {
            lemma_first_exists(s, x, j);
        }
    }
}

pub proof fn lemma_push_no_duplicates<A>(s: Seq<A>, x: A)
    requires
        no_duplicates(s),
        index_of(s, x) == -1,
    ensures
        no_duplicates(s.push(x)),
{
    lemma_absent_all(s, x);
    let t = s.push(x);
    assert forall|i: int, j: int| 0 <= i < j < t.len() implies t[i] != t[j] by {
        if j == s.len() {
            assert(t[i] == s[i]);
        } else {
            assert(t[i] == s[i] && t[j] == s[j]);
        }
    }
}

/// The pieces of `s` between occurrences of `sep`, as `str::split` with a
/// character separator yields them (empty pieces included).
pub open spec fn split(s: Seq<char>, sep: char) -> Seq<Seq<char>>
    decreases s.len(),
{
    let i = index_of(s, sep);
    if i < 0 {
        seq![s]
    } else {
        if i < s.len() {
            seq![s.take(i)] + split(s.skip(i + 1), sep)
        } else {
            seq![s]
        }
    }
}

/// The characters of `s`, in order.
pub fn chars_of(s: &str) -> (r: Vec<char>)
    ensures
        r@ == s@,
{
    broadcast use vstd::string::group_string_axioms;
    let mut out: Vec<char> = Vec::new();
    for c in iter: s.chars()
        invariant
            out@ == iter.seq().take(iter.index() as int),
    {
        out.push(c);
    }
    out
}

/// Splits `s` at every occurrence of `sep`, as `str::split` does.
pub fn split_char<'a>(s: &'a str, sep: char) -> (r: Vec<&'a str>)
    ensures
        views(r@) == split(s@, sep),
{
    let cs = chars_of(s);
    let n = cs.len();
    let mut out: Vec<&'a str> = Vec::new();
    let mut start: usize = 0;
    let mut j: usize = 0;
    assert(s@.skip(0) =~= s@);
    assert(views(out@) + split(s@, sep) =~= split(s@, sep));
    while j < n
        invariant
            cs@ == s@,
            n == cs@.len(),
            0 <= start <= j <= n,
            views(out@) + split(s@.skip(start as int), sep) == split(s@, sep),
            forall|k: int| start <= k < j ==> cs@[k] != sep,
        decreases n - j,
    {
        if cs[j] == sep {
            let piece = s.substring_char(start, j);
            proof {
                let rest = s@.skip(start as int);
                lemma_index_of_found(rest, sep, (j - start) as int);
                assert(rest.take((j - start) as int) =~= piece@);
                assert(rest.skip((j - start) as int + 1) =~= s@.skip(j + 1));
            }
            let ghost prev = out@;
            out.push(piece);
            assert(views(out@) =~= views(prev).push(piece@));
            start = j + 1;
        }
        j = j + 1;
    }
    let last = s.substring_char(start, n);
    proof {
        let rest = s@.skip(start as int);
        lemma_index_of_absent(rest, sep);
        assert(rest =~= last@);
    }
    let ghost prev = out@;
    out.push(last);
    assert(views(out@) =~= views(prev).push(last@));
    out
}

/// The non-empty pieces of `parts`, in order.
pub open spec fn non_empty(parts: Seq<Seq<char>>) -> Seq<Seq<char>>
    decreases parts.len(),
{
    if parts.len() == 0 {
        Seq::empty()
    } else {
        let r = non_empty(parts.drop_last());
        if parts.last().len() > 0 {
            r.push(parts.last())
        } else {
            r
        }
    }
}

/// Keeps the non-empty pieces of `parts`, in order.
pub fn filter_non_empty<'a>(parts: &Vec<&'a str>) -> (r: Vec<&'a str>)
    ensures
        views(r@) == non_empty(views(parts@)),
{
    let n = parts.len();
    let mut out: Vec<&'a str> = Vec::new();
    let mut i: usize = 0;
    proof {
        assert(views(parts@).take(0) =~= Seq::<Seq<char>>::empty());
        assert(views(out@) =~= Seq::<Seq<char>>::empty());
    }
    while i < n
        invariant
            n == parts@.len(),
            i <= n,
            views(out@) == non_empty(views(parts@).take(i as int)),
        decreases n - i,
    {
        let p: &'a str = parts[i];
        let ghost prev = out@;
        if !p.is_empty() {
            out.push(p);
            assert(views(out@) =~= views(prev).push(p@));
        }
        proof {
            let t = views(parts@).take(i + 1);
            assert(t.drop_last() =~= views(parts@).take(i as int));
            assert(t.last() == p@);
        }
        i = i + 1;
    }
    proof {
        assert(views(parts@).take(n as int) =~= views(parts@));
    }
    out
}

/// `c` has the Unicode `White_Space` property, which is what
/// `char::is_whitespace` (and so `str::trim`) tests.
pub open spec fn is_whitespace(c: char) -> bool {
    ||| ('\u{9}' <= c && c <= '\u{d}')
    ||| c == ' '
    ||| c == '\u{85}'
    ||| c == '\u{a0}'
    ||| c == '\u{1680}'
    ||| ('\u{2000}' <= c && c <= '\u{200a}')
    ||| c == '\u{2028}'
    ||| c == '\u{2029}'
    ||| c == '\u{202f}'
    ||| c == '\u{205f}'
    ||| c == '\u{3000}'
}

/// Whether `c` is whitespace, as `char::is_whitespace` decides it.
pub fn char_is_whitespace(c: char) -> (r: bool)
    ensures
        r == is_whitespace(c),
{
    ('\u{9}' <= c && c <= '\u{d}') || c == ' ' || c == '\u{85}' || c == '\u{a0}' || c == '\u{1680}'
        || ('\u{2000}' <= c && c <= '\u{200a}') || c == '\u{2028}' || c == '\u{2029}' || c == '\u{202f}'
        || c == '\u{205f}' || c == '\u{3000}'
}

/// A set of characters that trimming removes.
#[derive(Clone, Copy)]
pub enum Strip {
    /// Unicode whitespace.
    Whitespace,
    /// One given character.
    Char(char),
    /// Everything but Unicode whitespace.
    NonWhitespace,
}

/// `c` belongs to the set `k`.
pub open spec fn strips(k: Strip, c: char) -> bool {
    match k {
        Strip::Whitespace => is_whitespace(c),
        Strip::Char(x) => c == x,
        Strip::NonWhitespace => !is_whitespace(c),
    }
}

fn strips_exec(k: Strip, c: char) -> (r: bool)
    ensures
        r == strips(k, c),
{
    match k {
        Strip::Whitespace => char_is_whitespace(c),
        Strip::Char(x) => c == x,
        Strip::NonWhitespace => !char_is_whitespace(c),
    }
}

/// The number of leading characters of `s` in `k`.
pub open spec fn lead_count(s: Seq<char>, k: Strip) -> nat
    decreases s.len(),
{
    if s.len() > 0 && strips(k, s[0]) {
        1 + lead_count(s.drop_first(), k)
    } else {
        0
    }
}

/// The number of trailing characters of `s` in `k`.
pub open spec fn trail_count(s: Seq<char>, k: Strip) -> nat
    decreases s.len(),
{
    if s.len() > 0 && strips(k, s.last()) {
        1 + trail_count(s.drop_last(), k)
    } else {
        0
    }
}

proof fn lemma_lead_count_bound(s: Seq<char>, k: Strip)
    ensures
        lead_count(s, k) <= s.len(),
    decreases s.len(),
{
    if s.len() > 0 && strips(k, s[0]) {
        lemma_lead_count_bound(s.drop_first(), k);
    }
}

proof fn lemma_trail_count_bound(s: Seq<char>, k: Strip)
    ensures
        trail_count(s, k) <= s.len(),
    decreases s.len(),
{
    if s.len() > 0 && strips(k, s.last()) {
        lemma_trail_count_bound(s.drop_last(), k);
    }
}

/// `s` without its leading characters in `k`.
pub open spec fn trim_start_by(s: Seq<char>, k: Strip) -> Seq<char> {
    s.skip(lead_count(s, k) as int)
}

/// `s` without its trailing characters in `k`.
pub open spec fn trim_end_by(s: Seq<char>, k: Strip) -> Seq<char> {
    s.take(s.len() - trail_count(s, k))
}

/// `s` without its leading and trailing characters in `k`.
pub open spec fn trim_by(s: Seq<char>, k: Strip) -> Seq<char> {
    trim_end_by(trim_start_by(s, k), k)
}

/// `s` without leading and trailing whitespace, as `str::trim` gives it.
pub open spec fn trim(s: Seq<char>) -> Seq<char> {
    trim_by(s, Strip::Whitespace)
}

/// The number of leading characters of `cs[from..]` in `k`.
fn lead_len(cs: &Vec<char>, from: usize, k: Strip) -> (r: usize)
    requires
        from <= cs@.len(),
    ensures
        r == from + lead_count(cs@.skip(from as int), k),
        r <= cs@.len(),
{
    let n = cs.len();
    let mut i = from;
    while i < n && strips_exec(k, cs[i])
        invariant
            from <= i <= n,
            n == cs@.len(),
            lead_count(cs@.skip(from as int), k) == (i - from) + lead_count(cs@.skip(i as int), k),
        decreases n - i,
    {
        proof {
            assert(cs@.skip(i as int).drop_first() =~= cs@.skip(i + 1));
        }
        i = i + 1;
    }
    i
}

/// The number of trailing characters of `cs[..to]` in `k`.
fn trail_len(cs: &Vec<char>, to: usize, k: Strip) -> (r: usize)
    requires
        to <= cs@.len(),
    ensures
        r == trail_count(cs@.take(to as int), k),
        r <= to,
{
    let mut i = to;
    while i > 0 && strips_exec(k, cs[i - 1])
        invariant
            i <= to <= cs@.len(),
            trail_count(cs@.take(to as int), k) == (to - i) + trail_count(cs@.take(i as int), k),
        decreases i,
    {
        proof {
            assert(cs@.take(i as int).drop_last() =~= cs@.take(i - 1));
        }
        i = i - 1;
    }
    to - i
}

/// `s` without its leading and trailing characters in `k`.
pub fn trim_chars<'a>(s: &'a str, k: Strip) -> (r: &'a str)
    ensures
        r@ == trim_by(s@, k),
{
    let cs = chars_of(s);
    let n = cs.len();
    let a = lead_len(&cs, 0, k);
    proof {
        assert(cs@.skip(0) =~= cs@);
    }
    let b = trail_len(&cs, n, k);
    proof {
        assert(cs@.take(n as int) =~= cs@);
    }
    let ghost t = s@.skip(a as int);
    // the trailing run of `t` is the trailing run of `s`, cut at `a`
    let end = if n - b >= a { n - b } else { a };
    proof {
        lemma_trail_of_suffix(s@, a as int, k);
    }
    let r = s.substring_char(a, end);
    proof {
        assert(r@ =~= t.take(t.len() - trail_count(t, k)));
    }
    r
}

/// Cutting a prefix of leading characters in `k` off `s` leaves the trailing
/// run of `s` in place, unless it reaches into the cut.
proof fn lemma_trail_of_suffix(s: Seq<char>, a: int, k: Strip)
    requires
        a == lead_count(s, k),
    ensures
        trail_count(s.skip(a), k) == if s.len() - trail_count(s, k) >= a {
            trail_count(s, k) as int
        } else {
            s.len() - a
        },
    decreases s.len(),
{
    lemma_lead_count_bound(s, k);
    lemma_trail_count_bound(s, k);
    if s.len() == 0 {
        return;
    }
    if strips(k, s.last()) {
        let d = s.drop_last();
        if a == s.len() {
            assert(s.skip(a).len() == 0);
            return;
        }
        assert(lead_count(d, k) == a) by {
            lemma_lead_prefix(s, k);
        }
        lemma_trail_of_suffix(d, a, k);
        assert(s.skip(a).drop_last() =~= d.skip(a));
        assert(s.skip(a).last() == s.last());
    } else {
        if a < s.len() {
            assert(s.skip(a).last() == s.last());
        }
    }
}

/// Dropping the last character of `s` keeps its leading run, as long as the
/// run does not cover all of `s`.
proof fn lemma_lead_prefix(s: Seq<char>, k: Strip)
    requires
        s.len() > 0,
        lead_count(s, k) < s.len(),
    ensures
        lead_count(s.drop_last(), k) == lead_count(s, k),
    decreases s.len(),
{
    lemma_lead_count_bound(s, k);
    if strips(k, s[0]) {
        let t = s.drop_first();
        lemma_lead_count_bound(t, k);
        if t.len() > 0 {
            lemma_lead_prefix(t, k);
            assert(s.drop_last().drop_first() =~= t.drop_last());
        }
    }
}

/// `s` without leading and trailing whitespace (`str::trim`).
pub fn trim_ws<'a>(s: &'a str) -> (r: &'a str)
    ensures
        r@ == trim(s@),
{
    trim_chars(s, Strip::Whitespace)
}

/// `s` without trailing whitespace (`str::trim_end`).
pub fn trim_end_ws<'a>(s: &'a str) -> (r: &'a str)
    ensures
        r@ == trim_end_by(s@, Strip::Whitespace),
{
    let cs = chars_of(s);
    let n = cs.len();
    let b = trail_len(&cs, n, Strip::Whitespace);
    proof {
        assert(cs@.take(n as int) =~= cs@);
    }
    let r = s.substring_char(0, n - b);
    proof {
        assert(r@ =~= s@.take(s@.len() - trail_count(s@, Strip::Whitespace)));
    }
    r
}

/// The decimal digit for `d < 10`.
pub open spec fn digit_char(d: nat) -> char {
    seq!['0', '1', '2', '3', '4', '5', '6', '7', '8', '9'][d as int]
}

/// The decimal representation of `n`, without leading zeros (as `{}` formats
/// an unsigned integer).
pub open spec fn decimal(n: nat) -> Seq<char>
    decreases n,
{
    if n < 10 {
        seq![digit_char(n)]
    } else {
        decimal(n / 10).push(digit_char(n % 10))
    }
}

/// The decimal representation of a signed integer, with `-` before a negative one.
pub open spec fn signed_decimal(n: int) -> Seq<char> {
    if n < 0 {
        seq!['-'] + decimal((-n) as nat)
    } else {
        decimal(n as nat)
    }
}

/// The decimal representation of `n`.
pub fn format_decimal(n: u64) -> (r: String)
    ensures
        r@ == decimal(n as nat),
    decreases n,
{
    let digits: &str = "0123456789";
    proof {
        reveal_strlit("0123456789");
        assert(digits@ =~= seq!['0', '1', '2', '3', '4', '5', '6', '7', '8', '9']);
    }
    let d = (n % 10) as usize;
    let last = digits.substring_char(d, d + 1);
    proof {
        assert(last@ =~= seq![digit_char(d as nat)]);
    }
    if n < 10 {
        last.to_owned()
    } else {
        let mut r = format_decimal(n / 10);
        r.append(last);
        proof {
            assert(r@ =~= decimal((n / 10) as nat).push(digit_char((n % 10) as nat)));
        }
        r
    }
}

/// The decimal representation of a signed integer.
pub fn format_signed_decimal(n: i64) -> (r: String)
    ensures
        r@ == signed_decimal(n as int),
{
    if n < 0 {
        let mut r = String::new();
        r.append("-");
        let magnitude: u64 = if n == i64::MIN {
            9223372036854775808u64
        } else {
            (-n) as u64
        };
        let digits = format_decimal(magnitude);
        r.append(digits.as_str());
        proof {
            reveal_strlit("-");
            assert(r@ =~= seq!['-'] + decimal((-n) as nat));
        }
        r
    } else {
        format_decimal(n as u64)
    }
}

/// Joins the strings of `parts` with `sep` between neighbours.
pub fn join_strings(parts: &Vec<String>, sep: &str) -> (r: String)
    ensures
        r@ == join(parts.deep_view(), sep@),
{
    let n = parts.len();
    let mut r = String::new();
    let mut i: usize = 0;
    proof {
        assert(parts.deep_view().take(0) =~= Seq::<Seq<char>>::empty());
    }
    while i < n
        invariant
            n == parts@.len(),
            i <= n,
            r@ == join(parts.deep_view().take(i as int), sep@),
        decreases n - i,
    {
        if i > 0 {
            r.append(sep);
        }
        r.append(parts[i].as_str());
        proof {
            let t = parts.deep_view().take(i + 1);
            assert(t.drop_last() =~= parts.deep_view().take(i as int));
            assert(t.last() == parts@[i as int]@);
        }
        i = i + 1;
    }
    proof {
        assert(parts.deep_view().take(n as int) =~= parts.deep_view());
    }
    r
}

/// The whitespace-separated words of `s`, as `str::split_whitespace` yields them.
pub open spec fn words(s: Seq<char>) -> Seq<Seq<char>>
    decreases s.len(),
{
    let t = trim_start_by(s, Strip::Whitespace);
    let w = lead_count(t, Strip::NonWhitespace);
    if t.len() == 0 || w == 0 || w > t.len() || t.len() > s.len() {
        Seq::empty()
    } else {
        seq![t.take(w as int)] + words(t.skip(w as int))
    }
}

/// The whitespace-separated words of `s`.
pub fn split_whitespace<'a>(s: &'a str) -> (r: Vec<&'a str>)
    ensures
        views(r@) == words(s@),
{
    let cs = chars_of(s);
    let n = cs.len();
    let mut out: Vec<&'a str> = Vec::new();
    let mut i: usize = 0;
    proof {
        assert(s@.skip(0) =~= s@);
        assert(views(out@) + words(s@) =~= words(s@));
    }
    loop
        invariant
            cs@ == s@,
            n == cs@.len(),
            i <= n,
            views(out@) + words(s@.skip(i as int)) == words(s@),
        decreases n - i,
    {
        let ghost u = s@.skip(i as int);
        let a = lead_len(&cs, i, Strip::Whitespace);
        proof {
            assert(cs@.skip(i as int) == u);
            lemma_lead_count_bound(u, Strip::Whitespace);
        }
        if a == n {
            proof {
                assert(trim_start_by(u, Strip::Whitespace).len() == 0);
                assert(views(out@) + Seq::<Seq<char>>::empty() =~= views(out@));
            }
            return out;
        }
        let b = lead_len(&cs, a, Strip::NonWhitespace);
        proof {
            let t = trim_start_by(u, Strip::Whitespace);
            assert(t =~= cs@.skip(a as int));
            assert(!is_whitespace(t[0])) by {
                lemma_lead_count_stops(u, Strip::Whitespace);
            }
            assert(b > a);
        }
        let word = s.substring_char(a, b);
        let ghost prev = out@;
        out.push(word);
        proof {
            let t = trim_start_by(u, Strip::Whitespace);
            let w = lead_count(t, Strip::NonWhitespace);
            assert(t.take(w as int) =~= word@);
            assert(t.skip(w as int) =~= s@.skip(b as int));
            assert(views(out@) =~= views(prev).push(word@));
            assert(views(out@) + words(s@.skip(b as int)) =~= views(prev) + words(u));
        }
        i = b;
    }
}

/// The character after a leading run is not in the set.
proof fn lemma_lead_count_stops(s: Seq<char>, k: Strip)
    ensures
        lead_count(s, k) < s.len() ==> !strips(k, s[lead_count(s, k) as int]),
    decreases s.len(),
{
    if s.len() > 0 && strips(k, s[0]) {
        lemma_lead_count_stops(s.drop_first(), k);
    }
}

/// `s` cut at the first `c`: the part before and the part after, as
/// `str::split_once` with a character gives them.
pub open spec fn split_once(s: Seq<char>, c: char) -> Option<(Seq<char>, Seq<char>)> {
    let i = index_of(s, c);
    if 0 <= i < s.len() {
        Some((s.take(i), s.skip(i + 1)))
    } else {
        None
    }
}

/// Cuts `s` at the first `c`.
pub fn split_once_char<'a>(s: &'a str, c: char) -> (r: Option<(&'a str, &'a str)>)
    ensures
        match split_once(s@, c) {
            Some(parts) => r matches Some(x) && x.0@ == parts.0 && x.1@ == parts.1,
            None => r is None,
        },
{
    let cs = chars_of(s);
    let n = cs.len();
    let mut j: usize = 0;
    while j < n
        invariant
            cs@ == s@,
            n == cs@.len(),
            j <= n,
            forall|k: int| 0 <= k < j ==> s@[k] != c,
        decreases n - j,
    {
        if cs[j] == c {
            proof {
                lemma_index_of_found(s@, c, j as int);
            }
            let before = s.substring_char(0, j);
            let after = s.substring_char(j + 1, n);
            proof {
                assert(before@ =~= s@.take(j as int));
                assert(after@ =~= s@.skip(j + 1));
            }
            return Some((before, after));
        }
        j = j + 1;
    }
    proof {
        lemma_index_of_absent(s@, c);
    }
    None
}

/// Whether `a` and `b` hold the same characters.
pub fn str_eq(a: &str, b: &str) -> (r: bool)
    ensures
        r == (a@ == b@),
{
    let x = chars_of(a);
    let y = chars_of(b);
    if x.len() != y.len() {
        return false;
    }
    let n = x.len();
    let mut i: usize = 0;
    while i < n
        invariant
            x@ == a@,
            y@ == b@,
            n == x@.len(),
            n == y@.len(),
            i <= n,
            forall|k: int| 0 <= k < i ==> a@[k] == b@[k],
        decreases n - i,
    {
        if x[i] != y[i] {
            return false;
        }
        i = i + 1;
    }
    proof {
        assert(a@ =~= b@);
    }
    true
}

/// `s` begins with `p`.
pub open spec fn starts_with(s: Seq<char>, p: Seq<char>) -> bool {
    p.len() <= s.len() && s.take(p.len() as int) == p
}

/// `sub` occurs in `s` at position `i`.
pub open spec fn occurs_at(s: Seq<char>, sub: Seq<char>, i: int) -> bool {
    0 <= i && i + sub.len() <= s.len() && s.subrange(i, i + sub.len()) == sub
}

/// `sub` occurs somewhere in `s`.
pub open spec fn contains(s: Seq<char>, sub: Seq<char>) -> bool {
    exists|i: int| occurs_at(s, sub, i)
}

fn occurs_at_exec(s: &Vec<char>, sub: &Vec<char>, i: usize) -> (r: bool)
    ensures
        r == occurs_at(s@, sub@, i as int),
{
    let m = sub.len();
    if i > s.len() || s.len() - i < m {
        return false;
    }
    let mut k: usize = 0;
    while k < m
        invariant
            m == sub@.len(),
            i + m <= s.len(),
            k <= m,
            forall|j: int| 0 <= j < k ==> s@[i + j] == sub@[j],
        decreases m - k,
    {
        if s[i + k] != sub[k] {
            proof {
                assert(s@.subrange(i as int, i + m)[k as int] != sub@[k as int]);
            }
            return false;
        }
        k = k + 1;
    }
    proof {
        assert(s@.subrange(i as int, i + m) =~= sub@);
    }
    true
}

/// Whether `p` is a prefix of `s`.
pub fn str_starts_with(s: &str, p: &str) -> (r: bool)
    ensures
        r == starts_with(s@, p@),
{
    let x = chars_of(s);
    let y = chars_of(p);
    let r = occurs_at_exec(&x, &y, 0);
    proof {
        if r {
            assert(s@.take(p@.len() as int) =~= s@.subrange(0, p@.len() as int));
        } else if p@.len() <= s@.len() {
            assert(s@.take(p@.len() as int) =~= s@.subrange(0, p@.len() as int));
        }
    }
    r
}

/// Whether `sub` occurs in `s`.
pub fn str_contains(s: &str, sub: &str) -> (r: bool)
    ensures
        r == contains(s@, sub@),
{
    let x = chars_of(s);
    let y = chars_of(sub);
    let n = x.len();
    let mut i: usize = 0;
    loop
        invariant
            x@ == s@,
            y@ == sub@,
            n == x@.len(),
            i <= n,
            forall|j: int| 0 <= j < i ==> !occurs_at(s@, sub@, j),
        decreases n - i,
    {
        if occurs_at_exec(&x, &y, i) {
            return true;
        }
        if i == n {
            proof {
                assert forall|j: int| !occurs_at(s@, sub@, j) by {
                    if 0 <= j && j < i {
                    }
                }
            }
            return false;
        }
        i = i + 1;
    }
}

/// `i` is the position of the first occurrence of `sep` in `s`.
pub open spec fn is_first_occurrence(s: Seq<char>, sep: Seq<char>, i: int) -> bool {
    occurs_at(s, sep, i) && forall|j: int| 0 <= j < i ==> !occurs_at(s, sep, j)
}

/// The position of the first occurrence of `sep` in `s`, or -1.
pub open spec fn find_str(s: Seq<char>, sep: Seq<char>) -> int {
    if exists|i: int| is_first_occurrence(s, sep, i) {
        choose|i: int| is_first_occurrence(s, sep, i)
    } else {
        -1
    }
}

proof fn lemma_find_str_found(s: Seq<char>, sep: Seq<char>, i: int)
    requires
        is_first_occurrence(s, sep, i),
    ensures
        find_str(s, sep) == i,
{
    let k = choose|k: int| is_first_occurrence(s, sep, k);
    assert(is_first_occurrence(s, sep, k));
    if k < i {
        assert(!occurs_at(s, sep, k));
    } else if i < k {
        assert(!occurs_at(s, sep, i));
    }
}

/// The pieces of `s` between non-overlapping occurrences of a non-empty `sep`,
/// found left to right, as `str::split` with a string pattern yields them.
pub open spec fn split_str(s: Seq<char>, sep: Seq<char>) -> Seq<Seq<char>>
    decreases s.len(),
{
    let i = find_str(s, sep);
    if 0 <= i && sep.len() > 0 && i + sep.len() <= s.len() {
        seq![s.take(i)] + split_str(s.skip(i + sep.len()), sep)
    } else {
        seq![s]
    }
}

/// Splits `s` at every occurrence of the non-empty `sep`, left to right.
pub fn split_on_str<'a>(s: &'a str, sep: &str) -> (r: Vec<&'a str>)
    requires
        sep@.len() > 0,
    ensures
        views(r@) == split_str(s@, sep@),
{
    let cs = chars_of(s);
    let ps = chars_of(sep);
    let n = cs.len();
    let m = ps.len();
    let mut out: Vec<&'a str> = Vec::new();
    let mut start: usize = 0;
    let mut j: usize = 0;
    proof {
        assert(s@.skip(0) =~= s@);
        assert(views(out@) + split_str(s@, sep@) =~= split_str(s@, sep@));
    }
    while j < n
        invariant
            cs@ == s@,
            ps@ == sep@,
            n == cs@.len(),
            m == ps@.len(),
            m > 0,
            start <= j <= n,
            views(out@) + split_str(s@.skip(start as int), sep@) == split_str(s@, sep@),
            forall|k: int| start <= k < j ==> !occurs_at(s@, sep@, k),
        decreases n - j,
    {
        if occurs_at_exec(&cs, &ps, j) {
            let piece = s.substring_char(start, j);
            proof {
                let rest = s@.skip(start as int);
                let d = (j - start) as int;
                assert(occurs_at(rest, sep@, d)) by {
                    assert(rest.subrange(d, d + m) =~= s@.subrange(j as int, j + m));
                }
                assert forall|k: int| 0 <= k < d implies !occurs_at(rest, sep@, k) by {
                    if occurs_at(rest, sep@, k) {
                        assert(rest.subrange(k, k + m) =~= s@.subrange(start + k, start + k + m));
                        assert(occurs_at(s@, sep@, start + k));
                    }
                }
                lemma_find_str_found(rest, sep@, d);
                assert(rest.take(d) =~= piece@);
                assert(rest.skip(d + m) =~= s@.skip(j + m));
            }
            let ghost prev = out@;
            out.push(piece);
            assert(views(out@) =~= views(prev).push(piece@));
            start = j + m;
            j = j + m;
        } else {
            j = j + 1;
        }
    }
    let last = s.substring_char(start, n);
    proof {
        let rest = s@.skip(start as int);
        assert forall|k: int| #[trigger] occurs_at(rest, sep@, k) implies false by {
            assert(rest.subrange(k, k + m) =~= s@.subrange(start + k, start + k + m));
            assert(occurs_at(s@, sep@, start + k));
        }
        assert(!exists|i: int| is_first_occurrence(rest, sep@, i));
        assert(rest =~= last@);
    }
    let ghost prev = out@;
    out.push(last);
    assert(views(out@) =~= views(prev).push(last@));
    out
}

/// `s` is made of ASCII decimal digits only.
pub open spec fn all_digits(s: Seq<char>) -> bool {
    forall|i: int| 0 <= i < s.len() ==> '0' <= #[trigger] s[i] && s[i] <= '9'
}

/// The value of the decimal digits `s`.
pub open spec fn digits_value(s: Seq<char>) -> nat
    decreases s.len(),
{
    if s.len() == 0 {
        0
    } else {
        digits_value(s.drop_last()) * 10 + ((s.last() as u32) - ('0' as u32)) as nat
    }
}

/// The integer that `s` denotes as Rust's integer parsing reads it: an
/// optional `+` (or `-` when `signed`) and at least one decimal digit.
pub open spec fn parse_int(s: Seq<char>, signed: bool) -> Option<int> {
    let neg = signed && s.len() > 0 && s[0] == '-';
    let ds = if s.len() > 0 && (s[0] == '+' || neg) {
        s.drop_first()
    } else {
        s
    };
    if ds.len() > 0 && all_digits(ds) {
        Some(if neg {
            -(digits_value(ds) as int)
        } else {
            digits_value(ds) as int
        })
    } else {
        None
    }
}

/// `s` parsed as an `i8` (`str::parse::<i8>`), when it is one.
pub open spec fn parse_i8(s: Seq<char>) -> Option<i8> {
    match parse_int(s, true) {
        Some(v) => if -128 <= v <= 127 {
            Some(v as i8)
        } else {
            None
        },
        None => None,
    }
}

/// `s` parsed as a `usize` (`str::parse::<usize>`), when it is one.
pub open spec fn parse_usize(s: Seq<char>) -> Option<usize> {
    match parse_int(s, false) {
        Some(v) => if 0 <= v <= usize::MAX {
            Some(v as usize)
        } else {
            None
        },
        None => None,
    }
}

/// The value of the digits `cs[from..]`, or `limit + 1` when it exceeds
/// `limit`, and whether they are all digits (and at least one).
fn digits_capped(cs: &Vec<char>, from: usize, limit: u128) -> (r: (bool, u128))
    requires
        from <= cs@.len(),
        limit < u128::MAX,
    ensures
        r.0 == (cs@.skip(from as int).len() > 0 && all_digits(cs@.skip(from as int))),
        r.0 ==> r.1 == if digits_value(cs@.skip(from as int)) > limit {
            (limit + 1) as int
        } else {
            digits_value(cs@.skip(from as int)) as int
        },
{
    let n = cs.len();
    if from == n {
        return (false, 0);
    }
    let mut acc: u128 = 0;
    let mut i = from;
    proof {
        assert(cs@.subrange(from as int, from as int) =~= Seq::<char>::empty());
    }
    while i < n
        invariant
            from <= i <= n,
            n == cs@.len(),
            limit < u128::MAX,
            all_digits(cs@.subrange(from as int, i as int)),
            acc == if digits_value(cs@.subrange(from as int, i as int)) > limit {
                (limit + 1) as int
            } else {
                digits_value(cs@.subrange(from as int, i as int)) as int
            },
        decreases n - i,
    {
        let c = cs[i];
        if c < '0' || c > '9' {
            proof {
                assert(cs@.skip(from as int)[i - from] == c);
            }
            return (false, 0);
        }
        let d: u128 = ((c as u32) - ('0' as u32)) as u128;
        let ghost prefix = cs@.subrange(from as int, i + 1);
        let ghost before = digits_value(cs@.subrange(from as int, i as int));
        proof {
            assert(prefix.drop_last() =~= cs@.subrange(from as int, i as int));
            assert(prefix.last() == c);
            assert(digits_value(prefix) == before * 10 + d);
        }
        if acc > limit {
            proof {
                assert(before * 10 + d > limit) by (nonlinear_arith)
                    requires
                        before > limit,
                ;
            }
            acc = limit + 1;
        } else if d > limit || acc > (limit - d) / 10 {
            proof {
                assert(before * 10 + d > limit) by (nonlinear_arith)
                    requires
                        d > limit || before > (limit - d) / 10,
                        d <= 9,
                ;
            }
            acc = limit + 1;
        } else {
            proof {
                assert(acc * 10 + d <= limit) by (nonlinear_arith)
                    requires
                        acc <= (limit - d) / 10,
                        d <= limit,
                ;
            }
            acc = acc * 10 + d;
        }
        proof {
            assert(all_digits(prefix)) by {
                assert forall|k: int| 0 <= k < prefix.len() implies '0' <= #[trigger] prefix[k] && prefix[k] <= '9' by {
                    if k < prefix.len() - 1 {
                        assert(prefix[k] == cs@.subrange(from as int, i as int)[k]);
                    }
                }
            }
        }
        i = i + 1;
    }
    proof {
        assert(cs@.subrange(from as int, n as int) =~= cs@.skip(from as int));
    }
    (true, acc)
}

/// Parses `s` as a `usize`, as `str::parse::<usize>` does.
pub fn parse_usize_exec(s: &str) -> (r: Option<usize>)
    ensures
        r == parse_usize(s@),
{
    let cs = chars_of(s);
    let from: usize = if cs.len() > 0 && cs[0] == '+' { 1 } else { 0 };
    proof {
        assert(cs@.skip(0) =~= s@);
        assert(from == 1 ==> cs@.skip(1) =~= s@.drop_first());
    }
    let limit: u128 = usize::MAX as u128;
    let (ok, v) = digits_capped(&cs, from, limit);
    if !ok || v > limit {
        return None;
    }
    Some(v as usize)
}

/// Parses `s` as an `i8`, as `str::parse::<i8>` does.
pub fn parse_i8_exec(s: &str) -> (r: Option<i8>)
    ensures
        r == parse_i8(s@),
{
    let cs = chars_of(s);
    let neg = cs.len() > 0 && cs[0] == '-';
    let from: usize = if cs.len() > 0 && (cs[0] == '+' || neg) { 1 } else { 0 };
    proof {
        assert(cs@.skip(0) =~= s@);
        assert(from == 1 ==> cs@.skip(1) =~= s@.drop_first());
    }
    let (ok, v) = digits_capped(&cs, from, 128u128);
    if !ok {
        return None;
    }
    if neg {
        if v > 128 {
            None
        } else {
            Some((0 - (v as i16)) as i8)
        }
    } else {
        if v > 127 {
            None
        } else {
            Some(v as i8)
        }
    }
}

/// `s` in lower case, as `str::to_lowercase` gives it: the Unicode lower-case
/// mapping, under which a character may become several characters and a
/// capital sigma depends on its neighbours.
pub uninterp spec fn lowercase(s: Seq<char>) -> Seq<char>;

/// Calls `str::to_lowercase`; its result is `lowercase` of the argument. What
/// `lowercase` gives on a particular string is left unstated.
#[verifier::external_body]
pub fn to_lowercase(s: &str) -> (r: String)
    ensures
        r@ == lowercase(s@),
{
    s.to_lowercase()
}

/// The text that `String::from_utf8_lossy` makes of the bytes `b`.
pub uninterp spec fn lossy_utf8(b: Seq<u8>) -> Seq<char>;

/// Calls `String::from_utf8_lossy`, which decodes `b` as UTF-8 and puts
/// U+FFFD in place of each invalid sequence. Its result is `lossy_utf8` of the
/// bytes, and, where the bytes are valid UTF-8, the text they encode; what it
/// gives on invalid input is left unstated.
#[verifier::external_body]
pub(crate) fn decode_lossy(b: &[u8]) -> (r: String)
    ensures
        r@ == lossy_utf8(b@),
        vstd::utf8::valid_utf8(b@) ==> r@ == vstd::utf8::decode_utf8(b@),
{
    String::from_utf8_lossy(b).into_owned()
}

/// The pieces of `parts` joined with `sep` between neighbours, as `join` on a
/// slice of strings gives them.
pub open spec fn join(parts: Seq<Seq<char>>, sep: Seq<char>) -> Seq<char>
    decreases parts.len(),
{
    if parts.len() == 0 {
        Seq::empty()
    } else if parts.len() == 1 {
        parts[0]
    } else {
        join(parts.drop_last(), sep) + sep + parts.last()
    }
}

/// Joins `parts[start..]` with `sep` between neighbours.
pub fn join_from(parts: &[&str], start: usize, sep: &str) -> (r: String)
    requires
        start <= parts@.len(),
    ensures
        r@ == join(views(parts@).skip(start as int), sep@),
{
    let n = parts.len();
    let mut r = String::new();
    let mut i = start;
    proof {
        assert(views(parts@).skip(start as int).take(0) =~= Seq::<Seq<char>>::empty());
    }
    while i < n
        invariant
            n == parts@.len(),
            start <= i <= n,
            r@ == join(views(parts@).skip(start as int).take(i - start), sep@),
        decreases n - i,
    {
        let ghost all = views(parts@).skip(start as int);
        if i > start {
            r.append(sep);
        }
        r.append(parts[i]);
        proof {
            let t = all.take(i - start + 1);
            assert(t.drop_last() =~= all.take(i - start));
            assert(t.last() == parts@[i as int]@);
            if i == start {
                assert(t.len() == 1);
            }
        }
        i = i + 1;
    }
    proof {
        let all = views(parts@).skip(start as int);
        assert(all.take(n - start) =~= all);
    }
    r
}

} // verus!
