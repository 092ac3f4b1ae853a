//! The segment trie behind the router: static segments, named parameters and
//! catch-all tails, matched with the priority static > parameter > catch-all.
use vstd::prelude::*;
use vstd::string::*;
use crate::http::request::Method;
use crate::http::text::{chars_of, index_of, join, join_from, no_duplicates, views};

verus! {

/// What a route segment stands for.
#[derive(Debug, Clone, Copy, PartialEq, Eq, Structural)]
pub enum SegmentKind {
    Static,
    Param,
    CatchAll,
}

/// A parsed route segment and its name.
pub enum Segment {
    Static(String),
    Param(String),
    CatchAll(String),
}

/// `{...}` around the segment.
pub open spec fn braced(s: Seq<char>) -> bool {
    s.len() >= 2 && s[0] == '{' && s[s.len() - 1] == '}'
}

/// The kind of route segment `s` denotes: `{*name}` and `*name` are catch-all
/// tails, `{name}` and `:name` are parameters, anything else is static.
pub open spec fn segment_kind(s: Seq<char>) -> SegmentKind {
    if braced(s) {
        let inner = s.subrange(1, s.len() - 1);
        if inner.len() > 0 && inner[0] == '*' {
            SegmentKind::CatchAll
        } else {
            SegmentKind::Param
        }
    } else if s.len() > 0 && s[0] == '*' {
        SegmentKind::CatchAll
    } else if s.len() > 0 && s[0] == ':' {
        SegmentKind::Param
    } else {
        SegmentKind::Static
    }
}

/// The name that segment `s` carries.
pub open spec fn segment_name(s: Seq<char>) -> Seq<char> {
    if braced(s) {
        let inner = s.subrange(1, s.len() - 1);
        if inner.len() > 0 && inner[0] == '*' {
            inner.drop_first()
        } else {
            inner
        }
    } else if s.len() > 0 && (s[0] == '*' || s[0] == ':') {
        s.drop_first()
    } else {
        s
    }
}

/// Parses one route segment.
pub fn parse_segment(s: &str) -> (r: Segment)
    ensures
        match r {
            Segment::Static(n) => segment_kind(s@) == SegmentKind::Static && n@ == segment_name(s@),
            Segment::Param(n) => segment_kind(s@) == SegmentKind::Param && n@ == segment_name(s@),
            Segment::CatchAll(n) => segment_kind(s@) == SegmentKind::CatchAll && n@ == segment_name(s@),
        },
{
    let cs = chars_of(s);
    let n = cs.len();
    if n >= 2 && cs[0] == '{' && cs[n - 1] == '}' {
        if n >= 3 && cs[1] == '*' {
            let name = s.substring_char(2, n - 1);
            proof {
                assert(name@ =~= s@.subrange(1, n - 1).drop_first());
            }
            Segment::CatchAll(name.to_owned())
        } else {
            let name = s.substring_char(1, n - 1);
            Segment::Param(name.to_owned())
        }
    } else if n >= 1 && cs[0] == '*' {
        let name = s.substring_char(1, n);
        proof {
            assert(name@ =~= s@.drop_first());
        }
        Segment::CatchAll(name.to_owned())
    } else if n >= 1 && cs[0] == ':' {
        let name = s.substring_char(1, n);
        proof {
            assert(name@ =~= s@.drop_first());
        }
        Segment::Param(name.to_owned())
    } else {
        Segment::Static(s.to_owned())
    }
}

/// A node of the route trie: the handlers registered for the path that ends
/// here, the static children by segment, and at most one parameter child and
/// one catch-all child.
pub struct Node<H> {
    handlers: Vec<(Method, H)>,
    static_children: Vec<(String, Node<H>)>,
    param_child: Option<(String, Box<Node<H>>)>,
    catch_all_child: Option<(String, Box<Node<H>>)>,
}

/// The contents of one trie node, as mathematical values.
pub struct NodeShape<H> {
    pub handlers: Seq<(Method, H)>,
    pub statics: Seq<(String, Node<H>)>,
    pub param: Option<(String, Box<Node<H>>)>,
    pub catch_all: Option<(String, Box<Node<H>>)>,
}

/// The contents of a node with nothing registered below it.
pub open spec fn empty_shape<H>() -> NodeShape<H> {
    NodeShape { handlers: Seq::empty(), statics: Seq::empty(), param: None, catch_all: None }
}

/// The methods registered in a handler list, in order.
pub open spec fn methods<H>(hs: Seq<(Method, H)>) -> Seq<Method> {
    hs.map_values(|p: (Method, H)| p.0)
}

/// The segment names of a list of static children, in order.
pub open spec fn names<H>(cs: Seq<(String, Node<H>)>) -> Seq<Seq<char>> {
    cs.map_values(|p: (String, Node<H>)| p.0@)
}

/// The handler registered for `m` (the first entry for `m`).
pub open spec fn handler_for<H>(hs: Seq<(Method, H)>, m: Method) -> Option<H> {
    let i = index_of(methods(hs), m);
    if 0 <= i < hs.len() {
        Some(hs[i].1)
    } else {
        None
    }
}

/// The handler list after registering `h` for `m`: the entry for `m` is
/// replaced, or a new entry is appended.
pub open spec fn handlers_set<H>(hs: Seq<(Method, H)>, m: Method, h: H) -> Seq<(Method, H)> {
    let i = index_of(methods(hs), m);
    if 0 <= i < hs.len() {
        hs.update(i, (m, h))
    } else {
        hs.push((m, h))
    }
}

impl<H> Node<H> {
    /// Every node of the trie has at most one handler per method and at most
    /// one static child per segment.
    pub closed spec fn wf(self) -> bool
        decreases self,
        via Self::wf_decreases
    {
        &&& no_duplicates(methods(self.handlers@))
        &&& no_duplicates(names(self.static_children@))
        &&& forall|i: int| 0 <= i < self.static_children@.len() ==> (#[trigger] self.static_children@[i]).1.wf()
        &&& match self.param_child {
            Some(p) => p.1.wf(),
            None => true,
        }
        &&& match self.catch_all_child {
            Some(c) => c.1.wf(),
            None => true,
        }
    }

    #[via_fn]
    proof fn wf_decreases(self) {
        assert forall|i: int| 0 <= i < self.static_children@.len() implies decreases_to!(self => (#[trigger] self.static_children@[i]).1) by {
            assert(decreases_to!(self => self.static_children));
            assert(decreases_to!(self.static_children => self.static_children@));
            assert(decreases_to!(self.static_children@ => self.static_children@[i]));
            assert(decreases_to!(self.static_children@[i] => self.static_children@[i].1));
        }
        match self.param_child {
            Some(p) => {
                assert(decreases_to!(self => self.param_child));
                assert(decreases_to!(self.param_child => p));
                assert(decreases_to!(p => p.1));
            },
            None => {},
        }
        match self.catch_all_child {
            Some(c) => {
                assert(decreases_to!(self => self.catch_all_child));
                assert(decreases_to!(self.catch_all_child => c));
                assert(decreases_to!(c => c.1));
            },
            None => {},
        }
    }

    /// `self` and `other` hold the same routes: equal handler lists, static
    /// children under the same names in the same order, and parameter and
    /// catch-all children under the same names, each pair holding the same
    /// routes in turn.
    pub closed spec fn same_routes(self, other: Node<H>) -> bool
        decreases self,
        via Self::same_routes_decreases
    {
        &&& self.handlers@ == other.handlers@
        &&& self.static_children@.len() == other.static_children@.len()
        &&& forall|i: int|
            0 <= i < self.static_children@.len() ==> (#[trigger] self.static_children@[i]).0
                == other.static_children@[i].0 && self.static_children@[i].1.same_routes(
                other.static_children@[i].1,
            )
        &&& match self.param_child {
            Some(a) => other.param_child matches Some(b) && a.0 == b.0 && a.1.same_routes(*b.1),
            None => other.param_child is None,
        }
        &&& match self.catch_all_child {
            Some(a) => other.catch_all_child matches Some(b) && a.0 == b.0 && a.1.same_routes(*b.1),
            None => other.catch_all_child is None,
        }
    }

    #[via_fn]
    proof fn same_routes_decreases(self, other: Node<H>) {
        assert forall|i: int| 0 <= i < self.static_children@.len() implies decreases_to!(self => (#[trigger] self.static_children@[i]).1) by {
            assert(decreases_to!(self => self.static_children));
            assert(decreases_to!(self.static_children => self.static_children@));
            assert(decreases_to!(self.static_children@ => self.static_children@[i]));
            assert(decreases_to!(self.static_children@[i] => self.static_children@[i].1));
        }
        match self.param_child {
            Some(p) => {
                assert(decreases_to!(self => self.param_child));
                assert(decreases_to!(self.param_child => p));
                assert(decreases_to!(p => p.1));
            },
            None => {},
        }
        match self.catch_all_child {
            Some(c) => {
                assert(decreases_to!(self => self.catch_all_child));
                assert(decreases_to!(self.catch_all_child => c));
                assert(decreases_to!(c => c.1));
            },
            None => {},
        }
    }

    /// The contents of this node.
    pub closed spec fn shape(self) -> NodeShape<H> {
        NodeShape {
            handlers: self.handlers@,
            statics: self.static_children@,
            param: self.param_child,
            catch_all: self.catch_all_child,
        }
    }
}

/// The handler and the captured parameters that matching the path `q` from a
/// node with contents `n` yields for method `m`: static children first, then
/// the parameter child (capturing the segment), then the catch-all child
/// (capturing the rest of the path joined with `/`).
pub open spec fn shape_match<H>(n: NodeShape<H>, m: Method, q: Seq<Seq<char>>) -> Option<(H, Seq<Seq<char>>)>
    decreases q.len(),
{
    if q.len() == 0 {
        match handler_for(n.handlers, m) {
            Some(h) => Some((h, Seq::<Seq<char>>::empty())),
            None => None,
        }
    } else {
        let part = q[0];
        let rest = q.drop_first();
        let i = index_of(names(n.statics), part);
        let by_static = if 0 <= i < n.statics.len() {
            shape_match(n.statics[i].1.shape(), m, rest)
        } else {
            None
        };
        if by_static is Some {
            by_static
        } else {
            let by_param = match n.param {
                Some(p) => match shape_match(p.1.shape(), m, rest) {
                    Some(found) => Some((found.0, seq![part] + found.1)),
                    None => None,
                },
                None => None,
            };
            if by_param is Some {
                by_param
            } else {
                match n.catch_all {
                    Some(c) => match handler_for(c.1.shape().handlers, m) {
                        Some(h) => Some((h, seq![join(q, seq!['/'])])),
                        None => None,
                    },
                    None => None,
                }
            }
        }
    }
}

impl<H: Copy> Default for Node<H> {
    /// An empty node.
    fn default() -> (r: Self)
        ensures
            r.shape() == empty_shape::<H>(),
            r.wf(),
    {
        Node::new()
    }
}

impl<H: Copy> Node<H> {
    /// An empty node.
    pub fn new() -> (r: Self)
        ensures
            r.shape() == empty_shape::<H>(),
            r.wf(),
    {
        let r = Node {
            handlers: Vec::new(),
            static_children: Vec::new(),
            param_child: None,
            catch_all_child: None,
        };
        proof {
            assert(r.shape().handlers =~= Seq::<(Method, H)>::empty());
            assert(r.shape().statics =~= Seq::<(String, Node<H>)>::empty());
            assert(methods(r.handlers@) =~= Seq::<Method>::empty());
            assert(names(r.static_children@) =~= Seq::<Seq<char>>::empty());
        }
        r
    }
}

impl<H: Copy> Clone for Node<H> {
    /// A copy that holds the same routes.
    fn clone(&self) -> (r: Self)
        ensures
            r.same_routes(*self),
        decreases self,
    {
        let mut handlers: Vec<(Method, H)> = Vec::new();
        let n = self.handlers.len();
        let mut i: usize = 0;
        while i < n
            invariant
                n == self.handlers@.len(),
                i <= n,
                handlers@ == self.handlers@.take(i as int),
            decreases n - i,
        {
            handlers.push(self.handlers[i]);
            proof {
                assert(self.handlers@.take(i + 1) =~= self.handlers@.take(i as int).push(self.handlers@[i as int]));
            }
            i = i + 1;
        }
        proof {
            assert(self.handlers@.take(n as int) =~= self.handlers@);
        }
        let mut statics: Vec<(String, Node<H>)> = Vec::new();
        let k = self.static_children.len();
        let mut j: usize = 0;
        while j < k
            invariant
                k == self.static_children@.len(),
                j <= k,
                statics@.len() == j,
                forall|t: int|
                    0 <= t < j ==> (#[trigger] statics@[t]).0 == self.static_children@[t].0
                        && statics@[t].1.same_routes(self.static_children@[t].1),
            decreases k - j,
        {
            let entry = &self.static_children[j];
            proof {
                assert(decreases_to!(self => self.static_children));
                assert(decreases_to!(self.static_children => self.static_children@));
                assert(decreases_to!(self.static_children@ => self.static_children@[j as int]));
                assert(decreases_to!(self.static_children@[j as int] => self.static_children@[j as int].1));
            }
            let child = entry.1.clone();
            statics.push((entry.0.clone(), child));
            j = j + 1;
        }
        let param_child = match &self.param_child {
            Some(p) => {
                proof {
                    assert(decreases_to!(self => self.param_child));
                    assert(decreases_to!(self.param_child => *p));
                    assert(decreases_to!(*p => p.1));
                }
                let c: Node<H> = (*p.1).clone();
                Some((p.0.clone(), Box::new(c)))
            },
            None => None,
        };
        let catch_all_child = match &self.catch_all_child {
            Some(p) => {
                proof {
                    assert(decreases_to!(self => self.catch_all_child));
                    assert(decreases_to!(self.catch_all_child => *p));
                    assert(decreases_to!(*p => p.1));
                }
                let c: Node<H> = (*p.1).clone();
                Some((p.0.clone(), Box::new(c)))
            },
            None => None,
        };
        Node { handlers, static_children: statics, param_child, catch_all_child }
    }
}

/// `new` is a node with contents `old` after the route with segments `pat`
/// was registered there for `m` with `h`: a static segment goes to the child of
/// that name (created when there is none), a parameter segment to the parameter
/// child (created under this segment's name when there is none), and a
/// catch-all segment registers `h` on the catch-all child, whatever follows it.
pub open spec fn inserted<H>(old: NodeShape<H>, new: Node<H>, m: Method, pat: Seq<Seq<char>>, h: H) -> bool
    decreases pat.len(),
{
    let ns = new.shape();
    if pat.len() == 0 {
        &&& ns.handlers == handlers_set(old.handlers, m, h)
        &&& ns.statics == old.statics
        &&& ns.param == old.param
        &&& ns.catch_all == old.catch_all
    } else {
        let seg = pat[0];
        let rest = pat.drop_first();
        let name = segment_name(seg);
        &&& ns.handlers == old.handlers
        &&& match segment_kind(seg) {
            SegmentKind::Static => {
                let i = index_of(names(old.statics), seg);
                &&& ns.param == old.param
                &&& ns.catch_all == old.catch_all
                &&& if 0 <= i < old.statics.len() {
                    &&& ns.statics.len() == old.statics.len()
                    &&& forall|j: int| 0 <= j < old.statics.len() && j != i ==> ns.statics[j] == old.statics[j]
                    &&& ns.statics[i].0 == old.statics[i].0
                    &&& inserted(old.statics[i].1.shape(), ns.statics[i].1, m, rest, h)
                } else {
                    &&& ns.statics.len() == old.statics.len() + 1
                    &&& forall|j: int| 0 <= j < old.statics.len() ==> ns.statics[j] == old.statics[j]
                    &&& ns.statics[old.statics.len() as int].0@ == name
                    &&& inserted(empty_shape(), ns.statics[old.statics.len() as int].1, m, rest, h)
                }
            },
            SegmentKind::Param => {
                &&& ns.statics == old.statics
                &&& ns.catch_all == old.catch_all
                &&& ns.param matches Some(np) && match old.param {
                    Some(op) => np.0 == op.0 && inserted(op.1.shape(), *np.1, m, rest, h),
                    None => np.0@ == name && inserted(empty_shape(), *np.1, m, rest, h),
                }
            },
            SegmentKind::CatchAll => {
                &&& ns.statics == old.statics
                &&& ns.param == old.param
                &&& ns.catch_all matches Some(nc) && {
                    let oc = match old.catch_all {
                        Some(c) => c.1.shape(),
                        None => empty_shape(),
                    };
                    &&& match old.catch_all {
                        Some(c) => nc.0 == c.0,
                        None => nc.0@ == name,
                    }
                    &&& nc.1.shape().handlers == handlers_set(oc.handlers, m, h)
                    &&& nc.1.shape().statics == oc.statics
                    &&& nc.1.shape().param == oc.param
                    &&& nc.1.shape().catch_all == oc.catch_all
                }
            },
        }
    }
}

/// The path `q` is an instance of the route with segments `pat`: static
/// segments equal, a parameter stands for any one segment, and a catch-all
/// stands for one or more remaining segments.
pub open spec fn route_matches(pat: Seq<Seq<char>>, q: Seq<Seq<char>>) -> bool
    decreases pat.len(),
{
    if pat.len() == 0 {
        q.len() == 0
    } else {
        match segment_kind(pat[0]) {
            SegmentKind::Static => q.len() > 0 && q[0] == pat[0] && route_matches(pat.drop_first(), q.drop_first()),
            SegmentKind::Param => q.len() > 0 && route_matches(pat.drop_first(), q.drop_first()),
            SegmentKind::CatchAll => q.len() > 0,
        }
    }
}

/// The values that the parameters and the catch-all tail of the route `pat`
/// capture on the path `q`, in order.
pub open spec fn route_captures(pat: Seq<Seq<char>>, q: Seq<Seq<char>>) -> Seq<Seq<char>>
    decreases pat.len(),
{
    if pat.len() == 0 || q.len() == 0 {
        Seq::empty()
    } else {
        match segment_kind(pat[0]) {
            SegmentKind::Static => route_captures(pat.drop_first(), q.drop_first()),
            SegmentKind::Param => seq![q[0]] + route_captures(pat.drop_first(), q.drop_first()),
            SegmentKind::CatchAll => seq![join(q, seq!['/'])],
        }
    }
}

/// Every segment of `pat` is static.
pub open spec fn all_static(pat: Seq<Seq<char>>) -> bool {
    forall|i: int| 0 <= i < pat.len() ==> segment_kind(#[trigger] pat[i]) == SegmentKind::Static
}

pub(crate) proof fn lemma_handlers_set<H>(hs: Seq<(Method, H)>, m: Method, h: H, m2: Method)
    ensures
        handler_for(handlers_set(hs, m, h), m) == Some(h),
        m2 != m ==> handler_for(handlers_set(hs, m, h), m2) == handler_for(hs, m2),
{
    crate::http::text::lemma_index_of_bounds(methods(hs), m);
    crate::http::text::lemma_index_of_bounds(methods(hs), m2);
    let i = index_of(methods(hs), m);
    let t = handlers_set(hs, m, h);
    if 0 <= i < hs.len() {
        assert(methods(t) =~= methods(hs));
        if m2 != m {
            let k = index_of(methods(hs), m2);
            if k >= 0 {
                assert(k != i);
            }
        }
    } else {
        assert(methods(t) =~= methods(hs).push(m));
        crate::http::text::lemma_index_of_push(methods(hs), m, m);
        crate::http::text::lemma_index_of_push(methods(hs), m, m2);
    }
}

/// Nothing matches below a node with nothing registered.
pub proof fn lemma_empty_matches_nothing<H>(m: Method, q: Seq<Seq<char>>)
    ensures
        shape_match(empty_shape::<H>(), m, q) is None,
{
    let e = empty_shape::<H>();
    assert(methods(e.handlers) =~= Seq::<Method>::empty());
    assert(names(e.statics) =~= Seq::<Seq<char>>::empty());
}

/// Registering a route leaves every lookup as it was, but those for the
/// route's method on paths that are instances of the route.
pub proof fn lemma_insert_keeps_other_lookups<H>(
    old: NodeShape<H>,
    new: Node<H>,
    m: Method,
    pat: Seq<Seq<char>>,
    h: H,
    m2: Method,
    q: Seq<Seq<char>>,
)
    requires
        inserted(old, new, m, pat, h),
        m2 != m || !route_matches(pat, q),
    ensures
        shape_match(new.shape(), m2, q) == shape_match(old, m2, q),
    decreases pat.len(),
{
    let ns = new.shape();
    if pat.len() == 0 {
        lemma_handlers_set(old.handlers, m, h, m2);
        return;
    }
    if q.len() == 0 {
        return;
    }
    let seg = pat[0];
    let rest = pat.drop_first();
    let part = q[0];
    let qr = q.drop_first();
    match segment_kind(seg) {
        SegmentKind::Static => {
            let i = index_of(names(old.statics), seg);
            crate::http::text::lemma_index_of_bounds(names(old.statics), seg);
            crate::http::text::lemma_index_of_bounds(names(old.statics), part);
            if 0 <= i < old.statics.len() {
                assert(names(ns.statics) =~= names(old.statics));
                let k = index_of(names(old.statics), part);
                if k == i {
                    lemma_insert_keeps_other_lookups(old.statics[i].1.shape(), ns.statics[i].1, m, rest, h, m2, qr);
                }
            } else {
                assert(names(ns.statics) =~= names(old.statics).push(seg));
                crate::http::text::lemma_index_of_push(names(old.statics), seg, part);
                if part == seg {
                    let c = ns.statics[old.statics.len() as int].1;
                    lemma_insert_keeps_other_lookups(empty_shape(), c, m, rest, h, m2, qr);
                    lemma_empty_matches_nothing::<H>(m2, qr);
                }
            }
        },
        SegmentKind::Param => {
            let np = ns.param.unwrap();
            match old.param {
                Some(op) => {
                    lemma_insert_keeps_other_lookups(op.1.shape(), *np.1, m, rest, h, m2, qr);
                },
                None => {
                    lemma_insert_keeps_other_lookups(empty_shape(), *np.1, m, rest, h, m2, qr);
                    lemma_empty_matches_nothing::<H>(m2, qr);
                },
            }
        },
        SegmentKind::CatchAll => {
            let oc = match old.catch_all {
                Some(c) => c.1.shape(),
                None => empty_shape(),
            };
            lemma_handlers_set(oc.handlers, m, h, m2);
            assert(methods(empty_shape::<H>().handlers) =~= Seq::<Method>::empty());
        },
    }
}

/// The handler that the static route naming exactly the path `q` registered
/// for `m`, following static children only.
pub open spec fn static_lookup<H>(n: NodeShape<H>, m: Method, q: Seq<Seq<char>>) -> Option<H>
    decreases q.len(),
{
    if q.len() == 0 {
        handler_for(n.handlers, m)
    } else {
        let i = index_of(names(n.statics), q[0]);
        if 0 <= i < n.statics.len() {
            static_lookup(n.statics[i].1.shape(), m, q.drop_first())
        } else {
            None
        }
    }
}

/// A path that a static route names finds that route's handler, with no
/// captured values, whatever parameter or catch-all routes also match it.
pub proof fn lemma_static_route_wins<H>(n: NodeShape<H>, m: Method, q: Seq<Seq<char>>)
    requires
        static_lookup(n, m, q) is Some,
    ensures
        shape_match(n, m, q) == Some((static_lookup(n, m, q).unwrap(), Seq::<Seq<char>>::empty())),
    decreases q.len(),
{
    if q.len() > 0 {
        let i = index_of(names(n.statics), q[0]);
        lemma_static_route_wins(n.statics[i].1.shape(), m, q.drop_first());
    }
}

/// Registering a route sets the static lookup of exactly the path it names
/// when it is made of static segments only, and changes no other.
pub proof fn lemma_insert_static_lookup_effect<H>(
    old: NodeShape<H>,
    new: Node<H>,
    m: Method,
    pat: Seq<Seq<char>>,
    h: H,
    m2: Method,
    q: Seq<Seq<char>>,
)
    requires
        inserted(old, new, m, pat, h),
    ensures
        static_lookup(new.shape(), m2, q) == if m2 == m && all_static(pat) && q == pat {
            Some(h)
        } else {
            static_lookup(old, m2, q)
        },
    decreases pat.len(),
{
    let ns = new.shape();
    let e = empty_shape::<H>();
    if pat.len() == 0 {
        lemma_handlers_set(old.handlers, m, h, m2);
        if q.len() > 0 {
            assert(q != pat);
        } else {
            assert(q =~= pat);
        }
        return;
    }
    if q.len() == 0 {
        assert(q != pat);
        return;
    }
    let seg = pat[0];
    let rest = pat.drop_first();
    let part = q[0];
    let qr = q.drop_first();
    match segment_kind(seg) {
        SegmentKind::Static => {
            assert(all_static(pat) == all_static(rest)) by {
                if all_static(rest) {
                    assert forall|j: int| 0 <= j < pat.len() implies segment_kind(#[trigger] pat[j]) == SegmentKind::Static by {
                        if j > 0 {
                            assert(pat[j] == rest[j - 1]);
                        }
                    }
                }
                if all_static(pat) {
                    assert forall|j: int| 0 <= j < rest.len() implies segment_kind(#[trigger] rest[j]) == SegmentKind::Static by {
                        assert(rest[j] == pat[j + 1]);
                    }
                }
            }
            assert((q == pat) == (part == seg && qr == rest)) by {
                if part == seg && qr == rest {
                    assert(q.len() == pat.len());
                    assert forall|j: int| 0 <= j < q.len() implies q[j] == pat[j] by {
                        if j > 0 {
                            assert(q[j] == qr[j - 1]);
                            assert(pat[j] == rest[j - 1]);
                        }
                    }
                    assert(q =~= pat);
                }
            }
            let i = index_of(names(old.statics), seg);
            crate::http::text::lemma_index_of_bounds(names(old.statics), seg);
            crate::http::text::lemma_index_of_bounds(names(old.statics), part);
            if 0 <= i < old.statics.len() {
                assert(names(ns.statics) =~= names(old.statics));
                let k = index_of(names(old.statics), part);
                if k == i {
                    lemma_insert_static_lookup_effect(old.statics[i].1.shape(), ns.statics[i].1, m, rest, h, m2, qr);
                }
            } else {
                assert(names(ns.statics) =~= names(old.statics).push(seg));
                crate::http::text::lemma_index_of_push(names(old.statics), seg, part);
                if part == seg {
                    let c = ns.statics[old.statics.len() as int].1;
                    lemma_insert_static_lookup_effect(e, c, m, rest, h, m2, qr);
                    lemma_static_lookup_empty::<H>(m2, qr);
                }
            }
        },
        _ => {
            assert(!all_static(pat)) by {
                assert(segment_kind(pat[0]) != SegmentKind::Static);
            }
        },
    }
}

proof fn lemma_static_lookup_empty<H>(m: Method, q: Seq<Seq<char>>)
    ensures
        static_lookup(empty_shape::<H>(), m, q) is None,
{
    let e = empty_shape::<H>();
    assert(methods(e.handlers) =~= Seq::<Method>::empty());
    assert(names(e.statics) =~= Seq::<Seq<char>>::empty());
}

/// After a route is registered, every path that is an instance of it finds a
/// handler for that method (its own, or one of a route that takes priority).
pub proof fn lemma_insert_reachable<H>(
    old: NodeShape<H>,
    new: Node<H>,
    m: Method,
    pat: Seq<Seq<char>>,
    h: H,
    q: Seq<Seq<char>>,
)
    requires
        inserted(old, new, m, pat, h),
        route_matches(pat, q),
    ensures
        shape_match(new.shape(), m, q) is Some,
    decreases pat.len(),
{
    let ns = new.shape();
    if pat.len() == 0 {
        lemma_handlers_set(old.handlers, m, h, m);
        return;
    }
    let seg = pat[0];
    let rest = pat.drop_first();
    let part = q[0];
    let qr = q.drop_first();
    match segment_kind(seg) {
        SegmentKind::Static => {
            let i = index_of(names(old.statics), seg);
            crate::http::text::lemma_index_of_bounds(names(old.statics), seg);
            if 0 <= i < old.statics.len() {
                assert(names(ns.statics) =~= names(old.statics));
                lemma_insert_reachable(old.statics[i].1.shape(), ns.statics[i].1, m, rest, h, qr);
            } else {
                assert(names(ns.statics) =~= names(old.statics).push(seg));
                crate::http::text::lemma_index_of_push(names(old.statics), seg, part);
                let c = ns.statics[old.statics.len() as int].1;
                lemma_insert_reachable(empty_shape(), c, m, rest, h, qr);
            }
        },
        SegmentKind::Param => {
            let np = ns.param.unwrap();
            match old.param {
                Some(op) => {
                    lemma_insert_reachable(op.1.shape(), *np.1, m, rest, h, qr);
                },
                None => {
                    lemma_insert_reachable(empty_shape(), *np.1, m, rest, h, qr);
                },
            }
        },
        SegmentKind::CatchAll => {
            let oc = match old.catch_all {
                Some(c) => c.1.shape(),
                None => empty_shape(),
            };
            lemma_handlers_set(oc.handlers, m, h, m);
        },
    }
}

/// After a route made of static segments only is registered, looking that
/// very path up gives the handler just registered and no captured values.
pub proof fn lemma_insert_static_lookup<H>(old: NodeShape<H>, new: Node<H>, m: Method, pat: Seq<Seq<char>>, h: H)
    requires
        inserted(old, new, m, pat, h),
        all_static(pat),
    ensures
        shape_match(new.shape(), m, pat) == Some((h, Seq::<Seq<char>>::empty())),
    decreases pat.len(),
{
    let ns = new.shape();
    if pat.len() == 0 {
        lemma_handlers_set(old.handlers, m, h, m);
        return;
    }
    let seg = pat[0];
    let rest = pat.drop_first();
    assert(segment_kind(pat[0]) == SegmentKind::Static);
    assert(all_static(rest)) by {
        assert forall|j: int| 0 <= j < rest.len() implies segment_kind(#[trigger] rest[j]) == SegmentKind::Static by {
            assert(rest[j] == pat[j + 1]);
        }
    }
    let i = index_of(names(old.statics), seg);
    crate::http::text::lemma_index_of_bounds(names(old.statics), seg);
    if 0 <= i < old.statics.len() {
        assert(names(ns.statics) =~= names(old.statics));
        lemma_insert_static_lookup(old.statics[i].1.shape(), ns.statics[i].1, m, rest, h);
    } else {
        assert(names(ns.statics) =~= names(old.statics).push(seg));
        crate::http::text::lemma_index_of_push(names(old.statics), seg, seg);
        let c = ns.statics[old.statics.len() as int].1;
        lemma_insert_static_lookup(empty_shape(), c, m, rest, h);
    }
}

/// A node that holds one route and nothing else answers exactly the paths
/// that are instances of that route, for that route's method, with its handler
/// and the values its parameters and catch-all tail capture.
pub proof fn lemma_single_route<H>(new: Node<H>, m: Method, pat: Seq<Seq<char>>, h: H, m2: Method, q: Seq<Seq<char>>)
    requires
        inserted(empty_shape(), new, m, pat, h),
    ensures
        shape_match(new.shape(), m2, q) == if m2 == m && route_matches(pat, q) {
            Some((h, route_captures(pat, q)))
        } else {
            None
        },
    decreases pat.len(),
{
    let ns = new.shape();
    let e = empty_shape::<H>();
    assert(methods(e.handlers) =~= Seq::<Method>::empty());
    assert(names(e.statics) =~= Seq::<Seq<char>>::empty());
    if pat.len() == 0 {
        lemma_handlers_set(e.handlers, m, h, m2);
        if q.len() > 0 {
            assert(names(ns.statics) =~= Seq::<Seq<char>>::empty());
        }
        return;
    }
    let seg = pat[0];
    let rest = pat.drop_first();
    if q.len() == 0 {
        assert(methods(ns.handlers) =~= Seq::<Method>::empty());
        return;
    }
    let part = q[0];
    let qr = q.drop_first();
    match segment_kind(seg) {
        SegmentKind::Static => {
            assert(names(ns.statics) =~= seq![seg]);
            crate::http::text::lemma_index_of_push(Seq::<Seq<char>>::empty(), seg, part);
            assert(seq![seg] =~= Seq::<Seq<char>>::empty().push(seg));
            let c = ns.statics[0].1;
            lemma_single_route(c, m, rest, h, m2, qr);
        },
        SegmentKind::Param => {
            assert(names(ns.statics) =~= Seq::<Seq<char>>::empty());
            let np = ns.param.unwrap();
            lemma_single_route(*np.1, m, rest, h, m2, qr);
        },
        SegmentKind::CatchAll => {
            assert(names(ns.statics) =~= Seq::<Seq<char>>::empty());
            lemma_handlers_set(e.handlers, m, h, m2);
        },
    }
}

/// The contents `n` satisfy the invariant of a trie node: one handler per
/// method, one static child per segment, and every child satisfies it too.
pub open spec fn shape_wf<H>(n: NodeShape<H>) -> bool {
    &&& no_duplicates(methods(n.handlers))
    &&& no_duplicates(names(n.statics))
    &&& forall|i: int| 0 <= i < n.statics.len() ==> (#[trigger] n.statics[i]).1.wf()
    &&& match n.param {
        Some(p) => p.1.wf(),
        None => true,
    }
    &&& match n.catch_all {
        Some(c) => c.1.wf(),
        None => true,
    }
}

proof fn lemma_wf_shape<H>(n: Node<H>)
    ensures
        n.wf() == shape_wf(n.shape()),
{
}

/// Nodes that hold the same routes answer every lookup alike.
pub proof fn lemma_same_routes_match<H>(a: Node<H>, b: Node<H>, m: Method, q: Seq<Seq<char>>)
    requires
        a.same_routes(b),
    ensures
        shape_match(a.shape(), m, q) == shape_match(b.shape(), m, q),
    decreases q.len(),
{
    if q.len() > 0 {
        let sa = a.shape();
        let sb = b.shape();
        assert(names(sa.statics) =~= names(sb.statics)) by {
            assert forall|k: int| 0 <= k < sa.statics.len() implies names(sa.statics)[k] == names(sb.statics)[k] by {
                assert(sa.statics[k].0 == sb.statics[k].0);
            }
        }
        let i = index_of(names(sa.statics), q[0]);
        if 0 <= i < sa.statics.len() {
            assert(sa.statics[i].0 == sb.statics[i].0);
            lemma_same_routes_match(sa.statics[i].1, sb.statics[i].1, m, q.drop_first());
        }
        match sa.param {
            Some(p) => {
                lemma_same_routes_match(*p.1, *sb.param.unwrap().1, m, q.drop_first());
            },
            None => {},
        }
        match sa.catch_all {
            Some(c) => {
                let d = sb.catch_all.unwrap();
                assert(c.1.same_routes(*d.1));
                assert(c.1.handlers@ == d.1.handlers@);
            },
            None => {},
        }
    }
}

/// Nodes that hold the same routes both satisfy the trie invariant, or
/// neither does.
pub proof fn lemma_same_routes_wf<H>(a: Node<H>, b: Node<H>)
    requires
        a.same_routes(b),
    ensures
        a.wf() == b.wf(),
    decreases a,
{
    assert(names(a.static_children@) =~= names(b.static_children@)) by {
        assert forall|k: int| 0 <= k < a.static_children@.len() implies names(a.static_children@)[k] == names(
            b.static_children@,
        )[k] by {
            assert(a.static_children@[k].0 == b.static_children@[k].0);
        }
    }
    assert forall|i: int| 0 <= i < a.static_children@.len() implies (#[trigger] a.static_children@[i]).1.wf()
        == b.static_children@[i].1.wf() by {
        assert(decreases_to!(a => a.static_children));
        assert(decreases_to!(a.static_children => a.static_children@));
        assert(decreases_to!(a.static_children@ => a.static_children@[i]));
        assert(decreases_to!(a.static_children@[i] => a.static_children@[i].1));
        lemma_same_routes_wf(a.static_children@[i].1, b.static_children@[i].1);
    }
    match a.param_child {
        Some(p) => {
            assert(decreases_to!(a => a.param_child));
            assert(decreases_to!(a.param_child => p));
            assert(decreases_to!(p => p.1));
            lemma_same_routes_wf(*p.1, *b.param_child.unwrap().1);
        },
        None => {},
    }
    match a.catch_all_child {
        Some(c) => {
            assert(decreases_to!(a => a.catch_all_child));
            assert(decreases_to!(a.catch_all_child => c));
            assert(decreases_to!(c => c.1));
            lemma_same_routes_wf(*c.1, *b.catch_all_child.unwrap().1);
        },
        None => {},
    }
    assert(a.wf() ==> b.wf()) by {
        if a.wf() {
            assert forall|i: int| 0 <= i < b.static_children@.len() implies (#[trigger] b.static_children@[i]).1.wf() by {
                assert(a.static_children@[i].1.wf() == b.static_children@[i].1.wf());
            }
        }
    }
    assert(b.wf() ==> a.wf()) by {
        if b.wf() {
            assert forall|i: int| 0 <= i < a.static_children@.len() implies (#[trigger] a.static_children@[i]).1.wf() by {
                assert(a.static_children@[i].1.wf() == b.static_children@[i].1.wf());
            }
        }
    }
}

proof fn lemma_handlers_set_wf<H>(hs: Seq<(Method, H)>, m: Method, h: H)
    requires
        no_duplicates(methods(hs)),
    ensures
        no_duplicates(methods(handlers_set(hs, m, h))),
{
    crate::http::text::lemma_index_of_bounds(methods(hs), m);
    let i = index_of(methods(hs), m);
    if 0 <= i < hs.len() {
        assert(methods(handlers_set(hs, m, h)) =~= methods(hs));
    } else {
        assert(methods(handlers_set(hs, m, h)) =~= methods(hs).push(m));
        crate::http::text::lemma_push_no_duplicates(methods(hs), m);
    }
}

/// Registering a route keeps the trie invariant.
pub proof fn lemma_insert_wf<H>(old: NodeShape<H>, new: Node<H>, m: Method, pat: Seq<Seq<char>>, h: H)
    requires
        inserted(old, new, m, pat, h),
        shape_wf(old),
    ensures
        new.wf(),
    decreases pat.len(),
{
    let ns = new.shape();
    lemma_wf_shape(new);
    let e = empty_shape::<H>();
    assert(methods(e.handlers) =~= Seq::<Method>::empty());
    assert(names(e.statics) =~= Seq::<Seq<char>>::empty());
    assert(shape_wf(e));
    if pat.len() == 0 {
        lemma_handlers_set_wf(old.handlers, m, h);
        return;
    }
    let seg = pat[0];
    let rest = pat.drop_first();
    match segment_kind(seg) {
        SegmentKind::Static => {
            let i = index_of(names(old.statics), seg);
            crate::http::text::lemma_index_of_bounds(names(old.statics), seg);
            if 0 <= i < old.statics.len() {
                assert(names(ns.statics) =~= names(old.statics));
                let oc = old.statics[i].1;
                lemma_wf_shape(oc);
                lemma_insert_wf(oc.shape(), ns.statics[i].1, m, rest, h);
                assert forall|j: int| 0 <= j < ns.statics.len() implies (#[trigger] ns.statics[j]).1.wf() by {
                    if j != i {
                        assert(ns.statics[j] == old.statics[j]);
                    }
                }
            } else {
                assert(names(ns.statics) =~= names(old.statics).push(seg));
                crate::http::text::lemma_push_no_duplicates(names(old.statics), seg);
                let k = old.statics.len() as int;
                lemma_insert_wf(e, ns.statics[k].1, m, rest, h);
                assert forall|j: int| 0 <= j < ns.statics.len() implies (#[trigger] ns.statics[j]).1.wf() by {
                    if j != k {
                        assert(ns.statics[j] == old.statics[j]);
                    }
                }
            }
        },
        SegmentKind::Param => {
            let np = ns.param.unwrap();
            match old.param {
                Some(op) => {
                    lemma_wf_shape(*op.1);
                    lemma_insert_wf(op.1.shape(), *np.1, m, rest, h);
                },
                None => {
                    lemma_insert_wf(e, *np.1, m, rest, h);
                },
            }
        },
        SegmentKind::CatchAll => {
            let nc = ns.catch_all.unwrap();
            let oc = match old.catch_all {
                Some(c) => c.1.shape(),
                None => e,
            };
            match old.catch_all {
                Some(c) => {
                    lemma_wf_shape(*c.1);
                },
                None => {},
            }
            lemma_handlers_set_wf(oc.handlers, m, h);
            lemma_wf_shape(*nc.1);
        },
    }
}

impl<H: Copy> Node<H> {
    /// Registers `handler` for `method` on the route `parts[start..]` below this node.
    fn insert_at(&mut self, method: Method, parts: &[&str], start: usize, handler: H)
        requires
            start <= parts@.len(),
        ensures
            inserted(old(self).shape(), *final(self), method, views(parts@).skip(start as int), handler),
        decreases parts@.len() - start,
    {
        let ghost pat = views(parts@).skip(start as int);
        if start == parts.len() {
            set_handler(&mut self.handlers, method, handler);
            return;
        }
        let part: &str = parts[start];
        proof {
            assert(pat[0] == part@);
            assert(pat.drop_first() =~= views(parts@).skip(start + 1));
        }
        match parse_segment(part) {
            Segment::Static(name) => {
                match self.static_position(part) {
                    Some(i) => {
                        let ghost old_statics = self.static_children@;
                        let (nm, child) = self.static_children.remove(i);
                        let mut child = child;
                        child.insert_at(method, parts, start + 1, handler);
                        self.static_children.insert(i, (nm, child));
                        proof {
                            assert(self.static_children@ =~= old_statics.update(i as int, (nm, child)));
                        }
                    },
                    None => {
                        let mut child: Node<H> = Node::new();
                        child.insert_at(method, parts, start + 1, handler);
                        self.static_children.push((name, child));
                    },
                }
            },
            Segment::Param(pname) => {
                match self.param_child.take() {
                    Some(pc) => {
                        let (nm, boxed) = pc;
                        let mut c: Node<H> = *boxed;
                        c.insert_at(method, parts, start + 1, handler);
                        self.param_child = Some((nm, Box::new(c)));
                    },
                    None => {
                        let mut c: Node<H> = Node::new();
                        c.insert_at(method, parts, start + 1, handler);
                        self.param_child = Some((pname, Box::new(c)));
                    },
                }
            },
            Segment::CatchAll(pname) => {
                match self.catch_all_child.take() {
                    Some(cc) => {
                        let (nm, boxed) = cc;
                        let mut c: Node<H> = *boxed;
                        set_handler(&mut c.handlers, method, handler);
                        self.catch_all_child = Some((nm, Box::new(c)));
                    },
                    None => {
                        let mut c: Node<H> = Node::new();
                        set_handler(&mut c.handlers, method, handler);
                        self.catch_all_child = Some((pname, Box::new(c)));
                    },
                }
            },
        }
    }

    /// Registers `handler` for `method` on the route whose segments are `path_parts`.
    pub fn insert(&mut self, method: Method, path_parts: &[&str], handler: H)
        ensures
            inserted(old(self).shape(), *final(self), method, views(path_parts@), handler),
            old(self).wf() ==> final(self).wf(),
    {
        proof {
            assert(views(path_parts@).skip(0) =~= views(path_parts@));
        }
        let ghost before = *self;
        self.insert_at(method, path_parts, 0, handler);
        proof {
            if before.wf() {
                lemma_wf_shape(before);
                lemma_insert_wf(before.shape(), *self, method, views(path_parts@), handler);
            }
        }
    }

    /// The index of the static child named `part`.
    fn static_position(&self, part: &str) -> (r: Option<usize>)
        ensures
            match r {
                Some(i) => i < self.shape().statics.len() && index_of(names(self.shape().statics), part@) == i,
                None => index_of(names(self.shape().statics), part@) == -1,
            },
    {
        let p: String = part.to_owned();
        let n = self.static_children.len();
        let mut j: usize = 0;
        while j < n
            invariant
                n == self.static_children@.len(),
                j <= n,
                p@ == part@,
                forall|k: int| 0 <= k < j ==> names(self.static_children@)[k] != part@,
            decreases n - j,
        {
            if self.static_children[j].0 == p {
                proof {
                    crate::http::text::lemma_index_of_found(names(self.static_children@), part@, j as int);
                }
                return Some(j);
            }
            j = j + 1;
        }
        proof {
            crate::http::text::lemma_index_of_absent(names(self.static_children@), part@);
        }
        None
    }

    /// Matches `parts[start..]` from this node; on success the captured
    /// parameters are appended to `params`, otherwise `params` is left as it was.
    fn match_from(&self, method: Method, parts: &[&str], start: usize, params: &mut Vec<String>) -> (r: Option<H>)
        requires
            start <= parts@.len(),
        ensures
            match shape_match(self.shape(), method, views(parts@).skip(start as int)) {
                Some(found) => r == Some(found.0) && final(params).deep_view() == old(params).deep_view() + found.1,
                None => r is None && final(params)@ == old(params)@,
            },
        decreases parts@.len() - start,
    {
        let ghost q = views(parts@).skip(start as int);
        if start == parts.len() {
            proof {
                assert(q.len() == 0);
                assert(params.deep_view() + Seq::<Seq<char>>::empty() =~= params.deep_view());
            }
            return lookup_handler(&self.handlers, method);
        }
        let current: &str = parts[start];
        proof {
            assert(q[0] == current@);
            assert(q.drop_first() =~= views(parts@).skip(start + 1));
        }
        match self.static_position(current) {
            Some(i) => {
                let r = self.static_children[i].1.match_from(method, parts, start + 1, params);
                if r.is_some() {
                    return r;
                }
            },
            None => {},
        }
        match &self.param_child {
            Some(pc) => {
                let ghost before = params.deep_view();
                params.push(current.to_owned());
                proof {
                    assert(params.deep_view() =~= before.push(current@));
                }
                let r = pc.1.match_from(method, parts, start + 1, params);
                if r.is_some() {
                    proof {
                        let found = shape_match(pc.1.shape(), method, q.drop_first()).unwrap();
                        assert(params.deep_view() =~= before + (seq![current@] + found.1));
                    }
                    return r;
                }
                params.pop();
            },
            None => {},
        }
        match &self.catch_all_child {
            Some(cc) => {
                let rest = join_from(parts, start, "/");
                proof {
                    reveal_strlit("/");
                    assert("/"@ =~= seq!['/']);
                    assert(rest@ == join(q, seq!['/']));
                }
                match lookup_handler(&cc.1.handlers, method) {
                    Some(h) => {
                        let ghost before = params.deep_view();
                        params.push(rest);
                        proof {
                            assert(params.deep_view() =~= before + seq![join(q, seq!['/'])]);
                        }
                        return Some(h);
                    },
                    None => {},
                }
            },
            None => {},
        }
        None
    }

    /// Matches the path `path_parts` from this node for `method`: on success
    /// the handler is returned and the captured values are appended to
    /// `params`, in order; otherwise `params` is left as it was.
    pub fn match_path(&self, method: Method, path_parts: &[&str], params: &mut Vec<String>) -> (r: Option<H>)
        ensures
            match shape_match(self.shape(), method, views(path_parts@)) {
                Some(found) => r == Some(found.0) && final(params).deep_view() == old(params).deep_view() + found.1,
                None => r is None && final(params)@ == old(params)@,
            },
    {
        proof {
            assert(views(path_parts@).skip(0) =~= views(path_parts@));
        }
        self.match_from(method, path_parts, 0, params)
    }

    /// The handler registered for `method` on the path `path_parts`, with the
    /// values captured by the parameters and catch-all tail along the way.
    pub fn find(&self, method: Method, path_parts: &[&str]) -> (r: Option<(H, Vec<String>)>)
        ensures
            match shape_match(self.shape(), method, views(path_parts@)) {
                Some(found) => r matches Some(x) && x.0 == found.0 && x.1.deep_view() == found.1,
                None => r is None,
            },
    {
        let mut params: Vec<String> = Vec::new();
        match self.match_path(method, path_parts, &mut params) {
            Some(h) => {
                proof {
                    assert(params.deep_view() =~= Seq::<Seq<char>>::empty() + shape_match(self.shape(), method, views(path_parts@)).unwrap().1);
                }
                Some((h, params))
            },
            None => None,
        }
    }
}

fn handler_position<H: Copy>(hs: &Vec<(Method, H)>, m: Method) -> (r: Option<usize>)
    ensures
        match r {
            Some(i) => i < hs@.len() && index_of(methods(hs@), m) == i,
            None => index_of(methods(hs@), m) == -1,
        },
{
    let n = hs.len();
    let mut j: usize = 0;
    while j < n
        invariant
            n == hs@.len(),
            j <= n,
            forall|k: int| 0 <= k < j ==> methods(hs@)[k] != m,
        decreases n - j,
    {
        if hs[j].0 == m {
            proof {
                crate::http::text::lemma_index_of_found(methods(hs@), m, j as int);
            }
            return Some(j);
        }
        j = j + 1;
    }
    proof {
        crate::http::text::lemma_index_of_absent(methods(hs@), m);
    }
    None
}

fn lookup_handler<H: Copy>(hs: &Vec<(Method, H)>, m: Method) -> (r: Option<H>)
    ensures
        r == handler_for(hs@, m),
{
    match handler_position(hs, m) {
        Some(i) => Some(hs[i].1),
        None => None,
    }
}

fn set_handler<H: Copy>(hs: &mut Vec<(Method, H)>, m: Method, h: H)
    ensures
        final(hs)@ == handlers_set(old(hs)@, m, h),
{
    match handler_position(hs, m) {
        Some(i) => {
            hs.set(i, (m, h));
        },
        None => {
            hs.push((m, h));
        },
    }
}

} // verus!
