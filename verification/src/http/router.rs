//! The router: routes registered by method and path, looked up by method and
//! path segments.
use vstd::prelude::*;
use crate::http::request::Method;
use crate::http::precedence::{best_route, candidate, lemma_built_node_answers_best, Route};
use crate::http::text::{filter_non_empty, lemma_index_of_absent, lemma_index_of_found, non_empty, split, split_char, views};
use crate::http::trie::{
    all_static, empty_shape, inserted, lemma_same_routes_match, lemma_same_routes_wf, lemma_empty_matches_nothing, lemma_insert_keeps_other_lookups,
    lemma_insert_reachable, lemma_insert_static_lookup, lemma_single_route, route_captures,
    route_matches, shape_match, static_lookup, lemma_static_route_wins, lemma_insert_static_lookup_effect, Node,
};

verus! {

/// The segments of a route path: the non-empty pieces between `/`.
pub open spec fn route_segments(path: Seq<char>) -> Seq<Seq<char>> {
    non_empty(split(path, '/'))
}

/// Routes registered by method and path pattern, each with a handler of type `H`.
pub struct Router<H> {
    root: Node<H>,
}

impl<H> Router<H> {
    /// Every node of the router's trie satisfies the trie invariant.
    #[verifier::type_invariant]
    closed spec fn inv(self) -> bool {
        self.root.wf()
    }

    /// The root of the route trie.
    pub closed spec fn root(self) -> Node<H> {
        self.root
    }

    /// What looking up method `m` on the path segments `q` gives: the handler
    /// and the captured values, or nothing.
    pub open spec fn lookup(self, m: Method, q: Seq<Seq<char>>) -> Option<(H, Seq<Seq<char>>)> {
        shape_match(self.root().shape(), m, q)
    }

    /// The handler of the static route that names exactly the path `q` for `m`.
    pub open spec fn static_route(self, m: Method, q: Seq<Seq<char>>) -> Option<H> {
        static_lookup(self.root().shape(), m, q)
    }

    /// `self` is `old` after registering `h` for `m` on the route `path`.
    pub open spec fn added(self, old: Router<H>, m: Method, path: Seq<char>, h: H) -> bool {
        inserted(old.root().shape(), self.root(), m, route_segments(path), h)
    }
}

impl<H: Copy> Default for Router<H> {
    /// A router with no routes.
    fn default() -> (r: Self)
        ensures
            r.root().shape() == empty_shape::<H>(),
    {
        Router::new()
    }
}

impl<H: Copy> Clone for Router<H> {
    /// A copy with the same routes: it answers every lookup as this one does.
    fn clone(&self) -> (r: Self)
        ensures
            forall|m: Method, q: Seq<Seq<char>>| #[trigger] r.lookup(m, q) == self.lookup(m, q),
    {
        proof {
            use_type_invariant(self);
        }
        let root = self.root.clone();
        proof {
            lemma_same_routes_wf(root, self.root);
            assert forall|m: Method, q: Seq<Seq<char>>| #[trigger]
                shape_match(root.shape(), m, q) == shape_match(self.root.shape(), m, q) by {
                lemma_same_routes_match(root, self.root, m, q);
            }
        }
        Router { root }
    }
}

impl<H: Copy> Router<H> {
    /// A router with no routes.
    pub fn new() -> (r: Self)
        ensures
            r.root().shape() == empty_shape::<H>(),
    {
        Router { root: Node::new() }
    }

    /// Registers `handler` for `method` on the route `path`, whose segments
    /// are the non-empty pieces between `/`; returns the router for chaining.
    pub fn add(&mut self, method: Method, path: &str, handler: H) -> (r: &mut Router<H>)
        ensures
            r.added(*old(self), method, path@, handler),
            *final(self) == *final(r),
    {
        proof {
            use_type_invariant(&*self);
        }
        let pieces = split_char(path, '/');
        let segments = filter_non_empty(&pieces);
        let mut root: Node<H> = Node::new();
        std::mem::swap(&mut root, &mut self.root);
        root.insert(method, segments.as_slice(), handler);
        self.root = root;
        self
    }

    /// The handler registered for `method` on the path segments
    /// `path_parts`, with the values captured by parameters and a catch-all tail.
    pub fn find(&self, method: Method, path_parts: &[&str]) -> (r: Option<(H, Vec<String>)>)
        ensures
            match self.lookup(method, views(path_parts@)) {
                Some(found) => r matches Some(x) && x.0 == found.0 && x.1.deep_view() == found.1,
                None => r is None,
            },
    {
        self.root.find(method, path_parts)
    }
}

/// A router with no routes finds nothing, whatever the method and path.
pub proof fn law_empty_router_finds_nothing<H>(r: Router<H>, m: Method, q: Seq<Seq<char>>)
    requires
        r.root().shape() == empty_shape::<H>(),
    ensures
        r.lookup(m, q) is None,
{
    lemma_empty_matches_nothing::<H>(m, q);
}

/// After a route made of static segments is added, finding that path gives
/// the handler just added and no captured values (a later `add` of the same
/// route replaces the handler).
pub proof fn law_add_then_find_static<H>(old: Router<H>, new: Router<H>, m: Method, path: Seq<char>, h: H)
    requires
        new.added(old, m, path, h),
        all_static(route_segments(path)),
    ensures
        new.lookup(m, route_segments(path)) == Some((h, Seq::<Seq<char>>::empty())),
{
    lemma_insert_static_lookup(old.root().shape(), new.root(), m, route_segments(path), h);
}

/// After a route is added, every path that is an instance of it finds a
/// handler for that method.
pub proof fn law_add_reachable<H>(old: Router<H>, new: Router<H>, m: Method, path: Seq<char>, h: H, q: Seq<Seq<char>>)
    requires
        new.added(old, m, path, h),
        route_matches(route_segments(path), q),
    ensures
        new.lookup(m, q) is Some,
{
    lemma_insert_reachable(old.root().shape(), new.root(), m, route_segments(path), h, q);
}

/// Adding a route changes no lookup for another method, nor any lookup of a
/// path that is not an instance of the route.
pub proof fn law_add_keeps_other_lookups<H>(
    old: Router<H>,
    new: Router<H>,
    m: Method,
    path: Seq<char>,
    h: H,
    m2: Method,
    q: Seq<Seq<char>>,
)
    requires
        new.added(old, m, path, h),
        m2 != m || !route_matches(route_segments(path), q),
    ensures
        new.lookup(m2, q) == old.lookup(m2, q),
{
    lemma_insert_keeps_other_lookups(old.root().shape(), new.root(), m, route_segments(path), h, m2, q);
}

/// A router with a single route answers exactly the paths that are instances
/// of that route, for its method, with its handler and the values that its
/// parameters and catch-all tail capture, in order.
pub proof fn law_single_route<H>(
    old: Router<H>,
    new: Router<H>,
    m: Method,
    path: Seq<char>,
    h: H,
    m2: Method,
    q: Seq<Seq<char>>,
)
    requires
        old.root().shape() == empty_shape::<H>(),
        new.added(old, m, path, h),
    ensures
        new.lookup(m2, q) == if m2 == m && route_matches(route_segments(path), q) {
            Some((h, route_captures(route_segments(path), q)))
        } else {
            None
        },
{
    lemma_single_route(new.root(), m, route_segments(path), h, m2, q);
}

/// Static segments take priority: a path that a static route names finds
/// that route's handler with no captured values, whatever parameter or
/// catch-all routes also match it.
pub proof fn law_static_route_wins<H>(r: Router<H>, m: Method, q: Seq<Seq<char>>)
    requires
        r.static_route(m, q) is Some,
    ensures
        r.lookup(m, q) == Some((r.static_route(m, q).unwrap(), Seq::<Seq<char>>::empty())),
{
    lemma_static_route_wins(r.root().shape(), m, q);
}

/// Adding a route made of static segments only makes it the static route of
/// the path it names (replacing an earlier one); adding any route leaves every
/// other static route as it was.
pub proof fn law_add_static_route<H>(
    old: Router<H>,
    new: Router<H>,
    m: Method,
    path: Seq<char>,
    h: H,
    m2: Method,
    q: Seq<Seq<char>>,
)
    requires
        new.added(old, m, path, h),
    ensures
        new.static_route(m2, q) == if m2 == m && all_static(route_segments(path)) && q == route_segments(path) {
            Some(h)
        } else {
            old.static_route(m2, q)
        },
{
    lemma_insert_static_lookup_effect(old.root().shape(), new.root(), m, route_segments(path), h, m2, q);
}

/// The routes that registering `routes` (method, path, handler) gives, each
/// path taken apart into its segments.
pub open spec fn route_list<H>(routes: Seq<(Method, Seq<char>, H)>) -> Seq<Route<H>> {
    routes.map_values(|r: (Method, Seq<char>, H)| (r.0, route_segments(r.1), r.2))
}

/// Static > parameter > catch-all: after the routes `routes` are added one
/// by one to a new router, finding method `m` on the path `q` succeeds exactly
/// when some added route for `m` has `q` as an instance (a static segment
/// equal to the part, a parameter for any one part, a catch-all for one or
/// more parts). The handler found is then that of the matching route that
/// outranks the others segment by segment (static before parameter before
/// catch-all), the last added of those that tie with it, and the values found
/// are what its parameters capture, in order, and its catch-all tail joined
/// with `/`.
pub proof fn law_find_best_route<H>(
    routers: Seq<Router<H>>,
    routes: Seq<(Method, Seq<char>, H)>,
    m: Method,
    q: Seq<Seq<char>>,
)
    requires
        routers.len() == routes.len() + 1,
        routers[0].root().shape() == empty_shape::<H>(),
        forall|i: int|
            #![trigger routes[i]]
            0 <= i < routes.len() ==> routers[i + 1].added(routers[i], routes[i].0, routes[i].1, routes[i].2),
    ensures
        routers.last().lookup(m, q) is Some <==> exists|i: int|
            0 <= i < routes.len() && routes[i].0 == m && route_matches(route_segments(routes[i].1), q),
        routers.last().lookup(m, q) matches Some(found) ==> exists|i: int|
            best_route(route_list(routes), m, q, i) && found.0 == routes[i].2 && found.1 == route_captures(
                route_segments(routes[i].1),
                q,
            ),
{
    let nodes = routers.map_values(|r: Router<H>| r.root());
    let rs = route_list(routes);
    assert forall|i: int|
        #![trigger rs[i]]
        0 <= i < rs.len() implies inserted(nodes[i].shape(), nodes[i + 1], rs[i].0, rs[i].1, rs[i].2) by {
        assert(routers[i + 1].added(routers[i], routes[i].0, routes[i].1, routes[i].2));
    }
    lemma_built_node_answers_best(nodes, rs, m, q);
    assert(nodes.last() == routers.last().root());
    if routers.last().lookup(m, q) is Some {
        let i = choose|i: int| candidate(rs, m, q, i);
        assert(0 <= i < routes.len() && routes[i].0 == m && route_matches(route_segments(routes[i].1), q));
    }
    if exists|i: int| 0 <= i < routes.len() && routes[i].0 == m && route_matches(route_segments(routes[i].1), q) {
        let i = choose|i: int| 0 <= i < routes.len() && routes[i].0 == m && route_matches(route_segments(routes[i].1), q);
        assert(candidate(rs, m, q, i));
    }
}

/// The path `/q[0]/q[1]/...` that the segments `q` spell.
pub open spec fn slash_path(q: Seq<Seq<char>>) -> Seq<char>
    decreases q.len(),
{
    if q.len() == 0 {
        Seq::empty()
    } else {
        seq!['/'] + q[0] + slash_path(q.drop_first())
    }
}

/// Each segment of `q` is non-empty and holds neither `/` nor `?`.
pub open spec fn plain_segments(q: Seq<Seq<char>>) -> bool {
    forall|i: int|
        0 <= i < q.len() ==> (#[trigger] q[i]).len() > 0 && forall|j: int|
            0 <= j < q[i].len() ==> q[i][j] != '/' && q[i][j] != '?'
}

pub(crate) proof fn lemma_plain_rest(q: Seq<Seq<char>>)
    requires
        plain_segments(q),
        q.len() > 0,
    ensures
        plain_segments(q.drop_first()),
{
    assert forall|i: int| 0 <= i < q.len() - 1 implies #[trigger] q.drop_first()[i] == q[i + 1] by {}
}

/// `slash_path(q)` holds no `?`, and starts with `/` when `q` is not empty.
pub(crate) proof fn lemma_slash_path_chars(q: Seq<Seq<char>>)
    requires
        plain_segments(q),
    ensures
        forall|i: int| 0 <= i < slash_path(q).len() ==> slash_path(q)[i] != '?',
        q.len() > 0 ==> slash_path(q).len() > 0 && slash_path(q)[0] == '/' && slash_path(q).last() != '/',
    decreases q.len(),
{
    if q.len() > 0 {
        let rest = q.drop_first();
        lemma_plain_rest(q);
        lemma_slash_path_chars(rest);
        let a = q[0];
        let t = slash_path(rest);
        let s = seq!['/'] + a + t;
        assert(s == slash_path(q));
        assert forall|i: int| 0 <= i < s.len() implies s[i] != '?' by {
            if 1 <= i < 1 + a.len() {
                assert(s[i] == a[i - 1]);
            } else if i >= 1 + a.len() {
                assert(s[i] == t[i - 1 - a.len()]);
            }
        }
        if rest.len() == 0 {
            assert(s.last() == a[a.len() - 1]);
        } else {
            assert(s.last() == t.last());
        }
    }
}

/// Splitting `q[0]` followed by the path of the remaining segments at `/`
/// gives back the segments.
pub(crate) proof fn lemma_split_segments(q: Seq<Seq<char>>)
    requires
        plain_segments(q),
        q.len() > 0,
    ensures
        split(q[0] + slash_path(q.drop_first()), '/') == q,
    decreases q.len(),
{
    let a = q[0];
    let rest = q.drop_first();
    let s = a + slash_path(rest);
    lemma_plain_rest(q);
    if rest.len() == 0 {
        assert(s =~= a);
        lemma_index_of_absent(s, '/');
        assert(q =~= seq![a]);
    } else {
        lemma_slash_path_chars(rest);
        assert(s[a.len() as int] == '/');
        lemma_index_of_found(s, '/', a.len() as int);
        assert(s.take(a.len() as int) =~= a);
        assert(s.skip(a.len() as int + 1) =~= rest[0] + slash_path(rest.drop_first()));
        lemma_split_segments(rest);
        assert(seq![a] + rest =~= q);
    }
}

/// Dropping empty pieces keeps a list of non-empty pieces as it is, and
/// drops one empty piece put in front.
pub(crate) proof fn lemma_non_empty_plain(q: Seq<Seq<char>>)
    requires
        forall|i: int| 0 <= i < q.len() ==> (#[trigger] q[i]).len() > 0,
    ensures
        non_empty(q) == q,
        non_empty(seq![Seq::<char>::empty()] + q) == q,
    decreases q.len(),
{
    if q.len() > 0 {
        lemma_non_empty_plain(q.drop_last());
        assert((seq![Seq::<char>::empty()] + q).drop_last() =~= seq![Seq::<char>::empty()] + q.drop_last());
        assert(q.drop_last().push(q.last()) =~= q);
    } else {
        assert((seq![Seq::<char>::empty()] + q).drop_last() =~= Seq::<Seq<char>>::empty());
    }
}

/// The segments of the path `/q[0]/q[1]/...` are `q`, character for character.
pub proof fn law_slash_path_segments(q: Seq<Seq<char>>)
    requires
        plain_segments(q),
    ensures
        non_empty(split(slash_path(q), '/')) == q,
{
    lemma_non_empty_plain(q);
    if q.len() == 0 {
        lemma_index_of_absent(slash_path(q), '/');
        assert(non_empty(seq![Seq::<char>::empty()]) == non_empty(seq![Seq::<char>::empty()] + q)) by {
            assert(seq![Seq::<char>::empty()] + q =~= seq![Seq::<char>::empty()]);
        }
    } else {
        let s = slash_path(q);
        lemma_index_of_found(s, '/', 0);
        assert(s.take(0) =~= Seq::<char>::empty());
        assert(s.skip(1) =~= q[0] + slash_path(q.drop_first()));
        lemma_split_segments(q);
    }
}

/// A route whose path is written `/s1/s2/...` with static segments only is,
/// once added, found for its method on exactly those segments as written,
/// with the handler just added and nothing captured.
pub proof fn law_add_static_path_found<H>(old: Router<H>, new: Router<H>, m: Method, q: Seq<Seq<char>>, h: H)
    requires
        plain_segments(q),
        all_static(q),
        new.added(old, m, slash_path(q), h),
    ensures
        new.lookup(m, q) == Some((h, Seq::<Seq<char>>::empty())),
{
    law_slash_path_segments(q);
    law_add_then_find_static(old, new, m, slash_path(q), h);
}

} // verus!
