//! Which registered route answers a path: the list of routes that a trie node
//! stands for, and the order in which routes take precedence over each other.
use vstd::prelude::*;
use crate::http::request::Method;
use crate::http::text::{index_of, lemma_index_of_bounds, lemma_index_of_push};
use crate::http::trie::{
    empty_shape, handler_for, inserted, lemma_handlers_set, methods, names, route_captures,
    route_matches, segment_kind, shape_match, Node, NodeShape, SegmentKind,
};

verus! {

/// A registered route: its method, its segments and its handler.
pub type Route<H> = (Method, Seq<Seq<char>>, H);

/// The handler of the last route of `rs` for `m` that has no segments left.
pub open spec fn ends_here<H>(rs: Seq<Route<H>>, m: Method) -> Option<H>
    decreases rs.len(),
{
    if rs.len() == 0 {
        None
    } else if rs.last().0 == m && rs.last().1.len() == 0 {
        Some(rs.last().2)
    } else {
        ends_here(rs.drop_last(), m)
    }
}

/// The routes of `rs` whose first segment is the static segment `name`, in
/// order, with that segment taken off.
pub open spec fn static_tails<H>(rs: Seq<Route<H>>, name: Seq<char>) -> Seq<Route<H>>
    decreases rs.len(),
{
    if rs.len() == 0 {
        Seq::empty()
    } else {
        let r = rs.last();
        let before = static_tails(rs.drop_last(), name);
        if r.1.len() > 0 && segment_kind(r.1[0]) == SegmentKind::Static && r.1[0] == name {
            before.push((r.0, r.1.drop_first(), r.2))
        } else {
            before
        }
    }
}

/// The routes of `rs` whose first segment is a parameter, in order, with that
/// segment taken off.
pub open spec fn param_tails<H>(rs: Seq<Route<H>>) -> Seq<Route<H>>
    decreases rs.len(),
{
    if rs.len() == 0 {
        Seq::empty()
    } else {
        let r = rs.last();
        let before = param_tails(rs.drop_last());
        if r.1.len() > 0 && segment_kind(r.1[0]) == SegmentKind::Param {
            before.push((r.0, r.1.drop_first(), r.2))
        } else {
            before
        }
    }
}

/// The routes of `rs` whose first segment is a catch-all, in order, with
/// everything after it dropped.
pub open spec fn catch_routes<H>(rs: Seq<Route<H>>) -> Seq<Route<H>>
    decreases rs.len(),
{
    if rs.len() == 0 {
        Seq::empty()
    } else {
        let r = rs.last();
        let before = catch_routes(rs.drop_last());
        if r.1.len() > 0 && segment_kind(r.1[0]) == SegmentKind::CatchAll {
            before.push((r.0, Seq::<Seq<char>>::empty(), r.2))
        } else {
            before
        }
    }
}

/// The trie node with contents `n` holds exactly the routes `rs`, none of them
/// deeper than `d` segments: its handlers are those of the routes that end
/// here, and each child holds the tails of the routes that lead into it.
pub open spec fn represents<H>(n: NodeShape<H>, rs: Seq<Route<H>>, d: nat) -> bool
    decreases d,
{
    &&& forall|m: Method| #[trigger] handler_for(n.handlers, m) == ends_here(rs, m)
    &&& forall|name: Seq<char>|
        #![trigger index_of(names(n.statics), name)]
        if 0 <= index_of(names(n.statics), name) < n.statics.len() {
            d > 0 && represents(
                n.statics[index_of(names(n.statics), name)].1.shape(),
                static_tails(rs, name),
                (d - 1) as nat,
            )
        } else {
            static_tails(rs, name) == Seq::<Route<H>>::empty()
        }
    &&& match n.param {
        Some(p) => d > 0 && represents(p.1.shape(), param_tails(rs), (d - 1) as nat),
        None => param_tails(rs) == Seq::<Route<H>>::empty(),
    }
    &&& match n.catch_all {
        Some(c) => forall|m: Method| #[trigger] handler_for(c.1.shape().handlers, m) == ends_here(catch_routes(rs), m),
        None => catch_routes(rs) == Seq::<Route<H>>::empty(),
    }
}

proof fn lemma_push_route<H>(rs: Seq<Route<H>>, r: Route<H>, m: Method, name: Seq<char>)
    ensures
        ends_here(rs.push(r), m) == if r.0 == m && r.1.len() == 0 {
            Some(r.2)
        } else {
            ends_here(rs, m)
        },
        static_tails(rs.push(r), name) == if r.1.len() > 0 && segment_kind(r.1[0]) == SegmentKind::Static
            && r.1[0] == name {
            static_tails(rs, name).push((r.0, r.1.drop_first(), r.2))
        } else {
            static_tails(rs, name)
        },
        param_tails(rs.push(r)) == if r.1.len() > 0 && segment_kind(r.1[0]) == SegmentKind::Param {
            param_tails(rs).push((r.0, r.1.drop_first(), r.2))
        } else {
            param_tails(rs)
        },
        catch_routes(rs.push(r)) == if r.1.len() > 0 && segment_kind(r.1[0]) == SegmentKind::CatchAll {
            catch_routes(rs).push((r.0, Seq::<Seq<char>>::empty(), r.2))
        } else {
            catch_routes(rs)
        },
{
    assert(rs.push(r).drop_last() =~= rs);
}

proof fn lemma_empty_represents<H>(d: nat)
    ensures
        represents(empty_shape::<H>(), Seq::<Route<H>>::empty(), d),
{
    let e = empty_shape::<H>();
    assert(methods(e.handlers) =~= Seq::<Method>::empty());
    assert(names(e.statics) =~= Seq::<Seq<char>>::empty());
    assert forall|name: Seq<char>| #[trigger] index_of(names(e.statics), name) == -1 by {
    }
}

/// Registering a route of at most `d` segments in a node that holds the
/// routes `rs` gives a node that holds `rs` followed by that route.
proof fn lemma_insert_represents<H>(
    old: NodeShape<H>,
    new: Node<H>,
    rs: Seq<Route<H>>,
    d: nat,
    m: Method,
    pat: Seq<Seq<char>>,
    h: H,
)
    requires
        represents(old, rs, d),
        inserted(old, new, m, pat, h),
        pat.len() <= d,
    ensures
        represents(new.shape(), rs.push((m, pat, h)), d),
    decreases pat.len(),
{
    let ns = new.shape();
    let r: Route<H> = (m, pat, h);
    let rs2 = rs.push(r);
    assert forall|m2: Method| #[trigger] handler_for(ns.handlers, m2) == ends_here(rs2, m2) by {
        lemma_push_route(rs, r, m2, Seq::empty());
        if pat.len() == 0 {
            lemma_handlers_set(old.handlers, m, h, m2);
        }
    }
    if pat.len() == 0 {
        assert forall|name: Seq<char>| #[trigger] static_tails(rs2, name) == static_tails(rs, name) by {
            lemma_push_route(rs, r, m, name);
        }
        lemma_push_route(rs, r, m, Seq::empty());
        return;
    }
    let seg = pat[0];
    let rest = pat.drop_first();
    let tail: Route<H> = (m, rest, h);
    match segment_kind(seg) {
        SegmentKind::Static => {
            lemma_push_route(rs, r, m, seg);
            let i = index_of(names(old.statics), seg);
            lemma_index_of_bounds(names(old.statics), seg);
            if 0 <= i < old.statics.len() {
                assert(names(ns.statics) =~= names(old.statics));
                assert(static_tails(rs2, seg) == static_tails(rs, seg).push(tail));
                lemma_insert_represents(
                    old.statics[i].1.shape(),
                    ns.statics[i].1,
                    static_tails(rs, seg),
                    (d - 1) as nat,
                    m,
                    rest,
                    h,
                );
                assert forall|name: Seq<char>|
                    #![trigger index_of(names(ns.statics), name)]
                    if 0 <= index_of(names(ns.statics), name) < ns.statics.len() {
                        d > 0 && represents(
                            ns.statics[index_of(names(ns.statics), name)].1.shape(),
                            static_tails(rs2, name),
                            (d - 1) as nat,
                        )
                    } else {
                        static_tails(rs2, name) == Seq::<Route<H>>::empty()
                    } by {
                    lemma_push_route(rs, r, m, name);
                    assert(index_of(names(old.statics), name) == index_of(names(ns.statics), name));
                }
            } else {
                assert(names(ns.statics) =~= names(old.statics).push(seg));
                let k = old.statics.len() as int;
                assert(static_tails(rs, seg) == Seq::<Route<H>>::empty());
                assert(static_tails(rs2, seg) =~= Seq::<Route<H>>::empty().push(tail));
                lemma_empty_represents::<H>((d - 1) as nat);
                lemma_insert_represents(
                    empty_shape(),
                    ns.statics[k].1,
                    Seq::<Route<H>>::empty(),
                    (d - 1) as nat,
                    m,
                    rest,
                    h,
                );
                assert forall|name: Seq<char>|
                    #![trigger index_of(names(ns.statics), name)]
                    if 0 <= index_of(names(ns.statics), name) < ns.statics.len() {
                        d > 0 && represents(
                            ns.statics[index_of(names(ns.statics), name)].1.shape(),
                            static_tails(rs2, name),
                            (d - 1) as nat,
                        )
                    } else {
                        static_tails(rs2, name) == Seq::<Route<H>>::empty()
                    } by {
                    lemma_push_route(rs, r, m, name);
                    lemma_index_of_push(names(old.statics), seg, name);
                }
            }
        },
        SegmentKind::Param => {
            lemma_push_route(rs, r, m, seg);
            assert forall|name: Seq<char>| #[trigger] static_tails(rs2, name) == static_tails(rs, name) by {
                lemma_push_route(rs, r, m, name);
            }
            assert(param_tails(rs2) == param_tails(rs).push(tail));
            let np = ns.param.unwrap();
            match old.param {
                Some(op) => {
                    lemma_insert_represents(op.1.shape(), *np.1, param_tails(rs), (d - 1) as nat, m, rest, h);
                },
                None => {
                    assert(param_tails(rs).push(tail) =~= Seq::<Route<H>>::empty().push(tail));
                    lemma_empty_represents::<H>((d - 1) as nat);
                    lemma_insert_represents(empty_shape(), *np.1, Seq::<Route<H>>::empty(), (d - 1) as nat, m, rest, h);
                },
            }
        },
        SegmentKind::CatchAll => {
            lemma_push_route(rs, r, m, seg);
            assert forall|name: Seq<char>| #[trigger] static_tails(rs2, name) == static_tails(rs, name) by {
                lemma_push_route(rs, r, m, name);
            }
            let c2: Route<H> = (m, Seq::<Seq<char>>::empty(), h);
            assert(catch_routes(rs2) == catch_routes(rs).push(c2));
            let nc = ns.catch_all.unwrap();
            let oc = match old.catch_all {
                Some(c) => c.1.shape(),
                None => empty_shape(),
            };
            assert forall|m2: Method| #[trigger] handler_for(nc.1.shape().handlers, m2) == ends_here(catch_routes(rs2), m2) by {
                lemma_handlers_set(oc.handlers, m, h, m2);
                lemma_push_route(catch_routes(rs), c2, m2, Seq::empty());
                if old.catch_all is None {
                    assert(methods(empty_shape::<H>().handlers) =~= Seq::<Method>::empty());
                }
            }
        },
    }
}

/// Where a segment kind stands in the order of precedence: static segments
/// first, then parameters, then catch-all tails.
pub open spec fn kind_rank(k: SegmentKind) -> int {
    match k {
        SegmentKind::Static => 0,
        SegmentKind::Param => 1,
        SegmentKind::CatchAll => 2,
    }
}

/// The route segments `a` take precedence over the route segments `b`, or tie
/// with them: compared segment by segment, the first difference in kind
/// decides (static before parameter before catch-all), two catch-all
/// segments tie, and segments that run out first take precedence.
pub open spec fn outranks(a: Seq<Seq<char>>, b: Seq<Seq<char>>) -> bool
    decreases a.len(),
{
    if a.len() == 0 {
        true
    } else if b.len() == 0 {
        false
    } else if segment_kind(a[0]) != segment_kind(b[0]) {
        kind_rank(segment_kind(a[0])) < kind_rank(segment_kind(b[0]))
    } else if segment_kind(a[0]) == SegmentKind::CatchAll {
        true
    } else {
        outranks(a.drop_first(), b.drop_first())
    }
}

/// The route, as its segments and handler, that answers method `m` on the
/// path `q` among the routes `rs` taken in order: each route for `m` of which
/// `q` is an instance replaces the one found so far when it outranks it or
/// ties with it.
pub open spec fn winner<H>(rs: Seq<Route<H>>, m: Method, q: Seq<Seq<char>>) -> Option<(Seq<Seq<char>>, H)>
    decreases rs.len(),
{
    if rs.len() == 0 {
        None
    } else {
        let r = rs.last();
        let w = winner(rs.drop_last(), m, q);
        if r.0 == m && route_matches(r.1, q) && (w is None || outranks(r.1, w.unwrap().0)) {
            Some((r.1, r.2))
        } else {
            w
        }
    }
}

/// What the winning route `w` answers on the path `q`: its handler and the
/// values its parameters and catch-all tail capture.
pub open spec fn answer<H>(w: Option<(Seq<Seq<char>>, H)>, q: Seq<Seq<char>>) -> Option<(H, Seq<Seq<char>>)> {
    match w {
        Some(x) => Some((x.1, route_captures(x.0, q))),
        None => None,
    }
}

proof fn lemma_winner_push<H>(rs: Seq<Route<H>>, r: Route<H>, m: Method, q: Seq<Seq<char>>)
    ensures
        winner(rs.push(r), m, q) == if r.0 == m && route_matches(r.1, q) && (winner(rs, m, q) is None
            || outranks(r.1, winner(rs, m, q).unwrap().0)) {
            Some((r.1, r.2))
        } else {
            winner(rs, m, q)
        },
{
    assert(rs.push(r).drop_last() =~= rs);
}

proof fn lemma_matches_empty_path(pat: Seq<Seq<char>>)
    ensures
        route_matches(pat, Seq::<Seq<char>>::empty()) <==> pat.len() == 0,
{
}

/// On the empty path the winner is the last route for `m` with no segments.
proof fn lemma_winner_empty_path<H>(rs: Seq<Route<H>>, m: Method)
    ensures
        winner(rs, m, Seq::<Seq<char>>::empty()) == match ends_here(rs, m) {
            Some(h) => Some((Seq::<Seq<char>>::empty(), h)),
            None => None,
        },
    decreases rs.len(),
{
    if rs.len() > 0 {
        lemma_winner_empty_path(rs.drop_last(), m);
        lemma_matches_empty_path(rs.last().1);
        if rs.last().1.len() == 0 {
            assert(rs.last().1 =~= Seq::<Seq<char>>::empty());
        }
    }
}

/// On a non-empty path, the winner among `rs` is found in the tails of the
/// routes that start with that static segment, else in the tails of those
/// that start with a parameter, else among those that start with a catch-all.
proof fn lemma_winner_split<H>(rs: Seq<Route<H>>, m: Method, q: Seq<Seq<char>>)
    requires
        q.len() > 0,
    ensures
        ({
            let ws = winner(static_tails(rs, q[0]), m, q.drop_first());
            let wp = winner(param_tails(rs), m, q.drop_first());
            let wc = ends_here(catch_routes(rs), m);
            let w = winner(rs, m, q);
            if ws is Some {
                &&& w is Some
                &&& w.unwrap().0.len() > 0
                &&& segment_kind(w.unwrap().0[0]) == SegmentKind::Static
                &&& w.unwrap().0[0] == q[0]
                &&& w.unwrap().0.drop_first() == ws.unwrap().0
                &&& w.unwrap().1 == ws.unwrap().1
            } else if wp is Some {
                &&& w is Some
                &&& w.unwrap().0.len() > 0
                &&& segment_kind(w.unwrap().0[0]) == SegmentKind::Param
                &&& w.unwrap().0.drop_first() == wp.unwrap().0
                &&& w.unwrap().1 == wp.unwrap().1
            } else if wc is Some {
                &&& w is Some
                &&& w.unwrap().0.len() > 0
                &&& segment_kind(w.unwrap().0[0]) == SegmentKind::CatchAll
                &&& w.unwrap().1 == wc.unwrap()
            } else {
                w is None
            }
        }),
    decreases rs.len(),
{
    if rs.len() == 0 {
        return;
    }
    let pre = rs.drop_last();
    let r = rs.last();
    let part = q[0];
    let rest = q.drop_first();
    lemma_winner_split(pre, m, q);
    assert(pre.push(r) =~= rs);
    lemma_push_route(pre, r, m, part);
    lemma_winner_push(pre, r, m, q);
    if r.1.len() > 0 {
        let t: Route<H> = (r.0, r.1.drop_first(), r.2);
        lemma_winner_push(static_tails(pre, part), t, m, rest);
        lemma_winner_push(param_tails(pre), t, m, rest);
        lemma_push_route(catch_routes(pre), (r.0, Seq::<Seq<char>>::empty(), r.2), m, part);
    }
}

proof fn lemma_no_routes_no_winner<H>(m: Method, q: Seq<Seq<char>>)
    ensures
        winner(Seq::<Route<H>>::empty(), m, q) is None,
        ends_here(Seq::<Route<H>>::empty(), m) is None,
{
}

/// Matching a path from a node that holds the routes `rs` answers what the
/// winning route among `rs` answers.
proof fn lemma_represents_match<H>(n: NodeShape<H>, rs: Seq<Route<H>>, d: nat, m: Method, q: Seq<Seq<char>>)
    requires
        represents(n, rs, d),
    ensures
        shape_match(n, m, q) == answer(winner(rs, m, q), q),
    decreases q.len(),
{
    if q.len() == 0 {
        lemma_winner_empty_path(rs, m);
        assert(handler_for(n.handlers, m) == ends_here(rs, m));
        assert(q =~= Seq::<Seq<char>>::empty());
        return;
    }
    let part = q[0];
    let rest = q.drop_first();
    lemma_winner_split(rs, m, q);
    lemma_no_routes_no_winner::<H>(m, rest);
    let i = index_of(names(n.statics), part);
    if 0 <= i < n.statics.len() {
        lemma_represents_match(n.statics[i].1.shape(), static_tails(rs, part), (d - 1) as nat, m, rest);
    }
    match n.param {
        Some(p) => {
            lemma_represents_match(p.1.shape(), param_tails(rs), (d - 1) as nat, m, rest);
        },
        None => {},
    }
    match n.catch_all {
        Some(c) => {
            assert(handler_for(c.1.shape().handlers, m) == ends_here(catch_routes(rs), m));
        },
        None => {},
    }
}

/// Route `i` of `rs` is one for `m` of which the path `q` is an instance.
pub open spec fn candidate<H>(rs: Seq<Route<H>>, m: Method, q: Seq<Seq<char>>, i: int) -> bool {
    0 <= i < rs.len() && rs[i].0 == m && route_matches(rs[i].1, q)
}

/// Route `i` of `rs` is the one that answers `m` on `q`: a candidate that
/// outranks every candidate, and the last added of those that tie with it.
pub open spec fn best_route<H>(rs: Seq<Route<H>>, m: Method, q: Seq<Seq<char>>, i: int) -> bool {
    &&& candidate(rs, m, q, i)
    &&& forall|j: int|
        #[trigger] candidate(rs, m, q, j) ==> outranks(rs[i].1, rs[j].1) && (outranks(rs[j].1, rs[i].1) ==> j <= i)
}

proof fn lemma_outranks_reflexive(a: Seq<Seq<char>>)
    ensures
        outranks(a, a),
    decreases a.len(),
{
    if a.len() > 0 {
        lemma_outranks_reflexive(a.drop_first());
    }
}

proof fn lemma_outranks_total(a: Seq<Seq<char>>, b: Seq<Seq<char>>)
    ensures
        outranks(a, b) || outranks(b, a),
    decreases a.len(),
{
    if a.len() > 0 && b.len() > 0 {
        lemma_outranks_total(a.drop_first(), b.drop_first());
    }
}

proof fn lemma_outranks_transitive(a: Seq<Seq<char>>, b: Seq<Seq<char>>, c: Seq<Seq<char>>)
    requires
        outranks(a, b),
        outranks(b, c),
    ensures
        outranks(a, c),
    decreases a.len(),
{
    if a.len() > 0 && b.len() > 0 && c.len() > 0 {
        if segment_kind(a[0]) == segment_kind(b[0]) && segment_kind(b[0]) == segment_kind(c[0])
            && segment_kind(a[0]) != SegmentKind::CatchAll {
            lemma_outranks_transitive(a.drop_first(), b.drop_first(), c.drop_first());
        }
    }
}

/// The winner is there exactly when some route for `m` has `q` as an
/// instance, and then it is the best of those routes.
proof fn lemma_winner_is_best<H>(rs: Seq<Route<H>>, m: Method, q: Seq<Seq<char>>)
    ensures
        winner(rs, m, q) is Some <==> exists|i: int| candidate(rs, m, q, i),
        winner(rs, m, q) matches Some(w) ==> exists|i: int|
            best_route(rs, m, q, i) && rs[i].1 == w.0 && rs[i].2 == w.1,
    decreases rs.len(),
{
    if rs.len() == 0 {
        return;
    }
    let pre = rs.drop_last();
    let r = rs.last();
    let n = pre.len() as int;
    lemma_winner_is_best(pre, m, q);
    assert forall|j: int| 0 <= j < n implies #[trigger] rs[j] == pre[j] by {
    }
    assert forall|j: int| 0 <= j < n implies (#[trigger] candidate(rs, m, q, j) <==> candidate(pre, m, q, j)) by {
        assert(rs[j] == pre[j]);
    }
    let wp = winner(pre, m, q);
    if r.0 == m && route_matches(r.1, q) {
        assert(candidate(rs, m, q, n));
        lemma_outranks_reflexive(r.1);
        if wp is None || outranks(r.1, wp.unwrap().0) {
            assert(best_route(rs, m, q, n)) by {
                assert forall|j: int| #[trigger] candidate(rs, m, q, j) implies outranks(rs[n].1, rs[j].1)
                    && (outranks(rs[j].1, rs[n].1) ==> j <= n) by {
                    if j < n {
                        assert(candidate(pre, m, q, j));
                        let i = choose|i: int| best_route(pre, m, q, i) && pre[i].1 == wp.unwrap().0 && pre[i].2 == wp.unwrap().1;
                        assert(candidate(pre, m, q, i));
                        lemma_outranks_transitive(r.1, pre[i].1, pre[j].1);
                    }
                }
            }
        } else {
            let w = wp.unwrap();
            let i = choose|i: int| best_route(pre, m, q, i) && pre[i].1 == w.0 && pre[i].2 == w.1;
            lemma_outranks_total(r.1, w.0);
            assert(rs[i] == pre[i]);
            assert(best_route(rs, m, q, i)) by {
                assert forall|j: int| #[trigger] candidate(rs, m, q, j) implies outranks(rs[i].1, rs[j].1)
                    && (outranks(rs[j].1, rs[i].1) ==> j <= i) by {
                    if j < n {
                        assert(candidate(pre, m, q, j));
                    }
                }
            }
        }
    } else {
        assert(!candidate(rs, m, q, n));
        if wp is Some {
            let w = wp.unwrap();
            let i = choose|i: int| best_route(pre, m, q, i) && pre[i].1 == w.0 && pre[i].2 == w.1;
            assert(rs[i] == pre[i]);
            assert(best_route(rs, m, q, i)) by {
                assert forall|j: int| #[trigger] candidate(rs, m, q, j) implies outranks(rs[i].1, rs[j].1)
                    && (outranks(rs[j].1, rs[i].1) ==> j <= i) by {
                    assert(j < n);
                    assert(candidate(pre, m, q, j));
                }
            }
        } else {
            assert forall|j: int| !#[trigger] candidate(rs, m, q, j) by {
                if 0 <= j < n {
                    assert(!candidate(pre, m, q, j));
                }
            }
        }
    }
}

/// The most segments that a route of `rs` has.
pub open spec fn max_len<H>(rs: Seq<Route<H>>) -> nat
    decreases rs.len(),
{
    if rs.len() == 0 {
        0
    } else {
        let a = max_len(rs.drop_last());
        let b = rs.last().1.len();
        if a >= b {
            a
        } else {
            b
        }
    }
}

proof fn lemma_max_len<H>(rs: Seq<Route<H>>, i: int)
    requires
        0 <= i < rs.len(),
    ensures
        rs[i].1.len() <= max_len(rs),
    decreases rs.len(),
{
    if i < rs.len() - 1 {
        lemma_max_len(rs.drop_last(), i);
    }
}

/// Each node of a sequence that starts empty and registers the routes `rs`
/// one after another holds the routes registered so far.
proof fn lemma_built_represents<H>(nodes: Seq<Node<H>>, rs: Seq<Route<H>>, k: int)
    requires
        nodes.len() == rs.len() + 1,
        nodes[0].shape() == empty_shape::<H>(),
        forall|i: int|
            #![trigger rs[i]]
            0 <= i < rs.len() ==> inserted(nodes[i].shape(), nodes[i + 1], rs[i].0, rs[i].1, rs[i].2),
        0 <= k <= rs.len(),
    ensures
        represents(nodes[k].shape(), rs.take(k), max_len(rs)),
    decreases k,
{
    if k == 0 {
        assert(rs.take(0) =~= Seq::<Route<H>>::empty());
        lemma_empty_represents::<H>(max_len(rs));
    } else {
        lemma_built_represents(nodes, rs, k - 1);
        let r = rs[k - 1];
        lemma_max_len(rs, k - 1);
        lemma_insert_represents(nodes[k - 1].shape(), nodes[k], rs.take(k - 1), max_len(rs), r.0, r.1, r.2);
        assert(rs.take(k - 1).push(r) =~= rs.take(k));
    }
}

/// A node built by registering the routes `rs` one after another, starting
/// from an empty node, answers method `m` on the path `q` exactly when some
/// route for `m` has `q` as an instance; it then answers with the handler of
/// the best such route and the values that route's parameters and catch-all
/// tail capture on `q`.
pub proof fn lemma_built_node_answers_best<H>(nodes: Seq<Node<H>>, rs: Seq<Route<H>>, m: Method, q: Seq<Seq<char>>)
    requires
        nodes.len() == rs.len() + 1,
        nodes[0].shape() == empty_shape::<H>(),
        forall|i: int|
            #![trigger rs[i]]
            0 <= i < rs.len() ==> inserted(nodes[i].shape(), nodes[i + 1], rs[i].0, rs[i].1, rs[i].2),
    ensures
        shape_match(nodes.last().shape(), m, q) is Some <==> exists|i: int| candidate(rs, m, q, i),
        shape_match(nodes.last().shape(), m, q) matches Some(found) ==> exists|i: int|
            best_route(rs, m, q, i) && found.0 == rs[i].2 && found.1 == route_captures(rs[i].1, q),
{
    lemma_built_represents(nodes, rs, rs.len() as int);
    assert(rs.take(rs.len() as int) =~= rs);
    lemma_represents_match(nodes.last().shape(), rs, max_len(rs), m, q);
    lemma_winner_is_best(rs, m, q);
}

} // verus!
