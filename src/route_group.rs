//! Route groups: routes, nested groups and middleware declared together,
//! flattened into one route trie.
use crate::method::HttpMethod;
use crate::middleware::{Middleware, RouteHandler};
use crate::route_level::{
    after_add, children_inhabited, deep_inhabited, displaced, displaced_by_level, merged_route, route_at,
    CompleteRouteHandler, HandlerView, RouteLevel,
};
use crate::route_path::{RoutePath, SegView};
use vstd::prelude::*;

verus! {

/// Middleware declared on a group: `Local` applies to the group's own
/// routes only, `Recursive` to those and to every route of its sub-groups.
#[derive(Debug, Clone, Copy, PartialEq, Eq, Structural)]
pub enum AppliedMiddleware {
    Local(Middleware),
    Recursive(Middleware),
}

/// The middleware on a group's own routes: all declared middleware, in
/// declaration order.
pub open spec fn local_chain(mw: Seq<AppliedMiddleware>) -> Seq<Middleware>
    decreases mw.len(),
{
    if mw.len() == 0 {
        Seq::empty()
    } else {
        let init = local_chain(mw.drop_last());
        match mw.last() {
            AppliedMiddleware::Local(m) => init.push(m),
            AppliedMiddleware::Recursive(m) => init.push(m),
        }
    }
}

/// The middleware that a group passes on to its sub-groups: the recursive
/// ones, in declaration order.
pub open spec fn recursive_chain(mw: Seq<AppliedMiddleware>) -> Seq<Middleware>
    decreases mw.len(),
{
    if mw.len() == 0 {
        Seq::empty()
    } else {
        let init = recursive_chain(mw.drop_last());
        match mw.last() {
            AppliedMiddleware::Local(_) => init,
            AppliedMiddleware::Recursive(m) => init.push(m),
        }
    }
}

/// The route at `p` for `m` after registering the declared routes in
/// order, each with `chain` as its middleware.
pub open spec fn direct_route_at(
    routes: Seq<(HttpMethod, Seq<SegView>, RouteHandler)>,
    chain: Seq<Middleware>,
    p: Seq<SegView>,
    m: HttpMethod,
) -> Option<HandlerView>
    decreases routes.len(),
{
    if routes.len() == 0 {
        None
    } else {
        let e = routes.last();
        after_add(direct_route_at(routes.drop_last(), chain, p, m), e.1, e.0, (chain, e.2), p, m)
    }
}

/// A group of routes beneath a common path.
#[derive(Debug)]
pub struct RouteGroup {
    path: RoutePath,
    routes: Vec<(HttpMethod, RoutePath, RouteHandler)>,
    groups: Vec<RouteGroup>,
    middleware: Vec<AppliedMiddleware>,
}

/// The routes declared directly in a group, in order.
pub closed spec fn declared_routes(g: RouteGroup) -> Seq<(HttpMethod, Seq<SegView>, RouteHandler)> {
    g.routes@.map_values(|e: (HttpMethod, RoutePath, RouteHandler)| (e.0, e.1@, e.2))
}

/// The sub-groups of a group, in order.
pub closed spec fn sub_groups(g: RouteGroup) -> Seq<RouteGroup> {
    g.groups@
}

/// The path beneath which a group is mounted.
pub closed spec fn group_path(g: RouteGroup) -> Seq<SegView> {
    g.path@
}

/// The middleware declared on a group, in order.
pub closed spec fn group_middleware(g: RouteGroup) -> Seq<AppliedMiddleware> {
    g.middleware@
}

/// The routes that a trie or a group holds: the route at each path for
/// each method, if any.
pub type RouteFn = spec_fn(Seq<SegView>, HttpMethod) -> Option<HandlerView>;

/// Whether some route of `rs`, placed beneath `sp`, displaces `p`.
pub open spec fn displaced_by_routes(rs: RouteFn, sp: Seq<SegView>, p: Seq<SegView>) -> bool {
    exists|q: Seq<SegView>, m2: HttpMethod| #[trigger] rs(q, m2) is Some && displaced(sp + q, p)
}

/// The route at `p` for `m` after registering the routes `rs` beneath
/// `sp`, with `rc` outside their middleware, given the route there before:
/// a registered route wins, a displaced route goes, any other stays.
pub open spec fn merged_routes(
    before: Option<HandlerView>,
    rs: RouteFn,
    sp: Seq<SegView>,
    rc: Seq<Middleware>,
    p: Seq<SegView>,
    m: HttpMethod,
) -> Option<HandlerView> {
    if p.len() >= sp.len() && p.take(sp.len() as int) == sp && rs(p.skip(sp.len() as int), m) is Some {
        let h0 = rs(p.skip(sp.len() as int), m)->0;
        Some((rc + h0.0, h0.1))
    } else if displaced_by_routes(rs, sp, p) {
        None
    } else {
        before
    }
}

/// The route at `p` for `m` once the group's own routes and the routes
/// `fs` of its first `k` sub-groups are registered: the own routes carry the
/// local chain; each sub-group's routes go beneath its path with the
/// recursive chain outside their own middleware.
pub open spec fn routes_through(
    g: RouteGroup,
    fs: Seq<RouteFn>,
    k: int,
    p: Seq<SegView>,
    m: HttpMethod,
) -> Option<HandlerView>
    decreases k,
{
    if k <= 0 {
        direct_route_at(declared_routes(g), local_chain(group_middleware(g)), p, m)
    } else {
        merged_routes(
            routes_through(g, fs, k - 1, p, m),
            fs[k - 1],
            group_path(sub_groups(g)[k - 1]),
            recursive_chain(group_middleware(g)),
            p,
            m,
        )
    }
}

/// The routes of the first `k` sub-groups of `g`, in order.
pub open spec fn sub_group_routes(g: RouteGroup, k: int) -> Seq<RouteFn>
    decreases g, k,
{
    if k <= 0 || k > sub_groups(g).len() {
        Seq::empty()
    } else {
        sub_group_routes(g, k - 1).push(group_routes(sub_groups(g)[k - 1]))
    }
}

/// The routes that a group registers: its own routes with its local chain,
/// then the routes of each sub-group, in order, beneath the sub-group's
/// path with the group's recursive chain outside their own middleware.
pub open spec fn group_routes(g: RouteGroup) -> RouteFn
    decreases g, sub_groups(g).len() + 1,
{
    let fs = sub_group_routes(g, sub_groups(g).len() as int);
    |p: Seq<SegView>, m: HttpMethod| routes_through(g, fs, sub_groups(g).len() as int, p, m)
}

proof fn lemma_sub_group_routes(g: RouteGroup, k: int)
    requires
        0 <= k <= sub_groups(g).len(),
    ensures
        sub_group_routes(g, k).len() == k,
        forall|i: int| 0 <= i < k ==> #[trigger] sub_group_routes(g, k)[i] == group_routes(sub_groups(g)[i]),
    decreases k,
{
    if k > 0 {
        lemma_sub_group_routes(g, k - 1);
    }
}

proof fn lemma_routes_through_prefix(
    g: RouteGroup,
    fs: Seq<RouteFn>,
    fs2: Seq<RouteFn>,
    k: int,
    p: Seq<SegView>,
    m: HttpMethod,
)
    requires
        k <= fs.len(),
        k <= fs2.len(),
        forall|i: int| 0 <= i < k ==> fs[i] == fs2[i],
    ensures
        routes_through(g, fs, k, p, m) == routes_through(g, fs2, k, p, m),
    decreases k,
{
    if k > 0 {
        lemma_routes_through_prefix(g, fs, fs2, k - 1, p, m);
    }
}

/// Whether `hv` is the route that sub-group `k` registers beneath its path
/// at `p` for `m`, with the group's recursive middleware outside its own.
pub open spec fn from_sub_group(g: RouteGroup, k: int, p: Seq<SegView>, m: HttpMethod, hv: HandlerView) -> bool {
    let sg = sub_groups(g)[k];
    let sp = group_path(sg);
    &&& p.len() >= sp.len()
    &&& p.take(sp.len() as int) == sp
    &&& group_routes(sg)(p.skip(sp.len() as int), m) matches Some(h0) && hv == (
        recursive_chain(group_middleware(g)) + h0.0,
        h0.1,
    )
}

proof fn lemma_direct_chain(
    routes: Seq<(HttpMethod, Seq<SegView>, RouteHandler)>,
    chain: Seq<Middleware>,
    p: Seq<SegView>,
    m: HttpMethod,
)
    requires
        direct_route_at(routes, chain, p, m) is Some,
    ensures
        (direct_route_at(routes, chain, p, m)->0).0 == chain,
    decreases routes.len(),
{
    if routes.len() > 0 {
        let e = routes.last();
        if !(p == e.1 && m == e.0) {
            lemma_direct_chain(routes.drop_last(), chain, p, m);
        }
    }
}

proof fn lemma_scope_through(g: RouteGroup, k: int, p: Seq<SegView>, m: HttpMethod)
    requires
        0 <= k <= sub_groups(g).len(),
        routes_through(g, sub_group_routes(g, sub_groups(g).len() as int), k, p, m) is Some,
    ensures
        ({
            let hv = routes_through(g, sub_group_routes(g, sub_groups(g).len() as int), k, p, m)->0;
            ||| (direct_route_at(declared_routes(g), local_chain(group_middleware(g)), p, m) == Some(hv)
                && hv.0 == local_chain(group_middleware(g)))
            ||| exists|i: int| 0 <= i < k && #[trigger] from_sub_group(g, i, p, m, hv)
        }),
    decreases k,
{
    let fs = sub_group_routes(g, sub_groups(g).len() as int);
    lemma_sub_group_routes(g, sub_groups(g).len() as int);
    let hv = routes_through(g, fs, k, p, m)->0;
    if k == 0 {
        lemma_direct_chain(declared_routes(g), local_chain(group_middleware(g)), p, m);
    } else {
        let sp = group_path(sub_groups(g)[k - 1]);
        let f = fs[k - 1];
        if p.len() >= sp.len() && p.take(sp.len() as int) == sp && f(p.skip(sp.len() as int), m) is Some {
            assert(from_sub_group(g, k - 1, p, m, hv));
        } else {
            assert(routes_through(g, fs, k - 1, p, m) == Some(hv));
            lemma_scope_through(g, k - 1, p, m);
            if exists|i: int| 0 <= i < k - 1 && #[trigger] from_sub_group(g, i, p, m, hv) {
                let i = choose|i: int| 0 <= i < k - 1 && #[trigger] from_sub_group(g, i, p, m, hv);
                assert(0 <= i < k);
            }
        }
    }
}

/// Middleware scope. Every route that a group registers either is one of
/// the group's own routes, and then carries all of the group's middleware
/// in declaration order and nothing else; or it lies beneath the path of
/// one of its sub-groups, and then carries the group's recursive middleware
/// outermost, followed by exactly the middleware that the sub-group itself
/// registers for it. The group's local middleware thus reaches its own
/// routes only, and its recursive middleware every route of every
/// sub-group, at any depth.
pub proof fn lemma_middleware_scope(g: RouteGroup, p: Seq<SegView>, m: HttpMethod)
    requires
        group_routes(g)(p, m) is Some,
    ensures
        ({
            let hv = group_routes(g)(p, m)->0;
            ||| (direct_route_at(declared_routes(g), local_chain(group_middleware(g)), p, m) == Some(hv)
                && hv.0 == local_chain(group_middleware(g)))
            ||| exists|i: int| 0 <= i < sub_groups(g).len() && #[trigger] from_sub_group(g, i, p, m, hv)
        }),
{
    lemma_scope_through(g, sub_groups(g).len() as int, p, m);
}

proof fn lemma_merged_same(
    before: Option<HandlerView>,
    level: RouteLevel,
    f: RouteFn,
    sp: Seq<SegView>,
    rc: Seq<Middleware>,
    p: Seq<SegView>,
    m: HttpMethod,
)
    requires
        forall|q: Seq<SegView>, m2: HttpMethod| #[trigger] route_at(level, q, m2) == f(q, m2),
    ensures
        merged_route(before, level, sp, rc, p, m) == merged_routes(before, f, sp, rc, p, m),
{
    if displaced_by_level(level, sp, p) {
        let (q, m2) = choose|q: Seq<SegView>, m2: HttpMethod|
            #[trigger] route_at(level, q, m2) is Some && displaced(sp + q, p);
        assert(f(q, m2) is Some);
        assert(displaced_by_routes(f, sp, p));
    }
    if displaced_by_routes(f, sp, p) {
        let (q, m2) = choose|q: Seq<SegView>, m2: HttpMethod| #[trigger] f(q, m2) is Some && displaced(sp + q, p);
        assert(route_at(level, q, m2) is Some);
        assert(displaced_by_level(level, sp, p));
    }
    if p.len() >= sp.len() && p.take(sp.len() as int) == sp {
        assert(route_at(level, p.skip(sp.len() as int), m) == f(p.skip(sp.len() as int), m));
    }
}

impl RouteGroup {
    /// An empty group mounted at `path`.
    pub fn new(path: RoutePath) -> (r: Self)
        ensures
            group_path(r) == path@,
            declared_routes(r) == Seq::<(HttpMethod, Seq<SegView>, RouteHandler)>::empty(),
            sub_groups(r) == Seq::<RouteGroup>::empty(),
            group_middleware(r) == Seq::<AppliedMiddleware>::empty(),
    {
        let r = RouteGroup { path, routes: Vec::new(), groups: Vec::new(), middleware: Vec::new() };
        assert(declared_routes(r) =~= Seq::<(HttpMethod, Seq<SegView>, RouteHandler)>::empty());
        r
    }

    /// The path at which the group is mounted.
    pub fn path(&self) -> (r: RoutePath)
        ensures
            r@ == group_path(*self),
    {
        self.path.duplicate()
    }

    /// Registers a route in the group; a later route for the same method
    /// and path takes precedence.
    pub fn route(self, method: HttpMethod, path: RoutePath, handler: RouteHandler) -> (r: Self)
        ensures
            declared_routes(r) == declared_routes(self).push((method, path@, handler)),
            group_path(r) == group_path(self),
            sub_groups(r) == sub_groups(self),
            group_middleware(r) == group_middleware(self),
    {
        let mut g = self;
        let ghost pv = path@;
        g.routes.push((method, path, handler));
        assert(declared_routes(g) =~= declared_routes(self).push((method, pv, handler)));
        g
    }

    /// Shorthand for `route(HttpMethod::Get, ...)`.
    pub fn get(self, path: RoutePath, handler: RouteHandler) -> (r: Self)
        ensures
            declared_routes(r) == declared_routes(self).push((HttpMethod::Get, path@, handler)),
            group_path(r) == group_path(self),
            sub_groups(r) == sub_groups(self),
            group_middleware(r) == group_middleware(self),
    {
        self.route(HttpMethod::Get, path, handler)
    }

    /// Shorthand for `route(HttpMethod::Head, ...)`.
    pub fn head(self, path: RoutePath, handler: RouteHandler) -> (r: Self)
        ensures
            declared_routes(r) == declared_routes(self).push((HttpMethod::Head, path@, handler)),
            group_path(r) == group_path(self),
            sub_groups(r) == sub_groups(self),
            group_middleware(r) == group_middleware(self),
    {
        self.route(HttpMethod::Head, path, handler)
    }

    /// Shorthand for `route(HttpMethod::Post, ...)`.
    pub fn post(self, path: RoutePath, handler: RouteHandler) -> (r: Self)
        ensures
            declared_routes(r) == declared_routes(self).push((HttpMethod::Post, path@, handler)),
            group_path(r) == group_path(self),
            sub_groups(r) == sub_groups(self),
            group_middleware(r) == group_middleware(self),
    {
        self.route(HttpMethod::Post, path, handler)
    }

    /// Shorthand for `route(HttpMethod::Put, ...)`.
    pub fn put(self, path: RoutePath, handler: RouteHandler) -> (r: Self)
        ensures
            declared_routes(r) == declared_routes(self).push((HttpMethod::Put, path@, handler)),
            group_path(r) == group_path(self),
            sub_groups(r) == sub_groups(self),
            group_middleware(r) == group_middleware(self),
    {
        self.route(HttpMethod::Put, path, handler)
    }

    /// Shorthand for `route(HttpMethod::Delete, ...)`.
    pub fn delete(self, path: RoutePath, handler: RouteHandler) -> (r: Self)
        ensures
            declared_routes(r) == declared_routes(self).push((HttpMethod::Delete, path@, handler)),
            group_path(r) == group_path(self),
            sub_groups(r) == sub_groups(self),
            group_middleware(r) == group_middleware(self),
    {
        self.route(HttpMethod::Delete, path, handler)
    }

    /// Shorthand for `route(HttpMethod::Connect, ...)`.
    pub fn connect(self, path: RoutePath, handler: RouteHandler) -> (r: Self)
        ensures
            declared_routes(r) == declared_routes(self).push((HttpMethod::Connect, path@, handler)),
            group_path(r) == group_path(self),
            sub_groups(r) == sub_groups(self),
            group_middleware(r) == group_middleware(self),
    {
        self.route(HttpMethod::Connect, path, handler)
    }

    /// Shorthand for `route(HttpMethod::Options, ...)`.
    pub fn options(self, path: RoutePath, handler: RouteHandler) -> (r: Self)
        ensures
            declared_routes(r) == declared_routes(self).push((HttpMethod::Options, path@, handler)),
            group_path(r) == group_path(self),
            sub_groups(r) == sub_groups(self),
            group_middleware(r) == group_middleware(self),
    {
        self.route(HttpMethod::Options, path, handler)
    }

    /// Shorthand for `route(HttpMethod::Trace, ...)`.
    pub fn trace(self, path: RoutePath, handler: RouteHandler) -> (r: Self)
        ensures
            declared_routes(r) == declared_routes(self).push((HttpMethod::Trace, path@, handler)),
            group_path(r) == group_path(self),
            sub_groups(r) == sub_groups(self),
            group_middleware(r) == group_middleware(self),
    {
        self.route(HttpMethod::Trace, path, handler)
    }

    /// Shorthand for `route(HttpMethod::Patch, ...)`.
    pub fn patch(self, path: RoutePath, handler: RouteHandler) -> (r: Self)
        ensures
            declared_routes(r) == declared_routes(self).push((HttpMethod::Patch, path@, handler)),
            group_path(r) == group_path(self),
            sub_groups(r) == sub_groups(self),
            group_middleware(r) == group_middleware(self),
    {
        self.route(HttpMethod::Patch, path, handler)
    }

    /// Registers a sub-group.
    pub fn route_group(self, group: RouteGroup) -> (r: Self)
        ensures
            sub_groups(r) == sub_groups(self).push(group),
            declared_routes(r) == declared_routes(self),
            group_path(r) == group_path(self),
            group_middleware(r) == group_middleware(self),
    {
        let mut g = self;
        g.groups.push(group);
        g
    }

    /// Registers middleware for the group's own routes and those of every
    /// sub-group.
    pub fn with_middleware(self, middleware: Middleware) -> (r: Self)
        ensures
            group_middleware(r) == group_middleware(self).push(
                AppliedMiddleware::Recursive(middleware),
            ),
            declared_routes(r) == declared_routes(self),
            sub_groups(r) == sub_groups(self),
            group_path(r) == group_path(self),
    {
        let mut g = self;
        g.middleware.push(AppliedMiddleware::Recursive(middleware));
        g
    }

    /// Registers middleware for the group's own routes only.
    pub fn with_local_middleware(self, middleware: Middleware) -> (r: Self)
        ensures
            group_middleware(r) == group_middleware(self).push(AppliedMiddleware::Local(middleware)),
            declared_routes(r) == declared_routes(self),
            sub_groups(r) == sub_groups(self),
            group_path(r) == group_path(self),
    {
        let mut g = self;
        g.middleware.push(AppliedMiddleware::Local(middleware));
        g
    }

    /// Flattens the group into a route trie, each route with its complete
    /// middleware chain built once: the group's own routes carry all of its
    /// middleware in declaration order; the routes of each sub-group go
    /// beneath the sub-group's path with this group's recursive middleware
    /// outside their own.
    #[verifier::spinoff_prover]
    #[verifier::rlimit(80)]
    pub fn into_route_level(&self) -> (r: RouteLevel)
        ensures
            forall|p: Seq<SegView>, m: HttpMethod| #[trigger]
                route_at(r, p, m) == group_routes(*self)(p, m),
            children_inhabited(r),
            deep_inhabited(r),
        decreases *self,
    {
        let ghost mw = self.middleware@;
        let mut local: Vec<Middleware> = Vec::new();
        let mut recursive: Vec<Middleware> = Vec::new();
        let mut i: usize = 0;
        while i < self.middleware.len()
            invariant
                i <= mw.len(),
                mw == self.middleware@,
                local@ == local_chain(mw.take(i as int)),
                recursive@ == recursive_chain(mw.take(i as int)),
            decreases mw.len() - i,
        {
            assert(mw.take(i + 1).drop_last() =~= mw.take(i as int));
            match self.middleware[i] {
                AppliedMiddleware::Local(m) => {
                    local.push(m);
                },
                AppliedMiddleware::Recursive(m) => {
                    local.push(m);
                    recursive.push(m);
                },
            }
            i = i + 1;
        }
        assert(mw.take(mw.len() as int) =~= mw);
        let ghost routes = declared_routes(*self);
        let ghost chain = local_chain(mw);
        let mut level = RouteLevel::new();
        let mut j: usize = 0;
        while j < self.routes.len()
            invariant
                j <= self.routes@.len(),
                routes == declared_routes(*self),
                local@ == chain,
                forall|p: Seq<SegView>, m: HttpMethod| #[trigger]
                    route_at(level, p, m) == direct_route_at(routes.take(j as int), chain, p, m),
                routes == declared_routes(*self),
                children_inhabited(level),
                deep_inhabited(level),
            decreases self.routes@.len() - j,
        {
            let h = CompleteRouteHandler::new(self.routes[j].2, local.as_slice());
            level.add(self.routes[j].0, &self.routes[j].1, h);
            proof {
                assert(routes.take(j + 1).drop_last() =~= routes.take(j as int));
                assert(routes.take(j + 1).last() == routes[j as int]);
            }
            j = j + 1;
        }
        proof {
            assert(routes.take(routes.len() as int) =~= routes);
        }
        let ghost fs = sub_group_routes(*self, self.groups@.len() as int);
        proof {
            lemma_sub_group_routes(*self, self.groups@.len() as int);
            assert(sub_groups(*self) == self.groups@);
        }
        let mut k: usize = 0;
        while k < self.groups.len()
            invariant
                k <= self.groups@.len(),
                fs == sub_group_routes(*self, self.groups@.len() as int),
                fs.len() == self.groups@.len(),
                forall|i: int| 0 <= i < fs.len() ==> #[trigger] fs[i] == group_routes(self.groups@[i]),
                recursive@ == recursive_chain(mw),
                mw == self.middleware@,
                children_inhabited(level),
                deep_inhabited(level),
                forall|p: Seq<SegView>, m: HttpMethod| #[trigger]
                    route_at(level, p, m) == routes_through(*self, fs, k as int, p, m),
            decreases self.groups@.len() - k,
        {
            let sg = &self.groups[k];
            assert(decreases_to!(*self => self.groups));
            assert(decreases_to!(self.groups => self.groups@));
            assert(decreases_to!(self.groups@ => self.groups@[k as int]));
            let sub_level = sg.into_route_level();
            let ghost before = level;
            level.add_level(&sg.path, &sub_level, recursive.as_slice());
            proof {
                let f = fs[k as int];
                assert(f == group_routes(*sg));
                assert forall|p: Seq<SegView>, m: HttpMethod| #[trigger]
                    route_at(level, p, m) == routes_through(*self, fs, k + 1, p, m) by {
                    lemma_merged_same(route_at(before, p, m), sub_level, f, sg.path@, recursive@, p, m);
                    assert(group_path(sub_groups(*self)[k as int]) == sg.path@);
                }
            }
            k = k + 1;
        }
        level
    }
}

impl RouteLevel {
    /// Flattens `group` and registers its routes beneath the group's path,
    /// with `middleware` outside each route's own middleware.
    pub fn add_group(&mut self, group: &RouteGroup, middleware: &[Middleware])
        ensures
            forall|p: Seq<SegView>, m: HttpMethod| #[trigger]
                route_at(*final(self), p, m) == merged_routes(
                    route_at(*old(self), p, m),
                    group_routes(*group),
                    group_path(*group),
                    middleware@,
                    p,
                    m,
                ),
            children_inhabited(*old(self)) ==> children_inhabited(*final(self)),
            deep_inhabited(*old(self)) ==> deep_inhabited(*final(self)),
    {
        let ghost before = *self;
        let sub = group.into_route_level();
        let path = group.path();
        self.add_level(&path, &sub, middleware);
        proof {
            assert forall|p: Seq<SegView>, m: HttpMethod| #[trigger]
                route_at(*self, p, m) == merged_routes(
                    route_at(before, p, m),
                    group_routes(*group),
                    group_path(*group),
                    middleware@,
                    p,
                    m,
                ) by {
                lemma_merged_same(route_at(before, p, m), sub, group_routes(*group), path@, middleware@, p, m);
            }
        }
    }
}

} // verus!
