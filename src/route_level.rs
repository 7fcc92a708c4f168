//! The route trie.
//!
//! A level of the trie holds the routes of one declared path, one per
//! method, the literal children by name, and at most one wildcard child.
use crate::error::Error;
use crate::method::HttpMethod;
use crate::middleware::{invoker_handler, invoker_layers, Invoker, Middleware, RouteHandler};
use crate::route_path::{
    seg_name, seg_text, MatchedSegView, RoutePath, RoutePathMatched, RoutePathMatchedSegment,
    RoutePathSegment, SegView,
};
use vstd::prelude::*;

verus! {

/// The mathematical form of a route handler with its middleware: the
/// middleware, outermost first, and the handler.
pub type HandlerView = (Seq<Middleware>, RouteHandler);

/// A route handler with its middleware and the chain built from them.
#[derive(Debug)]
pub struct CompleteRouteHandler {
    middleware: Vec<Middleware>,
    handler: RouteHandler,
    invoker: Invoker,
}

impl View for CompleteRouteHandler {
    type V = HandlerView;

    closed spec fn view(&self) -> HandlerView {
        (self.middleware@, self.handler)
    }
}

impl CompleteRouteHandler {
    /// The chain agrees with the middleware and the handler.
    #[verifier::type_invariant]
    spec fn chain_agrees(self) -> bool {
        &&& invoker_layers(self.invoker) == self.middleware@
        &&& invoker_handler(self.invoker) == self.handler
    }

    /// A handler wrapped in `middleware`, outermost first; its chain is
    /// built here, once.
    pub fn new(handler: RouteHandler, middleware: &[Middleware]) -> (r: Self)
        ensures
            r@ == (middleware@, handler),
    {
        let mut ms: Vec<Middleware> = Vec::new();
        let mut i: usize = 0;
        while i < middleware.len()
            invariant
                i <= middleware@.len(),
                ms@ == middleware@.take(i as int),
            decreases middleware@.len() - i,
        {
            ms.push(middleware[i]);
            i = i + 1;
            assert(ms@ =~= middleware@.take(i as int));
        }
        assert(middleware@.take(middleware@.len() as int) =~= middleware@);
        let invoker = Invoker::build(ms.as_slice(), handler);
        CompleteRouteHandler { middleware: ms, handler, invoker }
    }

    /// A handler without middleware.
    pub fn from_handler(handler: RouteHandler) -> (r: Self)
        ensures
            r@ == (Seq::<Middleware>::empty(), handler),
    {
        let none: Vec<Middleware> = Vec::new();
        CompleteRouteHandler::new(handler, none.as_slice())
    }

    /// Installs `middleware` outside the middleware already on the route,
    /// and rebuilds the chain.
    pub fn add_middleware(&mut self, middleware: &[Middleware])
        ensures
            final(self)@ == (middleware@ + old(self)@.0, old(self)@.1),
    {
        let mut ms: Vec<Middleware> = Vec::new();
        let mut i: usize = 0;
        while i < middleware.len()
            invariant
                i <= middleware@.len(),
                ms@ == middleware@.take(i as int),
            decreases middleware@.len() - i,
        {
            ms.push(middleware[i]);
            i = i + 1;
            assert(ms@ =~= middleware@.take(i as int));
        }
        let mut j: usize = 0;
        while j < self.middleware.len()
            invariant
                j <= self.middleware@.len(),
                ms@ == middleware@ + self.middleware@.take(j as int),
            decreases self.middleware@.len() - j,
        {
            ms.push(self.middleware[j]);
            j = j + 1;
            assert(ms@ =~= middleware@ + self.middleware@.take(j as int));
        }
        assert(middleware@.take(middleware@.len() as int) =~= middleware@);
        assert(self.middleware@.take(self.middleware@.len() as int) =~= self.middleware@);
        let handler = self.handler;
        let invoker = Invoker::build(ms.as_slice(), handler);
        *self = CompleteRouteHandler { middleware: ms, handler, invoker };
    }

    /// The middleware, outermost first.
    pub fn middleware(&self) -> (r: &[Middleware])
        ensures
            r@ == self@.0,
    {
        self.middleware.as_slice()
    }

    /// The handler.
    pub fn handler(&self) -> (r: RouteHandler)
        ensures
            r == self@.1,
    {
        self.handler
    }

    /// The chain that runs the middleware and then the handler.
    pub fn invoker(&self) -> (r: &Invoker)
        ensures
            invoker_layers(*r) == self@.0,
            invoker_handler(*r) == self@.1,
    {
        proof {
            use_type_invariant(self);
        }
        &self.invoker
    }

    /// A copy of the route handler.
    pub fn duplicate(&self) -> (r: Self)
        ensures
            r@ == self@,
    {
        CompleteRouteHandler::new(self.handler, self.middleware.as_slice())
    }
}

/// A level of the route trie.
#[derive(Debug)]
pub struct RouteLevel {
    /// The routes of this level's own path, by method.
    self_routes: Vec<(HttpMethod, CompleteRouteHandler)>,
    /// The literal children, by segment name.
    static_sub_routes: Vec<(String, RouteLevel)>,
    /// The wildcard child and its name, if any.
    wildcard_sub_route: Option<(String, Box<RouteLevel>)>,
}

/// The index of the route for `m`, searching from the end; `-1` if none.
pub closed spec fn method_index(rs: Seq<(HttpMethod, CompleteRouteHandler)>, m: HttpMethod) -> int
    decreases rs.len(),
{
    if rs.len() == 0 {
        -1
    } else if rs.last().0 == m {
        rs.len() - 1
    } else {
        method_index(rs.drop_last(), m)
    }
}

/// The index of the child named `n`, searching from the end; `-1` if none.
pub closed spec fn child_index(cs: Seq<(String, RouteLevel)>, n: Seq<char>) -> int
    decreases cs.len(),
{
    if cs.len() == 0 {
        -1
    } else if cs.last().0@ == n {
        cs.len() - 1
    } else {
        child_index(cs.drop_last(), n)
    }
}

/// The route registered at declared path `p` for method `m`, if any.
pub closed spec fn route_at(level: RouteLevel, p: Seq<SegView>, m: HttpMethod) -> Option<
    HandlerView,
>
    decreases p.len(),
{
    if p.len() == 0 {
        let k = method_index(level.self_routes@, m);
        if k >= 0 {
            Some(level.self_routes@[k].1@)
        } else {
            None
        }
    } else {
        match p[0] {
            SegView::Static(n) => {
                let c = child_index(level.static_sub_routes@, n);
                if c >= 0 {
                    route_at(level.static_sub_routes@[c].1, p.drop_first(), m)
                } else {
                    None
                }
            },
            SegView::Wildcard(n) => match level.wildcard_sub_route {
                Some((wn, child)) => if wn@ == n {
                    route_at(*child, p.drop_first(), m)
                } else {
                    None
                },
                None => None,
            },
        }
    }
}

/// Whether registering a route at `a` drops the route at `b`: after equal
/// segments, both have a wildcard at the same place, under different names.
pub open spec fn displaced(a: Seq<SegView>, b: Seq<SegView>) -> bool
    decreases a.len(),
{
    if a.len() == 0 || b.len() == 0 {
        false
    } else if a[0] == b[0] {
        displaced(a.drop_first(), b.drop_first())
    } else {
        a[0] is Wildcard && b[0] is Wildcard
    }
}

/// The outcome of a lookup.
pub enum Lookup {
    /// The matched path and the route.
    Found(Seq<MatchedSegView>, HandlerView),
    /// The path exists; these are the methods registered on it.
    MethodNotAllowed(Seq<HttpMethod>),
    /// No declared path matches.
    NotFound,
}

/// The methods registered at a level, in the order of registration.
pub closed spec fn methods_at(level: RouteLevel) -> Seq<HttpMethod> {
    level.self_routes@.map_values(|e: (HttpMethod, CompleteRouteHandler)| e.0)
}

/// The lookup of the literal path `names` for method `m`, starting at
/// `level` with `acc` matched so far. A literal child is preferred to the
/// wildcard child; there is no backtracking.
pub closed spec fn lookup(
    level: RouteLevel,
    m: HttpMethod,
    names: Seq<Seq<char>>,
    acc: Seq<MatchedSegView>,
) -> Lookup
    decreases names.len(),
{
    if names.len() == 0 {
        let k = method_index(level.self_routes@, m);
        if k >= 0 {
            Lookup::Found(acc, level.self_routes@[k].1@)
        } else {
            if methods_at(level).len() == 0 {
                Lookup::NotFound
            } else {
                Lookup::MethodNotAllowed(methods_at(level))
            }
        }
    } else {
        let n = names[0];
        let c = child_index(level.static_sub_routes@, n);
        if c >= 0 {
            lookup(
                level.static_sub_routes@[c].1,
                m,
                names.drop_first(),
                acc.push(MatchedSegView::Static(n)),
            )
        } else {
            match level.wildcard_sub_route {
                Some((wn, child)) => lookup(
                    *child,
                    m,
                    names.drop_first(),
                    acc.push(MatchedSegView::Wildcard(wn@, n)),
                ),
                None => Lookup::NotFound,
            }
        }
    }
}

/// The literal texts of a request path.
pub open spec fn request_names(p: Seq<SegView>) -> Seq<Seq<char>> {
    p.map_values(|s: SegView| seg_text(s))
}

/// Whether a lookup result is what `lookup` gives.
pub open spec fn lookup_result_is(
    r: Result<(RoutePathMatched, &CompleteRouteHandler), Error>,
    l: Lookup,
) -> bool {
    match l {
        Lookup::Found(mp, hv) => r matches Ok((p, h)) && p@ == mp && h@ == hv,
        Lookup::MethodNotAllowed(ms) => r matches Err(Error::MethodNotAllowed(v)) && v@ == ms,
        Lookup::NotFound => r matches Err(Error::NotFound),
    }
}

/// Finds the route for `m`, searching from the end.
fn find_method(rs: &Vec<(HttpMethod, CompleteRouteHandler)>, m: HttpMethod) -> (r: Option<usize>)
    ensures
        match r {
            Some(k) => k == method_index(rs@, m) && k < rs@.len(),
            None => method_index(rs@, m) == -1,
        },
{
    let mut i: usize = rs.len();
    assert(rs@.take(i as int) =~= rs@);
    while i > 0
        invariant
            i <= rs@.len(),
            method_index(rs@, m) == method_index(rs@.take(i as int), m),
        decreases i,
    {
        assert(rs@.take(i as int).drop_last() =~= rs@.take(i - 1));
        if rs[i - 1].0 == m {
            return Some(i - 1);
        }
        i = i - 1;
    }
    assert(rs@.take(0) =~= Seq::<(HttpMethod, CompleteRouteHandler)>::empty());
    None
}

/// Finds the child named `n`, searching from the end.
fn find_child(cs: &Vec<(String, RouteLevel)>, n: &String) -> (r: Option<usize>)
    ensures
        match r {
            Some(c) => c == child_index(cs@, n@) && c < cs@.len(),
            None => child_index(cs@, n@) == -1,
        },
{
    let mut i: usize = cs.len();
    assert(cs@.take(i as int) =~= cs@);
    while i > 0
        invariant
            i <= cs@.len(),
            child_index(cs@, n@) == child_index(cs@.take(i as int), n@),
        decreases i,
    {
        assert(cs@.take(i as int).drop_last() =~= cs@.take(i - 1));
        if cs[i - 1].0 == *n {
            return Some(i - 1);
        }
        i = i - 1;
    }
    assert(cs@.take(0) =~= Seq::<(String, RouteLevel)>::empty());
    None
}

/// The methods of a list of routes, in order.
fn methods_of(rs: &Vec<(HttpMethod, CompleteRouteHandler)>) -> (r: Vec<HttpMethod>)
    ensures
        r@ == rs@.map_values(|e: (HttpMethod, CompleteRouteHandler)| e.0),
{
    let mut r: Vec<HttpMethod> = Vec::new();
    let mut i: usize = 0;
    while i < rs.len()
        invariant
            i <= rs@.len(),
            r@ =~= rs@.take(i as int).map_values(|e: (HttpMethod, CompleteRouteHandler)| e.0),
        decreases rs@.len() - i,
    {
        r.push(rs[i].0);
        i = i + 1;
        assert(rs@.take(i as int) =~= rs@.take(i - 1).push(rs@[i - 1]));
    }
    assert(rs@.take(rs@.len() as int) =~= rs@);
    r
}

impl RouteLevel {
    /// Registers `handler` for `method` at the declared `path`, creating the
    /// levels on the way as needed. A route already there for `method` is
    /// replaced. A wildcard segment reuses the wildcard child of the same
    /// name; a wildcard child of another name is replaced, with every route
    /// beneath it.
    #[verifier::spinoff_prover]
    #[verifier::rlimit(80)]
    pub fn add(&mut self, method: HttpMethod, path: &RoutePath, handler: CompleteRouteHandler)
        ensures
            forall|p: Seq<SegView>, m: HttpMethod| #[trigger]
                route_at(*final(self), p, m) == after_add(
                    route_at(*old(self), p, m),
                    path@,
                    method,
                    handler@,
                    p,
                    m,
                ),
            children_inhabited(*old(self)) ==> children_inhabited(*final(self)),
            deep_inhabited(*old(self)) ==> deep_inhabited(*final(self)),
        decreases path@.len(),
    {
        let ghost hv = handler@;
        let ghost pv = path@;
        match path.split_first() {
            None => {
                let ghost rs = self.self_routes@;
                let ghost e = (method, handler);
                match find_method(&self.self_routes, method) {
                    Some(k) => {
                        proof {
                            lemma_method_index_found(rs, method);
                        }
                        self.self_routes[k] = (method, handler);
                    },
                    None => {
                        self.self_routes.push((method, handler));
                    },
                }
                proof {
                    assert forall|p: Seq<SegView>, m: HttpMethod| #[trigger]
                        route_at(*self, p, m) == after_add(
                            route_at(*old(self), p, m),
                            pv,
                            method,
                            hv,
                            p,
                            m,
                        ) by {
                        if p.len() == 0 {
                            assert(pv =~= p);
                            lemma_method_index_found(rs, m);
                            lemma_method_index_found(self.self_routes@, m);
                            if method_index(rs, method) >= 0 {
                                let k = method_index(rs, method);
                                assert(self.self_routes@ == rs.update(k, e));
                                lemma_method_index_same_keys(rs, k, e, m);
                            } else {
                                assert(self.self_routes@ == rs.push(e));
                                lemma_method_index_push(rs, e, m);
                            }
                        }
                    }
                    if deep_inhabited(*old(self)) {
                        lemma_deep_children(*old(self));
                        lemma_deep_from_children(*self);
                    }
                }
            },
            Some((first, rest)) => {
                proof {
                    assert(pv.len() > 0);
                }
                match first {
                    RoutePathSegment::Static(name) => {
                        let ghost cs = self.static_sub_routes@;
                        match find_child(&self.static_sub_routes, &name) {
                            Some(c) => {
                                proof {
                                    lemma_child_index_found(cs, name@);
                                }
                                let ghost old_child = self.static_sub_routes@[c as int].1;
                                proof {
                                    if deep_inhabited(*old(self)) {
                                        lemma_deep_children(*old(self));
                                        assert(child_index(cs, name@) == c);
                                    }
                                }
                                self.static_sub_routes[c].1.add(method, &rest, handler);
                                proof {
                                    let cs2 = self.static_sub_routes@;
                                    let new_child = cs2[c as int].1;
                                    assert(cs2 == cs.update(c as int, cs2[c as int]));
                                    assert(route_at(new_child, rest@, method) == after_add(
                                        route_at(old_child, rest@, method),
                                        rest@,
                                        method,
                                        hv,
                                        rest@,
                                        method,
                                    ));
                                    assert(inhabited(new_child));
                                    if children_inhabited(*old(self)) {
                                        assert forall|c2: int|
                                            0 <= c2 < cs2.len() implies inhabited(
                                                #[trigger] cs2[c2].1,
                                            ) by {
                                            if c2 != c {
                                                assert(cs2[c2] == cs[c2]);
                                            }
                                        }
                                    }
                                    if deep_inhabited(*old(self)) {
                                        assert forall|n2: Seq<char>|
                                            #[trigger] child_index(cs2, n2) >= 0 implies deep_inhabited(
                                                cs2[child_index(cs2, n2)].1,
                                            ) by {
                                            lemma_child_index_same_names(cs, c as int, cs2[c as int], n2);
                                            lemma_child_index_found(cs, n2);
                                            if child_index(cs, n2) != c {
                                                assert(cs2[child_index(cs, n2)] == cs[child_index(cs, n2)]);
                                            }
                                        }
                                        lemma_deep_from_children(*self);
                                    }
                                    assert forall|p: Seq<SegView>, m: HttpMethod| #[trigger]
                                        route_at(*self, p, m) == after_add(
                                            route_at(*old(self), p, m),
                                            pv,
                                            method,
                                            hv,
                                            p,
                                            m,
                                        ) by {
                                        if p.len() > 0 {
                                            if let SegView::Static(n2) = p[0] {
                                                lemma_child_index_same_names(
                                                    cs,
                                                    c as int,
                                                    cs2[c as int],
                                                    n2,
                                                );
                                                lemma_child_index_found(cs, n2);
                                                if child_index(cs, n2) == c {
                                                    assert(route_at(new_child, p.drop_first(), m)
                                                        == after_add(
                                                        route_at(old_child, p.drop_first(), m),
                                                        rest@,
                                                        method,
                                                        hv,
                                                        p.drop_first(),
                                                        m,
                                                    ));
                                                    if p.drop_first() == rest@ {
                                                        lemma_cons_eq(p, pv);
                                                    }
                                                }
                                            }
                                        }
                                    }
                                }
                            },
                            None => {
                                let mut child = RouteLevel::new();
                                let ghost empty_child = child;
                                child.add(method, &rest, handler);
                                let ghost x = (name, child);
                                proof {
                                    assert(route_at(child, rest@, method) == after_add(
                                        route_at(empty_child, rest@, method),
                                        rest@,
                                        method,
                                        hv,
                                        rest@,
                                        method,
                                    ));
                                    assert(inhabited(child));
                                }
                                self.static_sub_routes.push((name, child));
                                proof {
                                    assert(self.static_sub_routes@ == cs.push(x));
                                    if children_inhabited(*old(self)) {
                                        assert forall|c2: int|
                                            0 <= c2 < cs.len() + 1 implies inhabited(
                                                #[trigger] self.static_sub_routes@[c2].1,
                                            ) by {
                                            if c2 < cs.len() {
                                                assert(self.static_sub_routes@[c2] == cs[c2]);
                                            }
                                        }
                                    }
                                    if deep_inhabited(*old(self)) {
                                        lemma_deep_children(*old(self));
                                        let cs2 = self.static_sub_routes@;
                                        assert forall|n2: Seq<char>|
                                            #[trigger] child_index(cs2, n2) >= 0 implies deep_inhabited(
                                                cs2[child_index(cs2, n2)].1,
                                            ) by {
                                            lemma_child_index_push(cs, x, n2);
                                            lemma_child_index_found(cs, n2);
                                            if x.0@ != n2 {
                                                assert(cs2[child_index(cs, n2)] == cs[child_index(cs, n2)]);
                                            }
                                        }
                                        lemma_deep_from_children(*self);
                                    }
                                    assert forall|p: Seq<SegView>, m: HttpMethod| #[trigger]
                                        route_at(*self, p, m) == after_add(
                                            route_at(*old(self), p, m),
                                            pv,
                                            method,
                                            hv,
                                            p,
                                            m,
                                        ) by {
                                        if p.len() > 0 {
                                            if let SegView::Static(n2) = p[0] {
                                                lemma_child_index_push(cs, x, n2);
                                                lemma_child_index_found(cs, n2);
                                                if x.0@ == n2 {
                                                    assert(pv[0] == p[0]);
                                                    assert(route_at(*old(self), p, m) is None);
                                                    assert(route_at(child, p.drop_first(), m)
                                                        == after_add(
                                                        route_at(empty_child, p.drop_first(), m),
                                                        rest@,
                                                        method,
                                                        hv,
                                                        p.drop_first(),
                                                        m,
                                                    ));
                                                    if p.drop_first() == rest@ {
                                                        lemma_cons_eq(p, pv);
                                                    }
                                                }
                                            }
                                        }
                                    }
                                }
                            },
                        }
                    },
                    RoutePathSegment::Wildcard(name) => {
                        let same = match &self.wildcard_sub_route {
                            Some((wn, _)) => *wn == name,
                            None => false,
                        };
                        if same {
                            let ghost old_child = *self.wildcard_sub_route->Some_0.1;
                            proof {
                                if deep_inhabited(*old(self)) {
                                    lemma_deep_children(*old(self));
                                }
                            }
                            match &mut self.wildcard_sub_route {
                                Some((_, child)) => {
                                    child.add(method, &rest, handler);
                                },
                                None => {},
                            }
                            proof {
                                let new_child = *self.wildcard_sub_route->Some_0.1;
                                assert(route_at(new_child, rest@, method) == after_add(
                                    route_at(old_child, rest@, method),
                                    rest@,
                                    method,
                                    hv,
                                    rest@,
                                    method,
                                ));
                                assert(inhabited(new_child));
                                if deep_inhabited(*old(self)) {
                                    lemma_deep_from_children(*self);
                                }
                                assert forall|p: Seq<SegView>, m: HttpMethod| #[trigger]
                                    route_at(*self, p, m) == after_add(
                                        route_at(*old(self), p, m),
                                        pv,
                                        method,
                                        hv,
                                        p,
                                        m,
                                    ) by {
                                    if p.len() > 0 {
                                        if let SegView::Wildcard(n2) = p[0] {
                                            if n2 == name@ {
                                                assert(route_at(new_child, p.drop_first(), m)
                                                    == after_add(
                                                    route_at(old_child, p.drop_first(), m),
                                                    rest@,
                                                    method,
                                                    hv,
                                                    p.drop_first(),
                                                    m,
                                                ));
                                                if p.drop_first() == rest@ {
                                                    lemma_cons_eq(p, pv);
                                                }
                                            }
                                        }
                                    }
                                }
                            }
                        } else {
                            let mut child = RouteLevel::new();
                            let ghost empty_child = child;
                            child.add(method, &rest, handler);
                            let ghost new_child = child;
                            proof {
                                assert(route_at(new_child, rest@, method) == after_add(
                                    route_at(empty_child, rest@, method),
                                    rest@,
                                    method,
                                    hv,
                                    rest@,
                                    method,
                                ));
                                assert(inhabited(new_child));
                            }
                            self.wildcard_sub_route = Some((name, Box::new(child)));
                            proof {
                                if deep_inhabited(*old(self)) {
                                    lemma_deep_children(*old(self));
                                    lemma_deep_from_children(*self);
                                }
                                assert forall|p: Seq<SegView>, m: HttpMethod| #[trigger]
                                    route_at(*self, p, m) == after_add(
                                        route_at(*old(self), p, m),
                                        pv,
                                        method,
                                        hv,
                                        p,
                                        m,
                                    ) by {
                                    if p.len() > 0 {
                                        if let SegView::Wildcard(n2) = p[0] {
                                            if n2 == name@ {
                                                assert(route_at(new_child, p.drop_first(), m)
                                                    == after_add(
                                                    route_at(empty_child, p.drop_first(), m),
                                                    rest@,
                                                    method,
                                                    hv,
                                                    p.drop_first(),
                                                    m,
                                                ));
                                                if p.drop_first() == rest@ {
                                                    lemma_cons_eq(p, pv);
                                                }
                                            }
                                        }
                                    }
                                }
                            }
                        }
                    },
                }
            },
        }
    }

    /// Appends to `out` every route of this level and beneath, each with
    /// `prefix` before its declared path. Routes that a later registration
    /// shadows are left out.
    #[verifier::spinoff_prover]
    #[verifier::rlimit(80)]
    fn flatten_into(&self, prefix: &RoutePath, out: &mut Vec<FlatRoute>)
        ensures
            final(out)@.len() >= old(out)@.len(),
            final(out)@.take(old(out)@.len() as int) == old(out)@,
            entries_sound(*self, prefix@, final(out)@, old(out)@.len() as int),
            forall|p: Seq<SegView>, m: HttpMethod|
                #[trigger] route_at(*self, p, m) is Some ==> has_entry(
                    final(out)@,
                    old(out)@.len() as int,
                    prefix@ + p,
                    m,
                ),
            keys_distinct(final(out)@, old(out)@.len() as int),
        decreases *self,
    {
        let ghost start = out@.len() as int;
        let ghost orig = out@;
        let ghost pre = prefix@;
        let ghost rs = self.self_routes@;
        let ghost cs = self.static_sub_routes@;
        assert(out@.take(start) =~= orig);
        let mut k: usize = 0;
        while k < self.self_routes.len()
            invariant
                k <= rs.len(),
                rs == self.self_routes@,
                pre == prefix@,
                out@.len() >= start,
                out@.take(start) == orig,
                start == orig.len(),
                entries_sound(*self, pre, out@, start),
                forall|m: HttpMethod|
                    0 <= #[trigger] method_index(rs, m) < k ==> has_entry(out@, start, pre + Seq::empty(), m),
                keys_distinct(out@, start),
                forall|j: int|
                    start <= j < out@.len() ==> (#[trigger] out@[j]).1@ == pre && 0 <= method_index(
                        rs,
                        out@[j].0,
                    ) < k,
            decreases rs.len() - k,
        {
            let m = self.self_routes[k].0;
            match find_method(&self.self_routes, m) {
                Some(k2) => {
                    if k2 == k {
                        let ghost before = out@;
                        out.push((m, prefix.duplicate(), self.self_routes[k].1.duplicate()));
                        proof {
                            let e = out@.last();
                            assert(e.1@.take(pre.len() as int) =~= pre);
                            assert(e.1@.skip(pre.len() as int) =~= Seq::<SegView>::empty());
                            assert(out@.take(before.len() as int) =~= before);
                            assert(out@.take(start) =~= orig);
                            assert(pre + Seq::<SegView>::empty() =~= pre);
                            assert forall|m2: HttpMethod|
                                0 <= #[trigger] method_index(rs, m2) < k + 1 implies has_entry(
                                    out@,
                                    start,
                                    pre + Seq::empty(),
                                    m2,
                                ) by {
                                if method_index(rs, m2) < k {
                                    lemma_has_entry_grow(before, out@, start, pre + Seq::empty(), m2);
                                } else {
                                    lemma_method_index_found(rs, m2);
                                    assert(out@[out@.len() - 1] == e);
                                }
                            }
                            assert(e.1@ =~= pre);
                            assert forall|j: int|
                                start <= j < out@.len() implies (#[trigger] out@[j]).1@ == pre && 0 <= method_index(
                                    rs,
                                    out@[j].0,
                                ) < k + 1 by {
                                if j < before.len() {
                                    assert(out@[j] == before[j]);
                                }
                            }
                            assert forall|i: int, j: int|
                                start <= i < j < out@.len() implies (#[trigger] out@[i]).0 != (#[trigger] out@[j]).0
                                    || out@[i].1@ != out@[j].1@ by {
                                assert(out@[i] == before[i]);
                                if j < before.len() {
                                    assert(out@[j] == before[j]);
                                } else {
                                    assert(method_index(rs, out@[i].0) < k);
                                }
                            }
                        }
                    } else {
                        proof {
                            assert forall|m2: HttpMethod|
                                0 <= #[trigger] method_index(rs, m2) < k + 1 implies has_entry(
                                    out@,
                                    start,
                                    pre + Seq::empty(),
                                    m2,
                                ) by {
                                lemma_method_index_found(rs, m2);
                            }
                        }
                    }
                },
                None => {
                    proof {
                        lemma_method_index_at_least(rs, k as int, m);
                    }
                },
            }
            k = k + 1;
        }
        proof {
            assert forall|m: HttpMethod|
                0 <= #[trigger] method_index(rs, m) implies has_entry(out@, start, pre + Seq::empty(), m) by {
                lemma_method_index_found(rs, m);
            }
        }
        let mut c: usize = 0;
        while c < self.static_sub_routes.len()
            invariant
                c <= cs.len(),
                cs == self.static_sub_routes@,
                rs == self.self_routes@,
                pre == prefix@,
                out@.len() >= start,
                out@.take(start) == orig,
                start == orig.len(),
                entries_sound(*self, pre, out@, start),
                forall|m: HttpMethod|
                    0 <= #[trigger] method_index(rs, m) ==> has_entry(out@, start, pre + Seq::empty(), m),
                forall|n: Seq<char>, q: Seq<SegView>, m: HttpMethod|
                    0 <= child_index(cs, n) < c && #[trigger] route_at(cs[child_index(cs, n)].1, q, m) is Some
                        ==> has_entry(out@, start, pre + (seq![SegView::Static(n)] + q), m),
                keys_distinct(out@, start),
                forall|j: int|
                    start <= j < out@.len() ==> (#[trigger] out@[j]).1@ == pre || through_earlier_child(
                        out@[j].1@,
                        pre.len() as int,
                        cs,
                        c as int,
                    ),
            decreases cs.len() - c,
        {
            match find_child(&self.static_sub_routes, &self.static_sub_routes[c].0) {
                Some(c2) => {
                    if c2 == c {
                        let name = &self.static_sub_routes[c].0;
                        let child = &self.static_sub_routes[c].1;
                        let seg = RoutePathSegment::Static(name.clone());
                        let sub = prefix.join_segment(seg);
                        let ghost before = out@;
                        assert(decreases_to!(*self => self.static_sub_routes));
                        assert(decreases_to!(self.static_sub_routes => self.static_sub_routes@));
                        assert(decreases_to!(self.static_sub_routes@ => self.static_sub_routes@[c as int]));
                        child.flatten_into(&sub, out);
                        proof {
                            let sv = SegView::Static(name@);
                            assert forall|q: Seq<SegView>, m: HttpMethod|
                                route_at(*self, seq![sv] + q, m) == route_at(*child, q, m) by {
                                assert((seq![sv] + q)[0] == sv);
                                assert((seq![sv] + q).drop_first() =~= q);
                            }
                            lemma_sound_child(*self, *child, sv, pre, out@, before.len() as int);
                            lemma_sound_grow(*self, pre, before, out@, start, before.len() as int);
                            assert(out@.take(start) =~= out@.take(before.len() as int).take(start));
                            assert forall|m2: HttpMethod|
                                0 <= #[trigger] method_index(rs, m2) implies has_entry(out@, start, pre + Seq::empty(), m2) by {
                                lemma_has_entry_grow(before, out@, start, pre + Seq::empty(), m2);
                            }
                            assert forall|n: Seq<char>, q: Seq<SegView>, m: HttpMethod|
                                0 <= child_index(cs, n) < c + 1 && #[trigger] route_at(cs[child_index(cs, n)].1, q, m) is Some
                                    implies has_entry(out@, start, pre + (seq![SegView::Static(n)] + q), m) by {
                                lemma_child_index_found(cs, n);
                                if child_index(cs, n) < c {
                                    lemma_has_entry_grow(before, out@, start, pre + (seq![SegView::Static(n)] + q), m);
                                } else {
                                    assert(cs[child_index(cs, n)].1 == *child);
                                    assert(route_at(*child, q, m) is Some);
                                    assert(sub@ + q =~= pre + (seq![SegView::Static(n)] + q));
                                    let j = choose|j: int| before.len() <= j < out@.len() && (#[trigger] out@[j]).1@ == sub@ + q && out@[j].0 == m;
                                    assert(start <= j);
                                }
                            }
                            let pl = pre.len() as int;
                            assert forall|j: int| before.len() <= j < out@.len() implies (#[trigger] out@[j]).1@.len() > pl
                                && out@[j].1@[pl] == sv by {
                                assert(out@[j].1@.take(sub@.len() as int) == sub@);
                                assert(out@[j].1@[pl] == out@[j].1@.take(sub@.len() as int)[pl]);
                            }
                            lemma_child_index_found(cs, name@);
                            assert forall|j: int|
                                start <= j < out@.len() implies (#[trigger] out@[j]).1@ == pre || through_earlier_child(
                                    out@[j].1@,
                                    pl,
                                    cs,
                                    c + 1,
                                ) by {
                                if j < before.len() {
                                    assert(out@[j] == before[j]);
                                } else {
                                    assert(out@[j].1@[pl] == sv);
                                }
                            }
                            assert forall|i: int, j: int|
                                start <= i < before.len() <= j < out@.len() implies (#[trigger] out@[i]).1@ != (
                                #[trigger] out@[j]).1@ by {
                                assert(out@[i] == before[i]);
                                assert(out@[j].1@[pl] == sv);
                                if out@[i].1@ == out@[j].1@ {
                                    assert(out@[i].1@.len() > pl);
                                    assert(through_earlier_child(out@[i].1@, pl, cs, c as int));
                                }
                            }
                            lemma_distinct_append(before, out@, start);
                        }
                    } else {
                        proof {
                            lemma_child_index_found(cs, cs[c as int].0@);
                            assert forall|n: Seq<char>, q: Seq<SegView>, m: HttpMethod|
                                0 <= child_index(cs, n) < c + 1 && #[trigger] route_at(cs[child_index(cs, n)].1, q, m) is Some
                                    implies has_entry(out@, start, pre + (seq![SegView::Static(n)] + q), m) by {
                                lemma_child_index_found(cs, n);
                            }
                        }
                    }
                },
                None => {
                    proof {
                        lemma_child_index_at_least(cs, c as int, cs[c as int].0@);
                    }
                },
            }
            c = c + 1;
        }
        match &self.wildcard_sub_route {
            Some((name, child)) => {
                let seg = RoutePathSegment::Wildcard(name.clone());
                let sub = prefix.join_segment(seg);
                let ghost before = out@;
                child.flatten_into(&sub, out);
                proof {
                    let sv = SegView::Wildcard(name@);
                    assert forall|q: Seq<SegView>, m: HttpMethod|
                        route_at(*self, seq![sv] + q, m) == route_at(**child, q, m) by {
                        assert((seq![sv] + q)[0] == sv);
                        assert((seq![sv] + q).drop_first() =~= q);
                    }
                    lemma_sound_child(*self, **child, sv, pre, out@, before.len() as int);
                    lemma_sound_grow(*self, pre, before, out@, start, before.len() as int);
                    let pl = pre.len() as int;
                    assert forall|j: int| before.len() <= j < out@.len() implies (#[trigger] out@[j]).1@.len() > pl
                        && out@[j].1@[pl] == sv by {
                        assert(out@[j].1@.take(sub@.len() as int) == sub@);
                        assert(out@[j].1@[pl] == out@[j].1@.take(sub@.len() as int)[pl]);
                    }
                    assert forall|i: int, j: int|
                        start <= i < before.len() <= j < out@.len() implies (#[trigger] out@[i]).1@ != (
                        #[trigger] out@[j]).1@ by {
                        assert(out@[i] == before[i]);
                        assert(out@[j].1@[pl] == sv);
                        if out@[i].1@ == out@[j].1@ {
                            assert(out@[i].1@.len() > pl);
                            assert(through_earlier_child(out@[i].1@, pl, cs, cs.len() as int));
                        }
                    }
                    lemma_distinct_append(before, out@, start);
                    assert(out@.take(start) =~= out@.take(before.len() as int).take(start));
                    assert forall|p: Seq<SegView>, m: HttpMethod|
                        #[trigger] route_at(*self, p, m) is Some implies has_entry(out@, start, pre + p, m) by {
                        if p.len() == 0 {
                            assert(p =~= Seq::<SegView>::empty());
                            lemma_has_entry_grow(before, out@, start, pre + Seq::empty(), m);
                        } else {
                            assert(p =~= seq![p[0]] + p.drop_first());
                            match p[0] {
                                SegView::Static(n) => {
                                    lemma_child_index_found(cs, n);
                                    assert(route_at(cs[child_index(cs, n)].1, p.drop_first(), m) is Some);
                                    lemma_has_entry_grow(before, out@, start, pre + (seq![SegView::Static(n)] + p.drop_first()), m);
                                },
                                SegView::Wildcard(n) => {
                                    assert(route_at(**child, p.drop_first(), m) is Some);
                                    assert(sub@ + p.drop_first() =~= pre + p);
                                    let j = choose|j: int| before.len() <= j < out@.len() && (#[trigger] out@[j]).1@ == sub@ + p.drop_first() && out@[j].0 == m;
                                    assert(start <= j);
                                },
                            }
                        }
                    }
                }
            },
            None => {
                proof {
                    assert forall|p: Seq<SegView>, m: HttpMethod|
                        #[trigger] route_at(*self, p, m) is Some implies has_entry(out@, start, pre + p, m) by {
                        if p.len() == 0 {
                            assert(p =~= Seq::<SegView>::empty());
                        } else {
                            assert(p =~= seq![p[0]] + p.drop_first());
                            match p[0] {
                                SegView::Static(n) => {
                                    lemma_child_index_found(cs, n);
                                    assert(route_at(cs[child_index(cs, n)].1, p.drop_first(), m) is Some);
                                },
                                SegView::Wildcard(n) => {},
                            }
                        }
                    }
                }
            },
        }
    }

    /// Every route of the trie, each with its full declared path. Each
    /// method and path comes once; routes that a later registration shadows
    /// are left out.
    pub fn flatten(&self) -> (r: Vec<FlatRoute>)
        ensures
            entries_sound(*self, Seq::empty(), r@, 0),
            forall|p: Seq<SegView>, m: HttpMethod|
                #[trigger] route_at(*self, p, m) is Some ==> has_entry(r@, 0, p, m),
            keys_distinct(r@, 0),
    {
        let mut out: Vec<FlatRoute> = Vec::new();
        let prefix = RoutePath::new();
        self.flatten_into(&prefix, &mut out);
        proof {
            assert forall|p: Seq<SegView>, m: HttpMethod|
                #[trigger] route_at(*self, p, m) is Some implies has_entry(out@, 0, p, m) by {
                assert(Seq::<SegView>::empty() + p =~= p);
            }
        }
        out
    }

    /// Registers every route of `routes` beneath `subpath`, with
    /// `middleware` installed outside each route's own middleware. A route
    /// already here is kept unless one of the new routes replaces or
    /// displaces it.
    #[verifier::spinoff_prover]
    #[verifier::rlimit(80)]
    pub fn add_level(&mut self, subpath: &RoutePath, routes: &RouteLevel, middleware: &[Middleware])
        ensures
            forall|p: Seq<SegView>, m: HttpMethod| #[trigger]
                route_at(*final(self), p, m) == merged_route(
                    route_at(*old(self), p, m),
                    *routes,
                    subpath@,
                    middleware@,
                    p,
                    m,
                ),
            children_inhabited(*old(self)) ==> children_inhabited(*final(self)),
            deep_inhabited(*old(self)) ==> deep_inhabited(*final(self)),
    {
        let entries = routes.flatten();
        let ghost sub = subpath@;
        let ghost ms = middleware@;
        let mut i: usize = 0;
        while i < entries.len()
            invariant
                i <= entries@.len(),
                sub == subpath@,
                ms == middleware@,
                entries_sound(*routes, Seq::empty(), entries@, 0),
                children_inhabited(*old(self)) ==> children_inhabited(*self),
                deep_inhabited(*old(self)) ==> deep_inhabited(*self),
                forall|j: int|
                    0 <= j < i ==> route_at(*self, sub + (#[trigger] entries@[j]).1@, entries@[j].0)
                        == Some((ms + entries@[j].2@.0, entries@[j].2@.1)),
                forall|p: Seq<SegView>, m: HttpMethod|
                    #[trigger] route_at(*self, p, m) is Some ==> (route_at(*old(self), p, m)
                        == route_at(*self, p, m) || shifted_hv(*routes, sub, ms, p, m) == route_at(
                        *self,
                        p,
                        m,
                    )),
                forall|p: Seq<SegView>, m: HttpMethod|
                    !touched(entries@, i as int, sub, p, m) ==> #[trigger] route_at(*self, p, m)
                        == route_at(*old(self), p, m),
                forall|p: Seq<SegView>, m: HttpMethod|
                    displaced_by_entries(entries@, i as int, sub, p) && shifted_hv(
                        *routes,
                        sub,
                        ms,
                        p,
                        m,
                    ) is None ==> #[trigger] route_at(*self, p, m) is None,
            decreases entries@.len() - i,
        {
            let ghost prev = *self;
            let m = entries[i].0;
            let mut h = entries[i].2.duplicate();
            h.add_middleware(middleware);
            let full = subpath.join(&entries[i].1);
            let ghost pi = entries@[i as int].1@;
            let ghost hvi = entries@[i as int].2@;
            proof {
                assert(entries@[i as int].1@.skip(0) =~= pi);
            }
            self.add(m, &full, h);
            proof {
                assert forall|j: int|
                    0 <= j < i + 1 implies route_at(*self, sub + (#[trigger] entries@[j]).1@, entries@[j].0)
                        == Some((ms + entries@[j].2@.0, entries@[j].2@.1)) by {
                    let pj = entries@[j].1@;
                    assert(pj.skip(0) =~= pj);
                    if j < i {
                        assert(route_at(prev, sub + pj, entries@[j].0) == Some(
                            (ms + entries@[j].2@.0, entries@[j].2@.1),
                        ));
                        lemma_routes_coexist(*routes, pi, m, pj, entries@[j].0);
                        lemma_displaced_after_prefix(sub, pi, pj);
                        if sub + pj == sub + pi {
                            assert(pj =~= (sub + pj).skip(sub.len() as int));
                            assert(pi =~= (sub + pi).skip(sub.len() as int));
                        }
                    }
                }
                assert forall|p: Seq<SegView>, m2: HttpMethod|
                    #[trigger] route_at(*self, p, m2) is Some implies (route_at(*old(self), p, m2)
                        == route_at(*self, p, m2) || shifted_hv(*routes, sub, ms, p, m2)
                        == route_at(*self, p, m2)) by {
                    assert(route_at(*self, p, m2) == after_add(
                        route_at(prev, p, m2),
                        sub + pi,
                        m,
                        (ms + hvi.0, hvi.1),
                        p,
                        m2,
                    ));
                    if p == sub + pi && m2 == m {
                        assert(p.take(sub.len() as int) =~= sub);
                        assert(p.skip(sub.len() as int) =~= pi);
                    }
                }
                assert forall|p: Seq<SegView>, m2: HttpMethod|
                    !touched(entries@, i + 1, sub, p, m2) implies #[trigger] route_at(*self, p, m2)
                        == route_at(*old(self), p, m2) by {
                    assert(!touched(entries@, i as int, sub, p, m2)) by {
                        if touched(entries@, i as int, sub, p, m2) {
                            let j = choose|j: int|
                                0 <= j < i && touched_by(#[trigger] entries@[j], sub, p, m2);
                            assert(touched_by(entries@[j], sub, p, m2));
                        }
                    }
                    assert(!touched_by(entries@[i as int], sub, p, m2));
                }
                assert forall|p: Seq<SegView>, m2: HttpMethod|
                    displaced_by_entries(entries@, i + 1, sub, p) && shifted_hv(
                        *routes,
                        sub,
                        ms,
                        p,
                        m2,
                    ) is None implies #[trigger] route_at(*self, p, m2) is None by {
                    if p == sub + pi && m2 == m {
                        assert(p.take(sub.len() as int) =~= sub);
                        assert(p.skip(sub.len() as int) =~= pi);
                    }
                    if !displaced(sub + pi, p) {
                        let j = choose|j: int|
                            0 <= j < i + 1 && displaced(sub + (#[trigger] entries@[j]).1@, p);
                        assert(j < i);
                        assert(displaced_by_entries(entries@, i as int, sub, p));
                    }
                }
            }
            i = i + 1;
        }
        proof {
            assert forall|p: Seq<SegView>, m: HttpMethod| #[trigger]
                route_at(*self, p, m) == merged_route(
                    route_at(*old(self), p, m),
                    *routes,
                    sub,
                    ms,
                    p,
                    m,
                ) by {
                if shifted_hv(*routes, sub, ms, p, m) is Some {
                    let q = p.skip(sub.len() as int);
                    assert(route_at(*routes, q, m) is Some);
                    let j = choose|j: int|
                        0 <= j < entries@.len() && (#[trigger] entries@[j]).1@ == q && entries@[j].0 == m;
                    assert(q.skip(0) =~= q);
                    assert(sub + q =~= p) by {
                        assert(p =~= p.take(sub.len() as int) + p.skip(sub.len() as int));
                    }
                } else if displaced_by_level(*routes, sub, p) {
                    let (q, m2) = choose|q: Seq<SegView>, m2: HttpMethod|
                        #[trigger] route_at(*routes, q, m2) is Some && displaced(sub + q, p);
                    let j = choose|j: int|
                        0 <= j < entries@.len() && (#[trigger] entries@[j]).1@ == q && entries@[j].0 == m2;
                    assert(displaced(sub + entries@[j].1@, p));
                    assert(displaced_by_entries(entries@, entries@.len() as int, sub, p));
                } else {
                    assert(!touched(entries@, entries@.len() as int, sub, p, m)) by {
                        if touched(entries@, entries@.len() as int, sub, p, m) {
                            let j = choose|j: int|
                                0 <= j < entries@.len() && touched_by(
                                    #[trigger] entries@[j],
                                    sub,
                                    p,
                                    m,
                                );
                            let pj = entries@[j].1@;
                            assert(pj.skip(0) =~= pj);
                            assert(route_at(*routes, pj, entries@[j].0) is Some);
                            if sub + pj == p && entries@[j].0 == m {
                                assert(p.take(sub.len() as int) =~= sub);
                                assert(p.skip(sub.len() as int) =~= pj);
                            } else {
                                assert(displaced(sub + pj, p));
                            }
                        }
                    }
                }
            }
        }
    }

    /// An empty level: no routes and no children.
    pub fn new() -> (r: Self)
        ensures
            forall|p: Seq<SegView>, m: HttpMethod| route_at(r, p, m) is None,
            children_inhabited(r),
            deep_inhabited(r),
    {
        let r = RouteLevel {
            self_routes: Vec::new(),
            static_sub_routes: Vec::new(),
            wildcard_sub_route: None,
        };
        assert forall|p: Seq<SegView>, m: HttpMethod| route_at(r, p, m) is None by {
            lemma_empty_level(r, p, m);
        }
        proof {
            lemma_deep_empty(r);
        }
        r
    }

    /// Resolves `method` and the literal request `path`. Each segment is
    /// taken as the text it is written with (a segment written `{x}` is the
    /// text `{x}`); a literal child is preferred to the wildcard child.
    /// Reports `MethodNotAllowed` with the methods registered where the walk
    /// ends if `method` is not among them, and `NotFound` where the walk
    /// cannot go on or ends at a level without routes.
    pub fn get(&self, method: HttpMethod, path: &RoutePath) -> (r: Result<
        (RoutePathMatched, &CompleteRouteHandler),
        Error,
    >)
        ensures
            lookup_result_is(r, lookup(*self, method, request_names(path@), Seq::empty())),
    {
        let segs = path.segments();
        let ghost names = request_names(path@);
        let mut level: &RouteLevel = self;
        let mut matched = RoutePathMatched::new();
        let mut i: usize = 0;
        assert(names.skip(0) =~= names);
        while i < segs.len()
            invariant
                i <= segs@.len(),
                names == request_names(path@),
                segs@.len() == names.len(),
                forall|j: int| 0 <= j < names.len() ==> #[trigger] names[j] == seg_text(segs@[j]@),
                lookup(*self, method, names, Seq::empty()) == lookup(
                    *level,
                    method,
                    names.skip(i as int),
                    matched@,
                ),
            decreases segs@.len() - i,
        {
            let text = segs[i].to_segment_string();
            let name = &text;
            assert(name@ == names[i as int]);
            assert(names.skip(i as int)[0] == names[i as int]);
            assert(names.skip(i as int).drop_first() =~= names.skip(i + 1));
            match find_child(&level.static_sub_routes, name) {
                Some(c) => {
                    matched.push_segment(RoutePathMatchedSegment::Static(name.clone()));
                    level = &level.static_sub_routes[c].1;
                },
                None => {
                    match &level.wildcard_sub_route {
                        Some((wn, child)) => {
                            matched.push_segment(
                                RoutePathMatchedSegment::Wildcard(wn.clone(), name.clone()),
                            );
                            level = &**child;
                        },
                        None => {
                            assert(lookup(*level, method, names.skip(i as int), matched@)
                                == Lookup::NotFound);
                            let r = Err(Error::NotFound);
                            return r;
                        },
                    }
                },
            }
            i = i + 1;
        }
        assert(names.skip(i as int) =~= Seq::<Seq<char>>::empty());
        match find_method(&level.self_routes, method) {
            Some(k) => Ok((matched, &level.self_routes[k].1)),
            None => {
                if level.self_routes.len() == 0 {
                    Err(Error::NotFound)
                } else {
                    Err(Error::MethodNotAllowed(methods_of(&level.self_routes)))
                }
            },
        }
    }
}

/// Whether some route is registered at or beneath a level.
pub open spec fn inhabited(level: RouteLevel) -> bool {
    exists|q: Seq<SegView>, m: HttpMethod| #[trigger] route_at(level, q, m) is Some
}

/// Whether every child of a level, literal or wildcard, holds a route.
pub closed spec fn children_inhabited(level: RouteLevel) -> bool {
    &&& forall|c: int|
        0 <= c < level.static_sub_routes@.len() ==> inhabited(
            #[trigger] level.static_sub_routes@[c].1,
        )
    &&& level.wildcard_sub_route matches Some((_, child)) ==> inhabited(*child)
}

/// The level reached from `level` by following the declared path `q`, if
/// any.
pub closed spec fn node_at(level: RouteLevel, q: Seq<SegView>) -> Option<RouteLevel>
    decreases q.len(),
{
    if q.len() == 0 {
        Some(level)
    } else {
        match q[0] {
            SegView::Static(n) => {
                let c = child_index(level.static_sub_routes@, n);
                if c >= 0 {
                    node_at(level.static_sub_routes@[c].1, q.drop_first())
                } else {
                    None
                }
            },
            SegView::Wildcard(n) => match level.wildcard_sub_route {
                Some((wn, child)) => if wn@ == n {
                    node_at(*child, q.drop_first())
                } else {
                    None
                },
                None => None,
            },
        }
    }
}

/// Whether every child of every level of the trie holds a route.
pub closed spec fn deep_inhabited(level: RouteLevel) -> bool {
    forall|q: Seq<SegView>| #[trigger] node_at(level, q) is Some ==> children_inhabited(node_at(level, q)->0)
}

proof fn lemma_deep_child(level: RouteLevel, seg: SegView, child: RouteLevel)
    requires
        deep_inhabited(level),
        forall|q: Seq<SegView>| #[trigger] node_at(child, q) == node_at(level, seq![seg] + q),
    ensures
        deep_inhabited(child),
{
    assert forall|q: Seq<SegView>| #[trigger] node_at(child, q) is Some implies children_inhabited(node_at(child, q)->0) by {
        assert(node_at(level, seq![seg] + q) == node_at(child, q));
    }
}

proof fn lemma_node_at_step(level: RouteLevel, seg: SegView, q: Seq<SegView>)
    ensures
        node_at(level, seq![seg] + q) == (match seg {
            SegView::Static(n) => {
                let c = child_index(level.static_sub_routes@, n);
                if c >= 0 {
                    node_at(level.static_sub_routes@[c].1, q)
                } else {
                    None
                }
            },
            SegView::Wildcard(n) => match level.wildcard_sub_route {
                Some((wn, child)) => if wn@ == n {
                    node_at(*child, q)
                } else {
                    None
                },
                None => None,
            },
        }),
{
    assert((seq![seg] + q)[0] == seg);
    assert((seq![seg] + q).drop_first() =~= q);
}

proof fn lemma_deep_children(level: RouteLevel)
    requires
        deep_inhabited(level),
    ensures
        children_inhabited(level),
        forall|n: Seq<char>| #[trigger] child_index(level.static_sub_routes@, n) >= 0 ==> deep_inhabited(
            level.static_sub_routes@[child_index(level.static_sub_routes@, n)].1,
        ),
        level.wildcard_sub_route matches Some((_, ch)) ==> deep_inhabited(*ch),
{
    assert(node_at(level, Seq::empty()) is Some);
    assert forall|n: Seq<char>| #[trigger] child_index(level.static_sub_routes@, n) >= 0 implies deep_inhabited(
        level.static_sub_routes@[child_index(level.static_sub_routes@, n)].1,
    ) by {
        let child = level.static_sub_routes@[child_index(level.static_sub_routes@, n)].1;
        assert forall|q: Seq<SegView>| #[trigger] node_at(child, q) == node_at(level, seq![SegView::Static(n)] + q) by {
            lemma_node_at_step(level, SegView::Static(n), q);
        }
        lemma_deep_child(level, SegView::Static(n), child);
    }
    match level.wildcard_sub_route {
        Some((wn, ch)) => {
            assert forall|q: Seq<SegView>| #[trigger] node_at(*ch, q) == node_at(level, seq![SegView::Wildcard(wn@)] + q) by {
                lemma_node_at_step(level, SegView::Wildcard(wn@), q);
            }
            lemma_deep_child(level, SegView::Wildcard(wn@), *ch);
        },
        None => {},
    }
}

proof fn lemma_deep_from_children(level: RouteLevel)
    requires
        children_inhabited(level),
        forall|n: Seq<char>| #[trigger] child_index(level.static_sub_routes@, n) >= 0 ==> deep_inhabited(
            level.static_sub_routes@[child_index(level.static_sub_routes@, n)].1,
        ),
        level.wildcard_sub_route matches Some((_, ch)) ==> deep_inhabited(*ch),
    ensures
        deep_inhabited(level),
{
    assert forall|q: Seq<SegView>| #[trigger] node_at(level, q) is Some implies children_inhabited(node_at(level, q)->0) by {
        if q.len() > 0 {
            let rest = q.drop_first();
            assert(q =~= seq![q[0]] + rest);
            lemma_node_at_step(level, q[0], rest);
            match q[0] {
                SegView::Static(n) => {
                    let c = child_index(level.static_sub_routes@, n);
                    assert(c >= 0);
                    assert(node_at(level.static_sub_routes@[c].1, rest) is Some);
                },
                SegView::Wildcard(n) => {
                    let ch = *level.wildcard_sub_route->Some_0.1;
                    assert(node_at(ch, rest) is Some);
                },
            }
        }
    }
}

proof fn lemma_deep_empty(level: RouteLevel)
    requires
        level.static_sub_routes@.len() == 0,
        level.wildcard_sub_route is None,
    ensures
        deep_inhabited(level),
{
    assert forall|q: Seq<SegView>| #[trigger] node_at(level, q) is Some implies children_inhabited(node_at(level, q)->0) by {
        if q.len() > 0 {
            match q[0] {
                SegView::Static(nm) => {},
                SegView::Wildcard(nm) => {},
            }
        }
    }
}

/// The route at `p` for `m` after registering `hv` at `path` for `method`,
/// given the route there before.
pub open spec fn after_add(
    before: Option<HandlerView>,
    path: Seq<SegView>,
    method: HttpMethod,
    hv: HandlerView,
    p: Seq<SegView>,
    m: HttpMethod,
) -> Option<HandlerView> {
    if p == path && m == method {
        Some(hv)
    } else if displaced(path, p) {
        None
    } else {
        before
    }
}

proof fn lemma_method_index_found(rs: Seq<(HttpMethod, CompleteRouteHandler)>, m: HttpMethod)
    ensures
        -1 <= method_index(rs, m) < rs.len(),
        method_index(rs, m) >= 0 ==> rs[method_index(rs, m)].0 == m,
    decreases rs.len(),
{
    if rs.len() > 0 {
        lemma_method_index_found(rs.drop_last(), m);
    }
}

proof fn lemma_method_index_at_least(
    rs: Seq<(HttpMethod, CompleteRouteHandler)>,
    k: int,
    m: HttpMethod,
)
    requires
        0 <= k < rs.len(),
        rs[k].0 == m,
    ensures
        method_index(rs, m) >= k,
    decreases rs.len(),
{
    if k < rs.len() - 1 && rs.last().0 != m {
        lemma_method_index_at_least(rs.drop_last(), k, m);
    }
}

proof fn lemma_child_index_at_least(cs: Seq<(String, RouteLevel)>, c: int, n: Seq<char>)
    requires
        0 <= c < cs.len(),
        cs[c].0@ == n,
    ensures
        child_index(cs, n) >= c,
    decreases cs.len(),
{
    if c < cs.len() - 1 && cs.last().0@ != n {
        lemma_child_index_at_least(cs.drop_last(), c, n);
    }
}

proof fn lemma_method_index_same_keys(
    rs: Seq<(HttpMethod, CompleteRouteHandler)>,
    k: int,
    e: (HttpMethod, CompleteRouteHandler),
    m: HttpMethod,
)
    requires
        0 <= k < rs.len(),
        rs[k].0 == e.0,
    ensures
        method_index(rs.update(k, e), m) == method_index(rs, m),
    decreases rs.len(),
{
    let rs2 = rs.update(k, e);
    if k < rs.len() - 1 {
        assert(rs2.drop_last() =~= rs.drop_last().update(k, e));
        lemma_method_index_same_keys(rs.drop_last(), k, e, m);
    } else {
        assert(rs2.drop_last() =~= rs.drop_last());
    }
}

proof fn lemma_child_index_found(cs: Seq<(String, RouteLevel)>, n: Seq<char>)
    ensures
        -1 <= child_index(cs, n) < cs.len(),
        child_index(cs, n) >= 0 ==> cs[child_index(cs, n)].0@ == n,
    decreases cs.len(),
{
    if cs.len() > 0 {
        lemma_child_index_found(cs.drop_last(), n);
    }
}

proof fn lemma_child_index_same_names(
    cs: Seq<(String, RouteLevel)>,
    c: int,
    x: (String, RouteLevel),
    n: Seq<char>,
)
    requires
        0 <= c < cs.len(),
        cs[c].0@ == x.0@,
    ensures
        child_index(cs.update(c, x), n) == child_index(cs, n),
    decreases cs.len(),
{
    let cs2 = cs.update(c, x);
    if c < cs.len() - 1 {
        assert(cs2.drop_last() =~= cs.drop_last().update(c, x));
        lemma_child_index_same_names(cs.drop_last(), c, x, n);
    } else {
        assert(cs2.drop_last() =~= cs.drop_last());
    }
}

proof fn lemma_child_index_push(cs: Seq<(String, RouteLevel)>, x: (String, RouteLevel), n: Seq<char>)
    ensures
        child_index(cs.push(x), n) == if x.0@ == n {
            cs.len() as int
        } else {
            child_index(cs, n)
        },
{
    assert(cs.push(x).drop_last() =~= cs);
}

proof fn lemma_method_index_push(
    rs: Seq<(HttpMethod, CompleteRouteHandler)>,
    e: (HttpMethod, CompleteRouteHandler),
    m: HttpMethod,
)
    ensures
        method_index(rs.push(e), m) == if e.0 == m {
            rs.len() as int
        } else {
            method_index(rs, m)
        },
{
    assert(rs.push(e).drop_last() =~= rs);
}

proof fn lemma_cons_eq(p: Seq<SegView>, q: Seq<SegView>)
    requires
        p.len() > 0,
        q.len() > 0,
        p[0] == q[0],
        p.drop_first() == q.drop_first(),
    ensures
        p == q,
{
    assert(p =~= seq![p[0]] + p.drop_first());
    assert(q =~= seq![q[0]] + q.drop_first());
}

/// The declared path of literal segments with the given texts.
pub open spec fn literal_path(names: Seq<Seq<char>>) -> Seq<SegView> {
    names.map_values(|n: Seq<char>| SegView::Static(n))
}

/// The matched path of literal segments with the given texts.
pub open spec fn literal_matched(names: Seq<Seq<char>>) -> Seq<MatchedSegView> {
    names.map_values(|n: Seq<char>| MatchedSegView::Static(n))
}

/// A literal route wins over a wildcard one: when a route is registered
/// for `m` at a path of literal segments, looking up those texts finds that
/// route, every segment matched as a literal.
pub proof fn lemma_exact_match_priority(
    level: RouteLevel,
    names: Seq<Seq<char>>,
    m: HttpMethod,
    acc: Seq<MatchedSegView>,
)
    requires
        route_at(level, literal_path(names), m) is Some,
    ensures
        lookup(level, m, names, acc) == Lookup::Found(
            acc + literal_matched(names),
            route_at(level, literal_path(names), m)->0,
        ),
    decreases names.len(),
{
    let lp = literal_path(names);
    if names.len() == 0 {
        assert(lp.len() == 0);
        assert(acc + literal_matched(names) =~= acc);
    } else {
        let n = names[0];
        assert(lp[0] == SegView::Static(n));
        assert(lp.drop_first() =~= literal_path(names.drop_first()));
        let c = child_index(level.static_sub_routes@, n);
        lemma_exact_match_priority(
            level.static_sub_routes@[c].1,
            names.drop_first(),
            m,
            acc.push(MatchedSegView::Static(n)),
        );
        assert(acc.push(MatchedSegView::Static(n)) + literal_matched(names.drop_first())
            =~= acc + literal_matched(names));
    }
}

proof fn lemma_methods_at_contains(rs: Seq<(HttpMethod, CompleteRouteHandler)>, m: HttpMethod)
    ensures
        rs.map_values(|e: (HttpMethod, CompleteRouteHandler)| e.0).contains(m) <==> method_index(
            rs,
            m,
        ) >= 0,
    decreases rs.len(),
{
    let ks = rs.map_values(|e: (HttpMethod, CompleteRouteHandler)| e.0);
    if rs.len() > 0 {
        lemma_methods_at_contains(rs.drop_last(), m);
        let ks0 = rs.drop_last().map_values(|e: (HttpMethod, CompleteRouteHandler)| e.0);
        assert(ks =~= ks0.push(rs.last().0));
        if rs.last().0 == m {
            assert(ks[ks.len() - 1] == m);
        }
        if ks0.contains(m) {
            let j = choose|j: int| 0 <= j < ks0.len() && ks0[j] == m;
            assert(ks[j] == m);
        }
        if ks.contains(m) && rs.last().0 != m {
            let j = choose|j: int| 0 <= j < ks.len() && ks[j] == m;
            assert(j < ks0.len());
            assert(ks0[j] == m);
        }
    }
}

/// When a literal path is registered for some method but not for `m`, the
/// lookup for `m` reports `MethodNotAllowed`, and the methods it lists are
/// exactly those registered at that path.
pub proof fn lemma_method_not_allowed(
    level: RouteLevel,
    names: Seq<Seq<char>>,
    m: HttpMethod,
    registered: HttpMethod,
    acc: Seq<MatchedSegView>,
)
    requires
        route_at(level, literal_path(names), registered) is Some,
        route_at(level, literal_path(names), m) is None,
    ensures
        lookup(level, m, names, acc) matches Lookup::MethodNotAllowed(ms) && ms.to_set() == Set::new(
            |m2: HttpMethod| route_at(level, literal_path(names), m2) is Some,
        ),
    decreases names.len(),
{
    let lp = literal_path(names);
    if names.len() == 0 {
        assert(lp.len() == 0);
        let ms = methods_at(level);
        assert forall|m2: HttpMethod| ms.to_set().contains(m2) <==> (route_at(level, lp, m2) is Some) by {
            lemma_methods_at_contains(level.self_routes@, m2);
        }
        assert(ms.to_set() =~= Set::new(|m2: HttpMethod| route_at(level, lp, m2) is Some));
    } else {
        let n = names[0];
        assert(lp[0] == SegView::Static(n));
        assert(lp.drop_first() =~= literal_path(names.drop_first()));
        let c = child_index(level.static_sub_routes@, n);
        let child = level.static_sub_routes@[c].1;
        lemma_method_not_allowed(
            child,
            names.drop_first(),
            m,
            registered,
            acc.push(MatchedSegView::Static(n)),
        );
        assert forall|m2: HttpMethod| #[trigger] route_at(level, lp, m2) == route_at(
            child,
            literal_path(names.drop_first()),
            m2,
        ) by {}
        assert(Set::new(|m2: HttpMethod| route_at(level, lp, m2) is Some) =~= Set::new(
            |m2: HttpMethod| route_at(child, literal_path(names.drop_first()), m2) is Some,
        ));
    }
}

/// `NotFound` never answers a registered literal path: when the lookup of
/// literal texts reports it, no route is registered at those texts for any
/// method.
pub proof fn lemma_not_found_is_unregistered(
    level: RouteLevel,
    names: Seq<Seq<char>>,
    m: HttpMethod,
    acc: Seq<MatchedSegView>,
)
    requires
        lookup(level, m, names, acc) is NotFound,
    ensures
        forall|m2: HttpMethod| route_at(level, literal_path(names), m2) is None,
{
    assert forall|m2: HttpMethod| route_at(level, literal_path(names), m2) is None by {
        if route_at(level, literal_path(names), m2) is Some {
            if route_at(level, literal_path(names), m) is Some {
                lemma_exact_match_priority(level, names, m, acc);
            } else {
                lemma_method_not_allowed(level, names, m, m2, acc);
            }
        }
    }
}

/// A flattened route: method, declared path and route handler.
pub type FlatRoute = (HttpMethod, RoutePath, CompleteRouteHandler);

/// Entries from index `from` on are routes of `level`, each at `prefix`
/// followed by its own path.
pub open spec fn entries_sound(
    level: RouteLevel,
    prefix: Seq<SegView>,
    es: Seq<FlatRoute>,
    from: int,
) -> bool {
    forall|j: int|
        from <= j < es.len() ==> {
            &&& (#[trigger] es[j]).1@.len() >= prefix.len()
            &&& es[j].1@.take(prefix.len() as int) == prefix
            &&& route_at(level, es[j].1@.skip(prefix.len() as int), es[j].0) == Some(es[j].2@)
        }
}

/// No two entries from index `from` on have the same method and path.
pub open spec fn keys_distinct(es: Seq<FlatRoute>, from: int) -> bool {
    forall|i: int, j: int|
        from <= i < j < es.len() ==> (#[trigger] es[i]).0 != (#[trigger] es[j]).0 || es[i].1@
            != es[j].1@
}

/// Whether a path goes on past `pl` segments with a literal whose child
/// comes before index `c`.
pub open spec fn through_earlier_child(p: Seq<SegView>, pl: int, cs: Seq<(String, RouteLevel)>, c: int) -> bool {
    p.len() > pl && p[pl] is Static && 0 <= child_index(cs, seg_name(p[pl])) < c
}

proof fn lemma_distinct_append(before: Seq<FlatRoute>, es: Seq<FlatRoute>, start: int)
    requires
        0 <= start <= before.len() <= es.len(),
        es.take(before.len() as int) == before,
        keys_distinct(before, start),
        keys_distinct(es, before.len() as int),
        forall|i: int, j: int|
            start <= i < before.len() <= j < es.len() ==> (#[trigger] es[i]).1@ != (#[trigger] es[j]).1@,
    ensures
        keys_distinct(es, start),
{
    assert forall|i: int, j: int| start <= i < j < es.len() implies (#[trigger] es[i]).0 != (#[trigger] es[j]).0
        || es[i].1@ != es[j].1@ by {
        if j < before.len() {
            assert(es[i] == before[i]);
            assert(es[j] == before[j]);
        } else if i < before.len() {
        }
    }
}

/// Some entry from index `from` on has path `p` and method `m`.
pub open spec fn has_entry(es: Seq<FlatRoute>, from: int, p: Seq<SegView>, m: HttpMethod) -> bool {
    exists|j: int| from <= j < es.len() && (#[trigger] es[j]).1@ == p && es[j].0 == m
}

proof fn lemma_has_entry_grow(
    es: Seq<FlatRoute>,
    es2: Seq<FlatRoute>,
    from: int,
    p: Seq<SegView>,
    m: HttpMethod,
)
    requires
        from >= 0,
        has_entry(es, from, p, m),
        es2.len() >= es.len(),
        es2.take(es.len() as int) == es,
    ensures
        has_entry(es2, from, p, m),
{
    let j = choose|j: int| from <= j < es.len() && (#[trigger] es[j]).1@ == p && es[j].0 == m;
    assert(es2[j] == es2.take(es.len() as int)[j]);
}

proof fn lemma_sound_grow(level: RouteLevel, prefix: Seq<SegView>, es: Seq<FlatRoute>, es2: Seq<FlatRoute>, from: int, mid: int)
    requires
        from >= 0,
        entries_sound(level, prefix, es, from),
        es.len() == mid,
        es2.len() >= mid,
        es2.take(mid) == es,
        entries_sound(level, prefix, es2, mid),
    ensures
        entries_sound(level, prefix, es2, from),
{
    assert forall|j: int| from <= j < es2.len() implies {
        &&& (#[trigger] es2[j]).1@.len() >= prefix.len()
        &&& es2[j].1@.take(prefix.len() as int) == prefix
        &&& route_at(level, es2[j].1@.skip(prefix.len() as int), es2[j].0) == Some(es2[j].2@)
    } by {
        if j < mid {
            assert(es2[j] == es2.take(mid)[j]);
            assert(es[j] == es2[j]);
        }
    }
}

proof fn lemma_sound_child(
    level: RouteLevel,
    child: RouteLevel,
    seg: SegView,
    prefix: Seq<SegView>,
    es: Seq<FlatRoute>,
    from: int,
)
    requires
        entries_sound(child, prefix.push(seg), es, from),
        forall|q: Seq<SegView>, m: HttpMethod| route_at(level, seq![seg] + q, m) == route_at(child, q, m),
    ensures
        entries_sound(level, prefix, es, from),
{
    let pre2 = prefix.push(seg);
    assert forall|j: int| from <= j < es.len() implies {
        &&& (#[trigger] es[j]).1@.len() >= prefix.len()
        &&& es[j].1@.take(prefix.len() as int) == prefix
        &&& route_at(level, es[j].1@.skip(prefix.len() as int), es[j].0) == Some(es[j].2@)
    } by {
        let p = es[j].1@;
        assert(p.take(pre2.len() as int) == pre2);
        assert(p.take(prefix.len() as int) =~= pre2.take(prefix.len() as int));
        assert(pre2.take(prefix.len() as int) =~= prefix);
        let q = p.skip(pre2.len() as int);
        assert(p.skip(prefix.len() as int) =~= seq![seg] + q) by {
            assert(p[prefix.len() as int] == p.take(pre2.len() as int)[prefix.len() as int]);
        }
    }
}

/// The route of `routes` beneath `sub` at `p` for `m`, if any, with `ms`
/// installed outside its middleware.
pub open spec fn shifted_hv(
    routes: RouteLevel,
    sub: Seq<SegView>,
    ms: Seq<Middleware>,
    p: Seq<SegView>,
    m: HttpMethod,
) -> Option<HandlerView> {
    if p.len() >= sub.len() && p.take(sub.len() as int) == sub {
        match route_at(routes, p.skip(sub.len() as int), m) {
            Some(h0) => Some((ms + h0.0, h0.1)),
            None => None,
        }
    } else {
        None
    }
}

/// Whether some route of `routes`, placed beneath `sub`, displaces `p`.
pub open spec fn displaced_by_level(routes: RouteLevel, sub: Seq<SegView>, p: Seq<SegView>) -> bool {
    exists|q: Seq<SegView>, m2: HttpMethod|
        #[trigger] route_at(routes, q, m2) is Some && displaced(sub + q, p)
}

/// The route at `p` for `m` after merging `routes` beneath `sub` with `ms`
/// outside, given the route there before: a merged route wins, a displaced
/// route goes, any other stays.
pub open spec fn merged_route(
    before: Option<HandlerView>,
    routes: RouteLevel,
    sub: Seq<SegView>,
    ms: Seq<Middleware>,
    p: Seq<SegView>,
    m: HttpMethod,
) -> Option<HandlerView> {
    if shifted_hv(routes, sub, ms, p, m) is Some {
        shifted_hv(routes, sub, ms, p, m)
    } else if displaced_by_level(routes, sub, p) {
        None
    } else {
        before
    }
}

/// Whether registering `e` beneath `sub` touches the route at `p` for `m`.
pub open spec fn touched_by(e: FlatRoute, sub: Seq<SegView>, p: Seq<SegView>, m: HttpMethod) -> bool {
    (sub + e.1@ == p && e.0 == m) || displaced(sub + e.1@, p)
}

/// Whether one of the first `i` entries touches the route at `p` for `m`.
pub open spec fn touched(es: Seq<FlatRoute>, i: int, sub: Seq<SegView>, p: Seq<SegView>, m: HttpMethod) -> bool {
    exists|j: int| 0 <= j < i && touched_by(#[trigger] es[j], sub, p, m)
}

/// Whether one of the first `i` entries, placed beneath `sub`, displaces `p`.
pub open spec fn displaced_by_entries(es: Seq<FlatRoute>, i: int, sub: Seq<SegView>, p: Seq<SegView>) -> bool {
    exists|j: int| 0 <= j < i && displaced(sub + (#[trigger] es[j]).1@, p)
}

/// Two routes of one trie never displace one another: where both have a
/// wildcard after equal segments, it is the same wildcard.
pub proof fn lemma_routes_coexist(
    level: RouteLevel,
    q1: Seq<SegView>,
    m1: HttpMethod,
    q2: Seq<SegView>,
    m2: HttpMethod,
)
    requires
        route_at(level, q1, m1) is Some,
        route_at(level, q2, m2) is Some,
    ensures
        !displaced(q1, q2),
    decreases q1.len(),
{
    if q1.len() > 0 && q2.len() > 0 && q1[0] == q2[0] {
        match q1[0] {
            SegView::Static(n) => {
                let c = child_index(level.static_sub_routes@, n);
                lemma_routes_coexist(
                    level.static_sub_routes@[c].1,
                    q1.drop_first(),
                    m1,
                    q2.drop_first(),
                    m2,
                );
            },
            SegView::Wildcard(n) => {
                let child = *level.wildcard_sub_route->Some_0.1;
                lemma_routes_coexist(child, q1.drop_first(), m1, q2.drop_first(), m2);
            },
        }
    }
}

proof fn lemma_displaced_after_prefix(sub: Seq<SegView>, a: Seq<SegView>, b: Seq<SegView>)
    ensures
        displaced(sub + a, sub + b) == displaced(a, b),
    decreases sub.len(),
{
    if sub.len() > 0 {
        assert((sub + a)[0] == sub[0]);
        assert((sub + b)[0] == sub[0]);
        assert((sub + a).drop_first() =~= sub.drop_first() + a);
        assert((sub + b).drop_first() =~= sub.drop_first() + b);
        lemma_displaced_after_prefix(sub.drop_first(), a, b);
    } else {
        assert(sub + a =~= a);
        assert(sub + b =~= b);
    }
}

/// A lookup whose first segment is registered nowhere is `NotFound`: when
/// every child of the root holds a route, and no registered route starts
/// with a wildcard or with the literal `names[0]`, the lookup of `names` for
/// any method reports `NotFound`.
pub proof fn lemma_unknown_segment_not_found(
    level: RouteLevel,
    names: Seq<Seq<char>>,
    m: HttpMethod,
    acc: Seq<MatchedSegView>,
)
    requires
        children_inhabited(level),
        names.len() > 0,
        forall|q: Seq<SegView>, m2: HttpMethod|
            #[trigger] route_at(level, q, m2) is Some && q.len() > 0 ==> q[0] != SegView::Static(
                names[0],
            ) && !(q[0] is Wildcard),
    ensures
        lookup(level, m, names, acc) == Lookup::NotFound,
{
    let n = names[0];
    let cs = level.static_sub_routes@;
    let c = child_index(cs, n);
    lemma_child_index_found(cs, n);
    if c >= 0 {
        let child = cs[c].1;
        assert(inhabited(child));
        let (q, m2) = choose|q: Seq<SegView>, m2: HttpMethod| #[trigger] route_at(child, q, m2) is Some;
        let full = seq![SegView::Static(n)] + q;
        assert(full[0] == SegView::Static(n));
        assert(full.drop_first() =~= q);
        assert(route_at(level, full, m2) is Some);
    } else {
        match level.wildcard_sub_route {
            Some((wn, child)) => {
                assert(inhabited(*child));
                let (q, m2) = choose|q: Seq<SegView>, m2: HttpMethod| #[trigger] route_at(*child, q, m2) is Some;
                let full = seq![SegView::Wildcard(wn@)] + q;
                assert(full[0] == SegView::Wildcard(wn@));
                assert(full.drop_first() =~= q);
                assert(route_at(level, full, m2) is Some);
            },
            None => {},
        }
    }
}

/// The matched path that a request of the texts `names` gets along the
/// declared path `p`: literals as they are, each wildcard bound to its text.
pub open spec fn bind_path(p: Seq<SegView>, names: Seq<Seq<char>>) -> Seq<MatchedSegView> {
    Seq::new(
        p.len(),
        |i: int|
            match p[i] {
                SegView::Static(n) => MatchedSegView::Static(n),
                SegView::Wildcard(w) => MatchedSegView::Wildcard(w, names[i]),
            },
    )
}

/// Whether the texts `names` fit the declared path `p`: one text per
/// segment, each literal segment's own text at its place, and at each
/// wildcard place no route registered beneath the literal of that text,
/// which would be preferred to the wildcard.
pub open spec fn fits(level: RouteLevel, p: Seq<SegView>, names: Seq<Seq<char>>) -> bool {
    &&& names.len() == p.len()
    &&& forall|i: int| 0 <= i < p.len() && #[trigger] p[i] is Static ==> names[i] == seg_name(p[i])
    &&& forall|i: int, q: Seq<SegView>, m2: HttpMethod|
        0 <= i < p.len() && p[i] is Wildcard ==> #[trigger] route_at(
            level,
            p.take(i).push(SegView::Static(names[i])) + q,
            m2,
        ) is None
}

/// Looking up texts that fit a registered declared path finds its route,
/// each wildcard bound to the text at its place, in any trie whose levels
/// all have inhabited children (as every trie that `add` builds does).
pub proof fn lemma_lookup_declared(
    level: RouteLevel,
    p: Seq<SegView>,
    names: Seq<Seq<char>>,
    m: HttpMethod,
    acc: Seq<MatchedSegView>,
)
    requires
        deep_inhabited(level),
        route_at(level, p, m) is Some,
        fits(level, p, names),
    ensures
        lookup(level, m, names, acc) == Lookup::Found(acc + bind_path(p, names), route_at(level, p, m)->0),
    decreases p.len(),
{
    lemma_deep_children(level);
    if p.len() == 0 {
        lemma_method_index_found(level.self_routes@, m);
        assert(acc + bind_path(p, names) =~= acc);
        assert(methods_at(level).len() == level.self_routes@.len());
    } else {
        let cs = level.static_sub_routes@;
        let rest = p.drop_first();
        let nrest = names.drop_first();
        let n0 = names[0];
        let (child, ms) = match p[0] {
            SegView::Static(n) => {
                let c = child_index(cs, n);
                (cs[c].1, MatchedSegView::Static(n))
            },
            SegView::Wildcard(w) => {
                let c = child_index(cs, n0);
                lemma_child_index_found(cs, n0);
                if c >= 0 {
                    assert(inhabited(cs[c].1));
                    let (q, m2) = choose|q: Seq<SegView>, m2: HttpMethod| #[trigger] route_at(cs[c].1, q, m2) is Some;
                    let full = p.take(0).push(SegView::Static(n0)) + q;
                    assert(full =~= seq![SegView::Static(n0)] + q);
                    assert(full[0] == SegView::Static(n0));
                    assert(full.drop_first() =~= q);
                    assert(route_at(level, full, m2) is None);
                }
                (*level.wildcard_sub_route->Some_0.1, MatchedSegView::Wildcard(w, n0))
            },
        };
        assert(p[0] is Static ==> n0 == seg_name(p[0]));
        assert forall|q: Seq<SegView>, m2: HttpMethod| #[trigger] route_at(child, q, m2) == route_at(level, seq![p[0]] + q, m2) by {
            assert((seq![p[0]] + q)[0] == p[0]);
            assert((seq![p[0]] + q).drop_first() =~= q);
        }
        assert forall|q: Seq<SegView>| #[trigger] node_at(child, q) == node_at(level, seq![p[0]] + q) by {
            lemma_node_at_step(level, p[0], q);
        }
        lemma_deep_child(level, p[0], child);
        assert(p =~= seq![p[0]] + rest);
        assert(fits(child, rest, nrest)) by {
            assert forall|i: int| 0 <= i < rest.len() && #[trigger] rest[i] is Static implies nrest[i] == seg_name(rest[i]) by {
                assert(rest[i] == p[i + 1]);
            }
            assert forall|i: int, q: Seq<SegView>, m2: HttpMethod|
                0 <= i < rest.len() && rest[i] is Wildcard implies #[trigger] route_at(
                    child,
                    rest.take(i).push(SegView::Static(nrest[i])) + q,
                    m2,
                ) is None by {
                assert(rest[i] == p[i + 1]);
                assert(seq![p[0]] + (rest.take(i).push(SegView::Static(nrest[i])) + q) =~= p.take(i + 1).push(
                    SegView::Static(names[i + 1]),
                ) + q);
                assert(route_at(level, p.take(i + 1).push(SegView::Static(names[i + 1])) + q, m2) is None);
            }
        }
        lemma_lookup_declared(child, rest, nrest, m, acc.push(ms));
        assert(acc.push(ms) + bind_path(rest, nrest) =~= acc + bind_path(p, names));
    }
}

proof fn lemma_empty_level(level: RouteLevel, p: Seq<SegView>, m: HttpMethod)
    requires
        level.self_routes@.len() == 0,
        level.static_sub_routes@.len() == 0,
        level.wildcard_sub_route is None,
    ensures
        route_at(level, p, m) is None,
{
}

} // verus!
