use rum::error::Error;
use rum::method::HttpMethod;
use rum::middleware::{ChainEvent, Invoker, Middleware, RouteHandler};
use rum::route_group::RouteGroup;
use rum::route_level::{CompleteRouteHandler, RouteLevel};
use rum::route_path::{RoutePath, RoutePathMatchedSegment};

fn h(id: u64) -> RouteHandler {
    RouteHandler { id }
}

fn mw(id: u64) -> Middleware {
    Middleware { id }
}

fn plain(id: u64) -> CompleteRouteHandler {
    CompleteRouteHandler::new(h(id), &[])
}

fn mst(s: &str) -> RoutePathMatchedSegment {
    RoutePathMatchedSegment::Static(s.to_owned())
}

fn mwild(n: &str, v: &str) -> RoutePathMatchedSegment {
    RoutePathMatchedSegment::Wildcard(n.to_owned(), v.to_owned())
}

fn found(level: &RouteLevel, m: HttpMethod, path: &str) -> (Vec<RoutePathMatchedSegment>, u64) {
    match level.get(m, &RoutePath::parse(path)) {
        Ok((matched, handler)) => (matched.segments().to_vec(), handler.handler().id),
        Err(e) => panic!("lookup failed: {:?}", e),
    }
}

#[test]
fn concrete_lookup_scenario() {
    let mut level = RouteLevel::new();
    level.add(HttpMethod::Get, &RoutePath::parse("/a/{x}"), plain(1));
    level.add(HttpMethod::Get, &RoutePath::parse("/a/b"), plain(2));

    let (matched, id) = found(&level, HttpMethod::Get, "/a/b");
    assert_eq!(matched, vec![mst("a"), mst("b")]);
    assert_eq!(id, 2);

    let (matched, id) = found(&level, HttpMethod::Get, "/a/c");
    assert_eq!(matched, vec![mst("a"), mwild("x", "c")]);
    assert_eq!(id, 1);

    match level.get(HttpMethod::Post, &RoutePath::parse("/a/b")) {
        Err(Error::MethodNotAllowed(ms)) => assert_eq!(ms, vec![HttpMethod::Get]),
        other => panic!("unexpected: {:?}", other.map(|_| ())),
    }
    assert!(matches!(level.get(HttpMethod::Get, &RoutePath::parse("/z")), Err(Error::NotFound)));
}

#[test]
fn exact_match_beats_wildcard() {
    let mut level = RouteLevel::new();
    level.add(HttpMethod::Get, &RoutePath::parse("/users/{id}"), plain(1));
    level.add(HttpMethod::Get, &RoutePath::parse("/users/me"), plain(2));
    assert_eq!(found(&level, HttpMethod::Get, "/users/me").1, 2);
    assert_eq!(found(&level, HttpMethod::Get, "/users/42").1, 1);
    // The order of registration does not matter.
    let mut other = RouteLevel::new();
    other.add(HttpMethod::Get, &RoutePath::parse("/users/me"), plain(2));
    other.add(HttpMethod::Get, &RoutePath::parse("/users/{id}"), plain(1));
    assert_eq!(found(&other, HttpMethod::Get, "/users/me").1, 2);
}

#[test]
fn method_not_allowed_lists_exactly_registered_methods() {
    let mut level = RouteLevel::new();
    level.add(HttpMethod::Get, &RoutePath::parse("/test"), plain(1));
    level.add(HttpMethod::Head, &RoutePath::parse("/test"), plain(2));
    level.add(HttpMethod::Delete, &RoutePath::parse("/test"), plain(3));
    match level.get(HttpMethod::Put, &RoutePath::parse("/test")) {
        Err(Error::MethodNotAllowed(mut ms)) => {
            ms.sort_by_key(|m| m.as_str());
            assert_eq!(ms, vec![HttpMethod::Delete, HttpMethod::Get, HttpMethod::Head]);
        }
        other => panic!("unexpected: {:?}", other.map(|_| ())),
    }
}

#[test]
fn not_found_versus_method_not_allowed() {
    let mut level = RouteLevel::new();
    level.add(HttpMethod::Get, &RoutePath::parse("/test"), plain(1));
    assert!(matches!(level.get(HttpMethod::Get, &RoutePath::parse("/other")), Err(Error::NotFound)));
    assert!(matches!(level.get(HttpMethod::Post, &RoutePath::parse("/other")), Err(Error::NotFound)));
    assert!(matches!(
        level.get(HttpMethod::Post, &RoutePath::parse("/test")),
        Err(Error::MethodNotAllowed(_))
    ));
    assert!(matches!(level.get(HttpMethod::Get, &RoutePath::parse("/test/bar/baz")), Err(Error::NotFound)));
}

#[test]
fn later_route_replaces_same_method() {
    let mut level = RouteLevel::new();
    level.add(HttpMethod::Get, &RoutePath::parse("/x"), plain(1));
    level.add(HttpMethod::Get, &RoutePath::parse("/x"), plain(2));
    assert_eq!(found(&level, HttpMethod::Get, "/x").1, 2);
}

#[test]
fn wildcard_of_another_name_displaces_old_one() {
    let mut level = RouteLevel::new();
    level.add(HttpMethod::Get, &RoutePath::parse("/t/{a}/x"), plain(1));
    level.add(HttpMethod::Get, &RoutePath::parse("/t/{a}/y"), plain(2));
    // Same wildcard name: both routes stay.
    assert_eq!(found(&level, HttpMethod::Get, "/t/1/x").1, 1);
    assert_eq!(found(&level, HttpMethod::Get, "/t/1/y").1, 2);
    level.add(HttpMethod::Get, &RoutePath::parse("/t/{b}/z"), plain(3));
    let (matched, id) = found(&level, HttpMethod::Get, "/t/1/z");
    assert_eq!(id, 3);
    assert_eq!(matched, vec![mst("t"), mwild("b", "1"), mst("z")]);
    assert!(matches!(level.get(HttpMethod::Get, &RoutePath::parse("/t/1/x")), Err(Error::NotFound)));
}

#[test]
fn wildcard_path_matches_any_single_segment() {
    let mut level = RouteLevel::new();
    level.add(HttpMethod::Get, &RoutePath::parse("/test/{foo}"), plain(7));
    for p in ["/test/bar", "/test/123", "/test/123.45", "/test/true"] {
        assert_eq!(found(&level, HttpMethod::Get, p).1, 7);
    }
    assert!(matches!(level.get(HttpMethod::Get, &RoutePath::parse("/test")), Err(Error::NotFound)));
    assert!(matches!(level.get(HttpMethod::Get, &RoutePath::parse("/test/bar/baz")), Err(Error::NotFound)));
}

#[test]
fn flatten_lists_every_route_once() {
    let mut level = RouteLevel::new();
    level.add(HttpMethod::Get, &RoutePath::parse("/a"), plain(1));
    level.add(HttpMethod::Post, &RoutePath::parse("/a"), plain(2));
    level.add(HttpMethod::Get, &RoutePath::parse("/a/{x}/c"), plain(3));
    level.add(HttpMethod::Get, &RoutePath::parse("/"), plain(4));
    let mut flat: Vec<(HttpMethod, String, u64)> = level
        .flatten()
        .iter()
        .map(|(m, p, hd)| (*m, p.to_path_string(), hd.handler().id))
        .collect();
    flat.sort_by_key(|e| e.2);
    assert_eq!(
        flat,
        vec![
            (HttpMethod::Get, "/a".to_owned(), 1),
            (HttpMethod::Post, "/a".to_owned(), 2),
            (HttpMethod::Get, "/a/{x}/c".to_owned(), 3),
            (HttpMethod::Get, "/".to_owned(), 4),
        ]
    );
}

#[test]
fn add_level_prefixes_paths_and_prepends_middleware() {
    let mut inner = RouteLevel::new();
    inner.add(HttpMethod::Get, &RoutePath::parse("/b"), CompleteRouteHandler::new(h(1), &[mw(20)]));
    let mut outer = RouteLevel::new();
    outer.add_level(&RoutePath::parse("/a"), &inner, &[mw(10)]);
    let (_, route) = outer.get(HttpMethod::Get, &RoutePath::parse("/a/b")).unwrap();
    assert_eq!(route.middleware().to_vec(), vec![mw(10), mw(20)]);
    assert_eq!(route.handler(), h(1));
    assert!(matches!(outer.get(HttpMethod::Get, &RoutePath::parse("/b")), Err(Error::NotFound)));
}

#[test]
fn middleware_order_in_chain() {
    let chain = Invoker::build(&[mw(1), mw(2), mw(3)], h(9));
    let events = chain.trace();
    let pushed: Vec<u64> = events
        .iter()
        .filter_map(|e| match e {
            ChainEvent::Enter(m) => Some(m.id),
            _ => None,
        })
        .collect();
    let popped: Vec<u64> = events
        .iter()
        .filter_map(|e| match e {
            ChainEvent::Leave(m) => Some(m.id),
            _ => None,
        })
        .collect();
    assert_eq!(pushed, vec![1, 2, 3]);
    assert_eq!(popped, vec![3, 2, 1]);
    assert_eq!(events[3], ChainEvent::Handle(h(9)));
    assert_eq!(chain.layers(), vec![mw(1), mw(2), mw(3)]);
    assert_eq!(chain.handler(), h(9));
}

#[test]
fn empty_chain_runs_the_handler_only() {
    let chain = Invoker::build(&[], h(5));
    assert_eq!(chain.trace(), vec![ChainEvent::Handle(h(5))]);
}

#[test]
fn add_middleware_goes_outside() {
    let mut route = CompleteRouteHandler::new(h(1), &[mw(3)]);
    route.add_middleware(&[mw(1), mw(2)]);
    assert_eq!(route.middleware().to_vec(), vec![mw(1), mw(2), mw(3)]);
    assert_eq!(route.invoker().layers(), vec![mw(1), mw(2), mw(3)]);
}

fn chain_of(level: &RouteLevel, m: HttpMethod, path: &str) -> Vec<u64> {
    let (_, route) = level.get(m, &RoutePath::parse(path)).unwrap();
    route.middleware().iter().map(|m| m.id).collect()
}

#[test]
fn local_and_recursive_middleware_scope() {
    let child = RouteGroup::new(RoutePath::parse("/child"))
        .get(RoutePath::parse("/"), h(2))
        .with_local_middleware(mw(30));
    let parent = RouteGroup::new(RoutePath::parse("/test"))
        .get(RoutePath::parse("/"), h(1))
        .with_local_middleware(mw(10))
        .with_middleware(mw(20))
        .route_group(child);
    let mut root = RouteLevel::new();
    root.add_group(&parent, &[]);
    assert_eq!(chain_of(&root, HttpMethod::Get, "/test"), vec![10, 20]);
    assert_eq!(chain_of(&root, HttpMethod::Get, "/test/child"), vec![20, 30]);
}

#[test]
fn adjacent_groups_do_not_share_recursive_middleware() {
    let g1 = RouteGroup::new(RoutePath::parse("/one")).get(RoutePath::parse("/"), h(1)).with_middleware(mw(1));
    let g2 = RouteGroup::new(RoutePath::parse("/two")).get(RoutePath::parse("/"), h(2)).with_middleware(mw(2));
    let parent = RouteGroup::new(RoutePath::parse("/"))
        .with_middleware(mw(100))
        .with_local_middleware(mw(200))
        .route_group(g1)
        .route_group(g2);
    let level = parent.into_route_level();
    assert_eq!(chain_of(&level, HttpMethod::Get, "/one"), vec![100, 1]);
    assert_eq!(chain_of(&level, HttpMethod::Get, "/two"), vec![100, 2]);
}

#[test]
fn local_middleware_order_follows_declaration() {
    let group = RouteGroup::new(RoutePath::parse("/"))
        .with_middleware(mw(1))
        .with_local_middleware(mw(2))
        .with_middleware(mw(3))
        .post(RoutePath::parse("/test"), h(1));
    let level = group.into_route_level();
    assert_eq!(chain_of(&level, HttpMethod::Post, "/test"), vec![1, 2, 3]);
}

#[test]
fn group_shorthands_register_each_method() {
    let g = RouteGroup::new(RoutePath::parse("/"))
        .get(RoutePath::parse("/test"), h(1))
        .head(RoutePath::parse("/test"), h(2))
        .post(RoutePath::parse("/test"), h(3))
        .put(RoutePath::parse("/test"), h(4))
        .delete(RoutePath::parse("/test"), h(5))
        .connect(RoutePath::parse("/test"), h(6))
        .options(RoutePath::parse("/test"), h(7))
        .trace(RoutePath::parse("/test"), h(8))
        .patch(RoutePath::parse("/test"), h(9));
    assert_eq!(g.path().to_path_string(), "/");
    let level = g.into_route_level();
    let methods = [
        HttpMethod::Get,
        HttpMethod::Head,
        HttpMethod::Post,
        HttpMethod::Put,
        HttpMethod::Delete,
        HttpMethod::Connect,
        HttpMethod::Options,
        HttpMethod::Trace,
        HttpMethod::Patch,
    ];
    for (i, m) in methods.iter().enumerate() {
        assert_eq!(found(&level, *m, "/test").1, i as u64 + 1);
    }
}

#[test]
fn many_routes_under_one_group() {
    let mut g = RouteGroup::new(RoutePath::parse("/"));
    for i in 0..17u64 {
        g = g.get(RoutePath::parse(&format!("/test/{}", i)), h(i));
    }
    let level = g.into_route_level();
    for i in 0..17u64 {
        assert_eq!(found(&level, HttpMethod::Get, &format!("/test/{}", i)).1, i);
    }
}

#[test]
fn method_names() {
    assert_eq!(HttpMethod::Get.as_str(), "GET");
    assert_eq!(HttpMethod::Options.as_str(), "OPTIONS");
    assert_eq!(HttpMethod::Patch.as_str(), "PATCH");
}

#[test]
fn request_path_segments_are_literal() {
    let mut level = RouteLevel::new();
    level.add(HttpMethod::Get, &RoutePath::parse("/{x}"), plain(1));
    // A request path that looks like a wildcard is matched as literal text.
    let (matched, id) = found(&level, HttpMethod::Get, "/{y}");
    assert_eq!(id, 1);
    assert_eq!(matched, vec![mwild("x", "{y}")]);
    let mut other = RouteLevel::new();
    other.add(HttpMethod::Get, &RoutePath::parse("/test/x"), plain(2));
    assert!(matches!(other.get(HttpMethod::Get, &RoutePath::parse("/test/{x}")), Err(Error::NotFound)));
}

#[test]
fn handler_without_middleware() {
    let r = CompleteRouteHandler::from_handler(h(3));
    assert!(r.middleware().is_empty());
    assert_eq!(r.invoker().trace(), vec![ChainEvent::Handle(h(3))]);
    assert_eq!(r.duplicate().handler(), h(3));
}
