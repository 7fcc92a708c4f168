use rum::route_path::{RoutePath, RoutePathMatched, RoutePathMatchedSegment, RoutePathSegment};

fn st(s: &str) -> RoutePathSegment {
    RoutePathSegment::Static(s.to_owned())
}

fn segs(p: &RoutePath) -> Vec<RoutePathSegment> {
    p.segments().to_vec()
}

#[test]
fn test_route_path() {
    assert_eq!(RoutePath::new().to_path_string(), "/");
    assert_eq!(RoutePath::parse("").to_path_string(), "/");
    assert_eq!(RoutePath::parse("/").to_path_string(), "/");
    assert_eq!(RoutePath::parse("test").to_path_string(), "/test");
    assert_eq!(RoutePath::parse("/test").to_path_string(), "/test");
    assert_eq!(RoutePath::parse("/test/").to_path_string(), "/test");
    assert_eq!(RoutePath::parse("test/123").to_path_string(), "/test/123");
    assert_eq!(RoutePath::parse("/test/123").to_path_string(), "/test/123");
    assert_eq!(RoutePath::parse("/test/123/").to_path_string(), "/test/123");
    assert_eq!(
        RoutePath::parse("/test").join(&RoutePath::parse("/123")).to_path_string(),
        "/test/123"
    );
    assert_eq!(
        RoutePath::parse("foo")
            .join(&RoutePath::parse("bar"))
            .join(&RoutePath::parse("baz"))
            .to_path_string(),
        "/foo/bar/baz"
    );
    assert_eq!(
        segs(&RoutePath::from_segments(RoutePath::parse("/foo/bar/baz").segments())),
        segs(&RoutePath::parse("/foo/bar/baz"))
    );
    assert_eq!(RoutePath::new().num_segments(), 0);
    assert_eq!(RoutePath::parse("").num_segments(), 0);
    assert_eq!(RoutePath::parse("/").num_segments(), 0);
    assert_eq!(RoutePath::parse("test").num_segments(), 1);
    assert_eq!(RoutePath::parse("/test/").num_segments(), 1);
    assert_eq!(RoutePath::parse("test/123").num_segments(), 2);
    assert_eq!(RoutePath::parse("/test/123/").num_segments(), 2);
    assert_eq!(segs(&RoutePath::parse("/test/123/")), vec![st("test"), st("123")]);
    let p = RoutePath::parse("/foo/bar/baz");
    assert_eq!(p.with_segments(0, 3).to_vec(), vec![st("foo"), st("bar"), st("baz")]);
    assert_eq!(p.with_segments(1, 3).to_vec(), vec![st("bar"), st("baz")]);
    assert_eq!(p.with_segments(0, 2).to_vec(), vec![st("foo"), st("bar")]);
    assert_eq!(p.with_segments(1, 2).to_vec(), vec![st("bar")]);
    assert_eq!(p.of_segments(1, 3).to_path_string(), "/bar/baz");
    assert_eq!(p.of_segments(0, 2).to_path_string(), "/foo/bar");
    assert_eq!(p.of_segments(1, 2).to_path_string(), "/bar");
    assert!(RoutePath::parse("/").split_first().is_none());
    let (first, rest) = RoutePath::parse("/foo").split_first().unwrap();
    assert_eq!(first, st("foo"));
    assert_eq!(rest.to_path_string(), "/");
    let (first, rest) = p.split_first().unwrap();
    assert_eq!(first, st("foo"));
    assert_eq!(rest.to_path_string(), "/bar/baz");
}

#[test]
fn parse_recognises_wildcards() {
    let p = RoutePath::parse("/a//{id}/{}/b/");
    assert_eq!(
        segs(&p),
        vec![
            st("a"),
            RoutePathSegment::Wildcard("id".to_owned()),
            st("{}"),
            st("b")
        ]
    );
    assert_eq!(p.to_path_string(), "/a/{id}/{}/b");
    assert_eq!(p.segments()[1].name(), "id");
}

#[test]
fn round_trip_of_rendered_paths() {
    for s in ["/a/b/c", "/users/{id}/posts", "/x", "/", "/{w}"] {
        let p = RoutePath::parse(s);
        assert_eq!(segs(&RoutePath::parse(&p.to_path_string())), segs(&p));
    }
    let joined = ["alpha", "beta", "gamma"].join("/");
    assert_eq!(
        segs(&RoutePath::parse(&RoutePath::parse(&joined).to_path_string())),
        vec![st("alpha"), st("beta"), st("gamma")]
    );
}

#[test]
fn test_route_path_matched() {
    let m = RoutePathMatched::from_segment(RoutePathMatchedSegment::Static("test".to_owned()))
        .join(&RoutePathMatched::from_segment(RoutePathMatchedSegment::Wildcard(
            "num".to_owned(),
            "/123".to_owned(),
        )));
    assert_eq!(
        m.segments().to_vec(),
        vec![
            RoutePathMatchedSegment::Static("test".to_owned()),
            RoutePathMatchedSegment::Wildcard("num".to_owned(), "/123".to_owned())
        ]
    );
    assert_eq!(m.num_segments(), 2);
    assert_eq!(RoutePathMatched::new().num_segments(), 0);
    let (first, rest) = m.split_first().unwrap();
    assert_eq!(first, RoutePathMatchedSegment::Static("test".to_owned()));
    assert_eq!(rest.num_segments(), 1);
    assert_eq!(m.of_segments(1, 2).segments().to_vec(), rest.segments().to_vec());
    assert_eq!(m.with_segments(0, 1).to_vec(), vec![first]);
    assert!(RoutePathMatched::new().split_first().is_none());
    let mut pushed = RoutePathMatched::new();
    pushed.push_segment(RoutePathMatchedSegment::Static("foo".to_owned()));
    assert_eq!(pushed.join_segment(RoutePathMatchedSegment::Static("bar".to_owned())).num_segments(), 2);
    assert_eq!(
        RoutePathMatched::from_segments(m.segments()).segments().to_vec(),
        m.segments().to_vec()
    );
}

#[test]
fn join_segment_and_duplicate() {
    let p = RoutePath::parse("/a").join_segment(RoutePathSegment::Wildcard("b".to_owned()));
    assert_eq!(p.to_path_string(), "/a/{b}");
    assert_eq!(p.duplicate().to_path_string(), "/a/{b}");
    assert_eq!(RoutePath::from_segment(st("z")).to_path_string(), "/z");
    assert_eq!(st("q").duplicate(), st("q"));
}

#[test]
fn segment_text_forms() {
    assert_eq!(st("foo").to_segment_string(), "foo");
    assert_eq!(RoutePathSegment::Wildcard("bar".to_owned()).to_segment_string(), "{bar}");
    assert_eq!(RoutePathSegment::Wildcard("bar".to_owned()).name(), "bar");
    let ids: Vec<String> = RoutePath::parse("/a/{b}").iter().map(|s| s.to_segment_string()).collect();
    assert_eq!(ids, vec!["a".to_owned(), "{b}".to_owned()]);
    let matched = RoutePathMatched::from_segment(RoutePathMatchedSegment::Static("a".to_owned()));
    assert_eq!(matched.iter().count(), 1);
}
