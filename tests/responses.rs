use rum::cookie::{CookieMap, SetCookie};
use rum::error::Error;
use rum::request::RequestParts;
use rum::response::Response;
use rum::route_path::{RoutePathMatched, RoutePathMatchedSegment};

fn inner(r: &Response) -> &rum::response::ResponseInner {
    match r {
        Response::Success(i) => i,
        Response::Failure(e) => panic!("failure: {:?}", e),
    }
}

fn header(r: &Response, name: &str) -> Vec<String> {
    inner(r)
        .headers
        .as_ref()
        .map(|hs| hs.iter().filter(|(n, _)| n == name).flat_map(|(_, v)| v.clone()).collect())
        .unwrap_or_default()
}

#[test]
fn response_new_and_status_code() {
    let r = Response::new();
    assert_eq!(inner(&r).code, None);
    let r = r.status_code(201);
    assert_eq!(inner(&r).code, Some(201));
}

#[test]
fn response_error_ignores_setters() {
    let r = Response::new_error(Error::NoNextFunction)
        .body("This body will not be set")
        .header("Test-Header", "This header will also not be set")
        .status_code(200);
    assert!(matches!(r, Response::Failure(Error::NoNextFunction)));
    assert!(r.is_reportable());
    assert!(!Response::new_error(Error::NotFound).is_reportable());
    assert!(!Response::new().is_reportable());
}

#[test]
fn response_body_or() {
    let r = Response::new().body_or("first body");
    assert_eq!(inner(&r).body.as_deref(), Some("first body"));
    let r = r.body_or("second body");
    assert_eq!(inner(&r).body.as_deref(), Some("first body"));
    let r = Response::new().body("").body_or("third body");
    assert_eq!(inner(&r).body.as_deref(), Some("third body"));
}

#[test]
fn response_headers_accumulate() {
    let r = Response::new().header("Test-Header", "foo").header("Other", "x").header("Test-Header", "bar");
    assert_eq!(header(&r, "Test-Header"), vec!["foo".to_owned(), "bar".to_owned()]);
    assert_eq!(header(&r, "Other"), vec!["x".to_owned()]);
}

#[test]
fn response_and_prefers_other() {
    let a = Response::new()
        .body("This body will be overridden")
        .status_code(200)
        .header("Test-Header", "a")
        .cookie(SetCookie::new("one", "1"));
    let b = Response::new()
        .body("by this one")
        .header("Test-Header", ": )")
        .cookie(SetCookie::new("two", "2"));
    let r = a.and(b);
    assert_eq!(inner(&r).body.as_deref(), Some("by this one"));
    assert_eq!(inner(&r).code, Some(200));
    assert_eq!(header(&r, "Test-Header"), vec!["a".to_owned(), ": )".to_owned()]);
    let names: Vec<String> = inner(&r).cookies.as_ref().unwrap().iter().map(|c| c.name.clone()).collect();
    assert_eq!(names, vec!["one".to_owned(), "two".to_owned()]);
    let unchanged = Response::new().body("kept").and(Response::new_error(Error::NotFound));
    assert_eq!(inner(&unchanged).body.as_deref(), Some("kept"));
}

#[test]
fn request_parts_from_head() {
    let mut matched = RoutePathMatched::new();
    matched.push_segment(RoutePathMatchedSegment::Static("test".to_owned()));
    matched.push_segment(RoutePathMatchedSegment::Wildcard("num".to_owned(), "234".to_owned()));
    let parts = RequestParts::new(
        "/test/234",
        Some("num=345"),
        matched,
        &[("num".to_owned(), "456".to_owned())],
        &["num=567; other=x".to_owned()],
    );
    assert_eq!(parts.path.to_path_string(), "/test/234");
    assert_eq!(parts.path_params.get_as::<i64>("num").unwrap(), 234);
    assert_eq!(parts.query.get_as::<i64>("num").unwrap(), 345);
    assert_eq!(parts.headers.get_as::<i64>("num").unwrap(), vec![456]);
    assert_eq!(parts.cookies.get_as::<i64>("num").unwrap(), 567);
    assert_eq!(parts.cookies.get("other").unwrap(), "x");
    assert_eq!(parts.matched_path.num_segments(), 2);
}

#[test]
fn cookie_headers_are_split_at_semicolon_space() {
    let c = CookieMap::parse_headers(&[
        "bool=true; char=c; int=1729; string=Rust; custom=hello".to_owned(),
        "late=1;x=2".to_owned(),
        "noequals; int=42".to_owned(),
    ]);
    assert_eq!(c.get_as::<bool>("bool").unwrap(), true);
    assert_eq!(c.get_as::<char>("char").unwrap(), 'c');
    assert_eq!(c.get_as::<i64>("int").unwrap(), 42);
    assert_eq!(c.get("string").unwrap(), "Rust");
    assert_eq!(c.get("late").unwrap(), "1;x");
    assert_eq!(c.get_optional("noequals"), None);
    assert!(matches!(c.get_as::<i64>("custom"), Err(Error::CookieParseError(n, _)) if n == "custom"));
}
