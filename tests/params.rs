use rum::body::{BodyRaw, BodyString, Json};
use rum::cookie::{CookieMap, SetCookie};
use rum::error::{Error, ErrorSource};
use rum::extract::{
    Cookie, CookieOptional, Header, HeaderOptional, PathParam, QueryParam, QueryParamBool,
    QueryParamOptional, State,
};
use rum::header::HeaderMap;
use rum::method::HttpMethod;
use rum::parse::{ParseCookie, ParseHeader, ParsePathParam, ParseQueryParam, ParseValue};
use rum::path_params::PathParamMap;
use rum::query::QueryParamMap;
use rum::response::{ErrorBody, ResponseInner};
use rum::route_path::{RoutePathMatched, RoutePathMatchedSegment};

#[test]
fn query_map_parsing() {
    let q = QueryParamMap::parse("/test?num=123&flag&name=Will%20S&=skip&x=1=2");
    assert_eq!(q.get("num").unwrap(), "123");
    assert_eq!(q.get_as::<i64>("num").unwrap(), 123);
    assert_eq!(q.get_optional("flag"), Some(""));
    assert!(q.get_bool("flag"));
    assert!(!q.get_bool("missing"));
    assert_eq!(q.get("name").unwrap(), "Will S");
    assert_eq!(q.get("x").unwrap(), "1");
    assert_eq!(q.get_optional(""), None);
    assert_eq!(q.get("missing"), Err(Error::MissingQueryParameterError("missing".to_owned())));
    assert!(matches!(
        q.get_as::<i64>("name"),
        Err(Error::QueryParameterParseError(n, _)) if n == "name"
    ));
    assert_eq!(q.get_optional_as::<i64>("num").unwrap(), Some(123));
    assert_eq!(q.get_optional_as::<i64>("missing").unwrap(), None);
}

#[test]
fn query_map_without_question_mark_and_last_wins() {
    let q = QueryParamMap::parse("a=1&a=2");
    assert_eq!(q.get("a").unwrap(), "2");
    let empty = QueryParamMap::new();
    assert_eq!(empty.get_optional("a"), None);
    let bad = QueryParamMap::parse("?v=%FF");
    assert_eq!(bad.get_optional("v"), Some(""));
}

#[test]
fn value_parsing() {
    assert_eq!(bool::parse_value("true"), Ok(true));
    assert_eq!(bool::parse_value("false"), Ok(false));
    assert!(bool::parse_value("TRUE").is_err());
    assert_eq!(char::parse_value("c"), Ok('c'));
    assert!(char::parse_value("cc").is_err());
    assert!(char::parse_value("").is_err());
    assert_eq!(i64::parse_value("1729"), Ok(1729));
    assert_eq!(i64::parse_value("-5"), Ok(-5));
    assert!(i64::parse_value("1.618").is_err());
    assert_eq!(u64::parse_value("35792"), Ok(35792));
    assert!(u64::parse_value("-1").is_err());
    assert_eq!(String::parse_value("Rust"), Ok("Rust".to_owned()));
    assert_eq!(<i64 as ParsePathParam>::parse("n", "7"), Ok(7));
    assert!(matches!(<i64 as ParseQueryParam>::parse("n", "x"), Err(Error::QueryParameterParseError(..))));
    assert!(matches!(<i64 as ParseHeader>::parse("n", "x"), Err(Error::HeaderParseError(..))));
    assert!(matches!(<i64 as ParseCookie>::parse("n", "x"), Err(Error::CookieParseError(..))));
    assert!(matches!(<bool as ParsePathParam>::parse("parse_error", "foo"), Err(Error::PathParameterParseError(n, _)) if n == "parse_error"));
}

#[test]
fn path_params_from_matched_path() {
    let mut m = RoutePathMatched::new();
    m.push_segment(RoutePathMatchedSegment::Static("test".to_owned()));
    m.push_segment(RoutePathMatchedSegment::Wildcard("num".to_owned(), "123".to_owned()));
    let params = PathParamMap::from_matched(&m);
    assert_eq!(params.get("num").unwrap(), "123");
    assert_eq!(params.get_as::<u64>("num").unwrap(), 123);
    assert_eq!(params.get("test"), Err(Error::MissingPathParameterError("test".to_owned())));
    assert!(matches!(params.get_as::<bool>("num"), Err(Error::PathParameterParseError(..))));
    assert_eq!(params.iter().to_vec(), vec![("num".to_owned(), "123".to_owned())]);
}

#[test]
fn header_map_gathers_values_and_lowercases_lookup() {
    let pairs = vec![
        ("test-header".to_owned(), "foo".to_owned()),
        ("num".to_owned(), "123".to_owned()),
        ("test-header".to_owned(), "bar".to_owned()),
    ];
    let headers = HeaderMap::from_pairs(&pairs);
    assert_eq!(headers.get("Test-Header").unwrap().to_vec(), vec!["foo".to_owned(), "bar".to_owned()]);
    assert_eq!(headers.get_as::<i64>("num").unwrap(), vec![123]);
    assert_eq!(headers.get_optional_as::<i64>("missing").unwrap(), None);
    assert_eq!(headers.get("missing"), Err(Error::MissingHeaderError("missing".to_owned())));
    assert!(matches!(headers.get_as::<i64>("test-header"), Err(Error::HeaderParseError(..))));
    assert_eq!(headers.get_optional("NUM").map(|v| v.len()), Some(1));
    assert_eq!(headers.get_optional_as::<String>("num").unwrap(), Some(vec!["123".to_owned()]));
}

#[test]
fn cookie_map_lookups() {
    let cookies = CookieMap::from_pairs(vec![("num".to_owned(), "123".to_owned())]);
    assert_eq!(cookies.get("num").unwrap(), "123");
    assert_eq!(cookies.get_as::<i64>("num").unwrap(), 123);
    assert_eq!(cookies.get_optional("invalid"), None);
    assert_eq!(cookies.get_optional_as::<i64>("invalid").unwrap(), None);
    assert_eq!(cookies.get_optional_as::<i64>("num").unwrap(), Some(123));
    assert_eq!(cookies.get("missing"), Err(Error::MissingCookieError("missing".to_owned())));
    assert!(matches!(cookies.get_as::<bool>("num"), Err(Error::CookieParseError(..))));
}

#[test]
fn set_cookie_strings() {
    let c1 = SetCookie::new("test_cookie_1", "Hello, response cookie!").http_only(true);
    assert_eq!(c1.to_cookie_string(), "test_cookie_1=Hello, response cookie!; HttpOnly");
    let c2 = SetCookie::new("test_cookie_2", "Goodbye, response cookie!").expire_after(35792);
    assert_eq!(c2.to_cookie_string(), "test_cookie_2=Goodbye, response cookie!; Max-Age=35792");
    let c3 = SetCookie::new("a", "b").expire_at(100, 40).http_only(true);
    assert_eq!(c3.to_cookie_string(), "a=b; Max-Age=60; HttpOnly");
    let c4 = SetCookie::new("a", "b").expire_at(10, 40);
    assert_eq!(c4.max_age, Some(0));
    assert_eq!(SetCookie::new("a", "b").expire_after(0).to_cookie_string(), "a=b; Max-Age=0");
    assert_eq!(SetCookie::new("a", "").to_cookie_string(), "a=");
}

#[test]
fn error_sources_and_statuses() {
    assert_eq!(Error::NotFound.response_status(), 404);
    assert_eq!(Error::MethodNotAllowed(vec![HttpMethod::Get]).response_status(), 405);
    assert_eq!(Error::UnsupportedMediaType.response_status(), 415);
    assert_eq!(Error::MissingQueryParameterError("q".to_owned()).response_status(), 400);
    assert_eq!(Error::MissingPathParameterError("p".to_owned()).response_status(), 500);
    assert_eq!(Error::UnknownStateTypeError("i32".to_owned()).response_status(), 500);
    assert_eq!(Error::NoNextFunction.source(), ErrorSource::Server);
    assert_eq!(Error::NotFound.source(), ErrorSource::Client);
    assert!(ErrorSource::Client.is_client());
    assert!(!ErrorSource::Client.is_server());
    assert!(ErrorSource::Server.is_server());
    assert_eq!(
        Error::MethodNotAllowed(vec![HttpMethod::Get, HttpMethod::Head]).allow_header(),
        Some("GET, HEAD".to_owned())
    );
    assert_eq!(Error::NotFound.allow_header(), None);
}

#[test]
fn wrappers_give_back_their_values() {
    assert_eq!(BodyString("x".to_owned()).into_inner(), "x");
    assert_eq!(Json(5).into_inner(), 5);
    assert_eq!(BodyRaw(vec![159, 146, 150]).bytes(), &[159, 146, 150]);
    assert_eq!(State(3).into_inner(), 3);
    assert_eq!(PathParam(1).into_inner(), 1);
    assert_eq!(QueryParam("a").into_inner(), "a");
    assert_eq!(QueryParamOptional(Some(2)).into_inner(), Some(2));
    assert!(QueryParamBool(true).into_inner());
    assert_eq!(Header(vec![1]).into_inner(), vec![1]);
    assert_eq!(HeaderOptional::<i32>(None).into_inner(), None);
    assert_eq!(Cookie('c').into_inner(), 'c');
    assert_eq!(CookieOptional(Some(1)).into_inner(), Some(1));
    assert_eq!(ErrorBody::new("boom".to_owned()).error, "boom");
    assert_eq!(ResponseInner::default().code, None);
}

#[test]
fn error_messages() {
    assert_eq!(
        Error::MissingQueryParameterError("missing".to_owned()).message(),
        "missing query parameter: 'missing'"
    );
    assert_eq!(
        Error::PathParameterParseError("parse_error".to_owned(), "bad".to_owned()).message(),
        "failed to parse path parameter 'parse_error': bad"
    );
    assert_eq!(Error::NotFound.message(), "the requested path could not be found");
    assert_eq!(Error::NotFound.public_message(), "the requested path could not be found");
    assert_eq!(
        Error::UnknownStateTypeError("i32".to_owned()).message(),
        "unknown state type: 'i32'"
    );
    assert_eq!(
        Error::UnknownStateTypeError("i32".to_owned()).public_message(),
        "An internal error occurred"
    );
    assert_eq!(
        Error::NoNextFunction.message(),
        "there is no next function, as this is a route handler"
    );
}

#[test]
fn parse_errors_carry_the_parser_reason() {
    let c = CookieMap::from_pairs(vec![("n".to_owned(), "x".to_owned())]);
    assert_eq!(
        c.get_as::<i64>("n"),
        Err(Error::CookieParseError("n".to_owned(), "x".parse::<i64>().unwrap_err().to_string()))
    );
    assert_eq!(
        <bool as ParseValue>::parse_value("yes"),
        Err("provided string was not `true` or `false`".to_owned())
    );
    let q = QueryParamMap::parse("?c=ab");
    assert_eq!(
        q.get_as::<char>("c"),
        Err(Error::QueryParameterParseError("c".to_owned(), "too many characters in string".to_owned()))
    );
}

#[test]
fn decimal_parsing_edges() {
    assert_eq!(i64::parse_value("+7"), Ok(7));
    assert_eq!(i64::parse_value("-0"), Ok(0));
    assert_eq!(i64::parse_value("-9223372036854775808"), Ok(i64::MIN));
    assert!(i64::parse_value("9223372036854775808").is_err());
    assert!(i64::parse_value("+").is_err());
    assert!(i64::parse_value("").is_err());
    assert!(i64::parse_value(" 1").is_err());
    assert_eq!(u64::parse_value("+18446744073709551615"), Ok(u64::MAX));
    assert!(u64::parse_value("18446744073709551616").is_err());
    assert!(u64::parse_value("-0").is_err());
}
