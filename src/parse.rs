//! Parsing of parameter values: path parameters, query parameters, headers
//! and cookies are read from text through one family of parsers.
use crate::error::Error;
use crate::text::text_eq;
use vstd::prelude::*;

verus! {

/// A type whose values can be read from the text of a parameter.
pub trait ParseValue: Sized {
    /// Whether `v` is what the text `s` reads as.
    spec fn parses_to(s: Seq<char>, v: Self) -> bool;

    /// Whether the text `s` reads as no value of the type.
    spec fn rejects(s: Seq<char>) -> bool;

    /// Why the text `s` reads as no value of the type.
    spec fn reason(s: Seq<char>) -> Seq<char>;

    /// Reads a value from `value`, or gives the reason it cannot.
    fn parse_value(value: &str) -> (r: Result<Self, String>)
        ensures
            match r {
                Ok(v) => Self::parses_to(value@, v),
                Err(e) => Self::rejects(value@) && e@ == Self::reason(value@),
            },
    ;
}

/// Whether every character of a text is an ASCII decimal digit.
pub open spec fn all_digits(s: Seq<char>) -> bool {
    forall|i: int| 0 <= i < s.len() ==> '0' <= #[trigger] s[i] <= '9'
}

/// The number that a text of decimal digits denotes.
pub open spec fn digits_value(s: Seq<char>) -> int
    decreases s.len(),
{
    if s.len() == 0 {
        0
    } else {
        digits_value(s.drop_last()) * 10 + (s.last() as int - '0' as int)
    }
}

/// A signed decimal integer: an optional `+` or `-`, then at least one
/// ASCII digit and nothing else, within the range of `i64`.
pub open spec fn parsed_i64(s: Seq<char>) -> Option<i64> {
    let neg = s.len() > 0 && s[0] == '-';
    let ds = if s.len() > 0 && (s[0] == '-' || s[0] == '+') {
        s.drop_first()
    } else {
        s
    };
    let v = if neg {
        -digits_value(ds)
    } else {
        digits_value(ds)
    };
    if ds.len() > 0 && all_digits(ds) && i64::MIN <= v <= i64::MAX {
        Some(v as i64)
    } else {
        None
    }
}

/// The message of the error that `str::parse::<i64>` gives for a text.
pub uninterp spec fn i64_error_message(s: Seq<char>) -> Seq<char>;

/// An unsigned decimal integer: an optional `+`, then at least one ASCII
/// digit and nothing else, within the range of `u64`.
pub open spec fn parsed_u64(s: Seq<char>) -> Option<u64> {
    let ds = if s.len() > 0 && s[0] == '+' {
        s.drop_first()
    } else {
        s
    };
    if ds.len() > 0 && all_digits(ds) && digits_value(ds) <= u64::MAX {
        Some(digits_value(ds) as u64)
    } else {
        None
    }
}

/// The message of the error that `str::parse::<u64>` gives for a text.
pub uninterp spec fn u64_error_message(s: Seq<char>) -> Seq<char>;

/// Relies on `str::parse::<i64>`, documented as `i64::from_str_radix` in
/// radix 10: an optional sign, then digits only, within range; the reason
/// of a failure is its error's message, which depends on the text alone.
#[verifier::external_body]
fn parse_i64(s: &str) -> (r: Result<i64, String>)
    ensures
        r is Ok ==> parsed_i64(s@) == Some(r->Ok_0),
        r is Err ==> parsed_i64(s@) is None && r->Err_0@ == i64_error_message(s@),
{
    match s.parse::<i64>() {
        Ok(v) => Ok(v),
        Err(e) => Err(e.to_string()),
    }
}

/// Relies on `str::parse::<u64>`, documented as `u64::from_str_radix` in
/// radix 10: an optional `+`, then digits only, within range; the reason of
/// a failure is its error's message, which depends on the text alone.
#[verifier::external_body]
fn parse_u64(s: &str) -> (r: Result<u64, String>)
    ensures
        r is Ok ==> parsed_u64(s@) == Some(r->Ok_0),
        r is Err ==> parsed_u64(s@) is None && r->Err_0@ == u64_error_message(s@),
{
    match s.parse::<u64>() {
        Ok(v) => Ok(v),
        Err(e) => Err(e.to_string()),
    }
}

impl ParseValue for String {
    open spec fn parses_to(s: Seq<char>, v: String) -> bool {
        v@ == s
    }

    open spec fn rejects(s: Seq<char>) -> bool {
        false
    }

    open spec fn reason(s: Seq<char>) -> Seq<char> {
        Seq::empty()
    }

    fn parse_value(value: &str) -> (r: Result<String, String>) {
        Ok(value.to_owned())
    }
}

impl ParseValue for bool {
    open spec fn parses_to(s: Seq<char>, v: bool) -> bool {
        (v && s == seq!['t', 'r', 'u', 'e']) || (!v && s == seq!['f', 'a', 'l', 's', 'e'])
    }

    open spec fn rejects(s: Seq<char>) -> bool {
        s != seq!['t', 'r', 'u', 'e'] && s != seq!['f', 'a', 'l', 's', 'e']
    }

    open spec fn reason(s: Seq<char>) -> Seq<char> {
        "provided string was not `true` or `false`"@
    }

    fn parse_value(value: &str) -> (r: Result<bool, String>) {
        proof {
            reveal_strlit("true");
            reveal_strlit("false");
            reveal_strlit("provided string was not `true` or `false`");
        }
        if text_eq(value, "true") {
            assert("true"@ =~= seq!['t', 'r', 'u', 'e']);
            Ok(true)
        } else if text_eq(value, "false") {
            assert("false"@ =~= seq!['f', 'a', 'l', 's', 'e']);
            Ok(false)
        } else {
            assert("true"@ =~= seq!['t', 'r', 'u', 'e']);
            assert("false"@ =~= seq!['f', 'a', 'l', 's', 'e']);
            Err("provided string was not `true` or `false`".to_owned())
        }
    }
}

impl ParseValue for char {
    open spec fn parses_to(s: Seq<char>, v: char) -> bool {
        s == seq![v]
    }

    open spec fn rejects(s: Seq<char>) -> bool {
        s.len() != 1
    }

    open spec fn reason(s: Seq<char>) -> Seq<char> {
        if s.len() == 0 {
            "cannot parse char from empty string"@
        } else {
            "too many characters in string"@
        }
    }

    fn parse_value(value: &str) -> (r: Result<char, String>) {
        proof {
            reveal_strlit("cannot parse char from empty string");
            reveal_strlit("too many characters in string");
        }
        let n = value.unicode_len();
        if n == 1 {
            let c = value.get_char(0);
            assert(value@ =~= seq![c]);
            Ok(c)
        } else if n == 0 {
            Err("cannot parse char from empty string".to_owned())
        } else {
            Err("too many characters in string".to_owned())
        }
    }
}

impl ParseValue for i64 {
    open spec fn parses_to(s: Seq<char>, v: i64) -> bool {
        parsed_i64(s) == Some(v)
    }

    open spec fn rejects(s: Seq<char>) -> bool {
        parsed_i64(s) is None
    }

    open spec fn reason(s: Seq<char>) -> Seq<char> {
        i64_error_message(s)
    }

    fn parse_value(value: &str) -> (r: Result<i64, String>) {
        parse_i64(value)
    }
}

impl ParseValue for u64 {
    open spec fn parses_to(s: Seq<char>, v: u64) -> bool {
        parsed_u64(s) == Some(v)
    }

    open spec fn rejects(s: Seq<char>) -> bool {
        parsed_u64(s) is None
    }

    open spec fn reason(s: Seq<char>) -> Seq<char> {
        u64_error_message(s)
    }

    fn parse_value(value: &str) -> (r: Result<u64, String>) {
        parse_u64(value)
    }
}

/// Parses a path parameter from its text.
pub trait ParsePathParam: Sized {
    /// Parses the parameter `name` from its text `value`.
    fn parse(name: &str, value: &str) -> Result<Self, Error>;
}

/// Parses a query parameter from its text.
pub trait ParseQueryParam: Sized {
    /// Parses the parameter `name` from its text `value`.
    fn parse(name: &str, value: &str) -> Result<Self, Error>;
}

/// Parses a header from its text.
pub trait ParseHeader: Sized {
    /// Parses the header `name` from its text `value`.
    fn parse(name: &str, value: &str) -> Result<Self, Error>;
}

/// Parses a cookie from its text.
pub trait ParseCookie: Sized {
    /// Parses the cookie `name` from its text `value`.
    fn parse(name: &str, value: &str) -> Result<Self, Error>;
}

/// Parses a path parameter `name` from its text `value`.
pub fn parse_path_param<T: ParseValue>(name: &str, value: &str) -> (r: Result<T, Error>)
    ensures
        match r {
            Ok(v) => T::parses_to(value@, v),
            Err(e) => T::rejects(value@) && (e matches Error::PathParameterParseError(n, rsn) && n@ == name@ && rsn@ == T::reason(value@)),
        },
{
    match T::parse_value(value) {
        Ok(v) => Ok(v),
        Err(reason) => Err(Error::PathParameterParseError(name.to_owned(), reason)),
    }
}

/// Parses a query parameter `name` from its text `value`.
pub fn parse_query_param<T: ParseValue>(name: &str, value: &str) -> (r: Result<T, Error>)
    ensures
        match r {
            Ok(v) => T::parses_to(value@, v),
            Err(e) => T::rejects(value@) && (e matches Error::QueryParameterParseError(n, rsn) && n@ == name@ && rsn@ == T::reason(value@)),
        },
{
    match T::parse_value(value) {
        Ok(v) => Ok(v),
        Err(reason) => Err(Error::QueryParameterParseError(name.to_owned(), reason)),
    }
}

/// Parses a header `name` from its text `value`.
pub fn parse_header<T: ParseValue>(name: &str, value: &str) -> (r: Result<T, Error>)
    ensures
        match r {
            Ok(v) => T::parses_to(value@, v),
            Err(e) => T::rejects(value@) && (e matches Error::HeaderParseError(n, rsn) && n@ == name@ && rsn@ == T::reason(value@)),
        },
{
    match T::parse_value(value) {
        Ok(v) => Ok(v),
        Err(reason) => Err(Error::HeaderParseError(name.to_owned(), reason)),
    }
}

/// Parses a cookie `name` from its text `value`.
pub fn parse_cookie<T: ParseValue>(name: &str, value: &str) -> (r: Result<T, Error>)
    ensures
        match r {
            Ok(v) => T::parses_to(value@, v),
            Err(e) => T::rejects(value@) && (e matches Error::CookieParseError(n, rsn) && n@ == name@ && rsn@ == T::reason(value@)),
        },
{
    match T::parse_value(value) {
        Ok(v) => Ok(v),
        Err(reason) => Err(Error::CookieParseError(name.to_owned(), reason)),
    }
}

impl<T: ParseValue> ParsePathParam for T {
    fn parse(name: &str, value: &str) -> Result<Self, Error> {
        parse_path_param(name, value)
    }
}

impl<T: ParseValue> ParseQueryParam for T {
    fn parse(name: &str, value: &str) -> Result<Self, Error> {
        parse_query_param(name, value)
    }
}

impl<T: ParseValue> ParseHeader for T {
    fn parse(name: &str, value: &str) -> Result<Self, Error> {
        parse_header(name, value)
    }
}

impl<T: ParseValue> ParseCookie for T {
    fn parse(name: &str, value: &str) -> Result<Self, Error> {
        parse_cookie(name, value)
    }
}

} // verus!
