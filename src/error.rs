//! The library's error type.
use crate::method::{method_name, HttpMethod};
use crate::text::append_str;
use vstd::prelude::*;

verus! {

/// Whether the client or the server caused an error.
#[derive(Debug, Clone, Copy, PartialEq, Eq, Structural)]
pub enum ErrorSource {
    /// The client caused the error (a 400-class status).
    Client,
    /// The server caused the error (a 500-class status).
    Server,
}

impl ErrorSource {
    /// Is this a client error?
    pub fn is_client(&self) -> (r: bool)
        ensures
            r <==> *self == ErrorSource::Client,
    {
        match self {
            ErrorSource::Client => true,
            ErrorSource::Server => false,
        }
    }

    /// Is this a server error?
    pub fn is_server(&self) -> (r: bool)
        ensures
            r <==> *self == ErrorSource::Server,
    {
        match self {
            ErrorSource::Client => false,
            ErrorSource::Server => true,
        }
    }
}

/// The errors of routing, parameter extraction and state lookup. Errors of
/// outside code (a body that is not UTF-8, a JSON codec, the transport)
/// carry that code's message.
#[derive(Debug, Clone, PartialEq, Eq)]
pub enum Error {
    /// A request body could not be read as a string.
    StringError(String),
    /// Client-side JSON data could not be decoded.
    JsonError(String),
    /// The transport failed.
    ServerError(String),
    /// A path parameter was missing.
    MissingPathParameterError(String),
    /// A query parameter was missing.
    MissingQueryParameterError(String),
    /// A header was missing.
    MissingHeaderError(String),
    /// A cookie was missing.
    MissingCookieError(String),
    /// A path parameter failed to parse: its name, then the reason.
    PathParameterParseError(String, String),
    /// A query parameter failed to parse: its name, then the reason.
    QueryParameterParseError(String, String),
    /// A header failed to parse: its name, then the reason.
    HeaderParseError(String, String),
    /// A cookie failed to parse: its name, then the reason.
    CookieParseError(String, String),
    /// A state value of a type that was never registered was requested.
    UnknownStateTypeError(String),
    /// A next capability was requested from within a route handler.
    NoNextFunction,
    /// No declared path matches the request path.
    NotFound,
    /// The path matches but the method does not: the methods that do.
    MethodNotAllowed(Vec<HttpMethod>),
    /// The body does not match the `Content-Type` header.
    UnsupportedMediaType,
    /// Server-side JSON data could not be encoded.
    ServerJsonError(String),
}

/// Whether an error is the client's doing.
pub open spec fn caused_by_client(e: Error) -> bool {
    match e {
        Error::ServerError(_) | Error::MissingPathParameterError(_)
        | Error::UnknownStateTypeError(_) | Error::NoNextFunction | Error::ServerJsonError(_) => false,
        _ => true,
    }
}

/// The HTTP status code that answers an error.
pub open spec fn status_of(e: Error) -> u16 {
    match e {
        Error::NotFound => 404,
        Error::MethodNotAllowed(_) => 405,
        Error::UnsupportedMediaType => 415,
        _ => if caused_by_client(e) {
            400
        } else {
            500
        },
    }
}

/// The text of an `Allow` header: the method names joined by `, `.
pub open spec fn allow_text(ms: Seq<HttpMethod>) -> Seq<char>
    decreases ms.len(),
{
    if ms.len() == 0 {
        Seq::empty()
    } else if ms.len() == 1 {
        method_name(ms[0])
    } else {
        allow_text(ms.drop_last()) + ", "@ + method_name(ms.last())
    }
}

impl Error {
    /// The `Allow` header that answers `MethodNotAllowed`: the allowed
    /// methods, joined by `, `; `None` for any other error.
    pub fn allow_header(&self) -> (r: Option<String>)
        ensures
            match *self {
                Error::MethodNotAllowed(ms) => r matches Some(t) && t@ == allow_text(ms@),
                _ => r is None,
            },
    {
        proof {
            reveal_strlit(", ");
        }
        match self {
            Error::MethodNotAllowed(ms) => {
                let mut out = String::new();
                let mut i: usize = 0;
                while i < ms.len()
                    invariant
                        i <= ms@.len(),
                        out@ == allow_text(ms@.take(i as int)),
                    decreases ms@.len() - i,
                {
                    if i > 0 {
                        append_str(&mut out, ", ");
                    }
                    append_str(&mut out, ms[i].as_str());
                    proof {
                        assert(ms@.take(i + 1).drop_last() =~= ms@.take(i as int));
                        if i == 0 {
                            assert(ms@.take(1) =~= seq![ms@[0]]);
                            assert(out@ =~= allow_text(ms@.take(1)));
                        } else {
                            assert(out@ =~= allow_text(ms@.take(i + 1)));
                        }
                    }
                    i = i + 1;
                }
                assert(ms@.take(ms@.len() as int) =~= ms@);
                Some(out)
            },
            _ => None,
        }
    }

    /// Whether the client or the server caused the error.
    pub fn source(&self) -> (r: ErrorSource)
        ensures
            r == (if caused_by_client(*self) {
                ErrorSource::Client
            } else {
                ErrorSource::Server
            }),
    {
        match self {
            Error::StringError(_)
            | Error::JsonError(_)
            | Error::MissingQueryParameterError(_)
            | Error::MissingHeaderError(_)
            | Error::MissingCookieError(_)
            | Error::PathParameterParseError(_, _)
            | Error::QueryParameterParseError(_, _)
            | Error::HeaderParseError(_, _)
            | Error::CookieParseError(_, _)
            | Error::NotFound
            | Error::MethodNotAllowed(_)
            | Error::UnsupportedMediaType => ErrorSource::Client,
            Error::ServerError(_)
            | Error::MissingPathParameterError(_)
            | Error::UnknownStateTypeError(_)
            | Error::NoNextFunction
            | Error::ServerJsonError(_) => ErrorSource::Server,
        }
    }

    /// The HTTP status code with which to answer the error.
    pub fn response_status(&self) -> (r: u16)
        ensures
            r == status_of(*self),
    {
        match self {
            Error::StringError(_)
            | Error::JsonError(_)
            | Error::MissingQueryParameterError(_)
            | Error::MissingHeaderError(_)
            | Error::MissingCookieError(_)
            | Error::PathParameterParseError(_, _)
            | Error::QueryParameterParseError(_, _)
            | Error::HeaderParseError(_, _)
            | Error::CookieParseError(_, _) => 400,
            Error::NotFound => 404,
            Error::MethodNotAllowed(_) => 405,
            Error::UnsupportedMediaType => 415,
            Error::ServerError(_)
            | Error::MissingPathParameterError(_)
            | Error::UnknownStateTypeError(_)
            | Error::NoNextFunction
            | Error::ServerJsonError(_) => 500,
        }
    }
}

/// The message of an error.
pub open spec fn error_message(e: Error) -> Seq<char> {
    match e {
        Error::StringError(m) => "string parse error: "@ + m@,
        Error::JsonError(m) => "json error: "@ + m@,
        Error::ServerError(m) => "server error: "@ + m@,
        Error::MissingPathParameterError(n) => "missing path parameter: '"@ + n@ + "'"@,
        Error::MissingQueryParameterError(n) => "missing query parameter: '"@ + n@ + "'"@,
        Error::MissingHeaderError(n) => "missing header: '"@ + n@ + "'"@,
        Error::MissingCookieError(n) => "missing cookie: '"@ + n@ + "'"@,
        Error::UnknownStateTypeError(n) => "unknown state type: '"@ + n@ + "'"@,
        Error::ServerJsonError(m) => "server json error: "@ + m@,
        Error::PathParameterParseError(n, r) => "failed to parse path parameter '"@ + n@ + "': "@ + r@,
        Error::QueryParameterParseError(n, r) => "failed to parse query parameter '"@ + n@ + "': "@ + r@,
        Error::HeaderParseError(n, r) => "failed to parse header '"@ + n@ + "': "@ + r@,
        Error::CookieParseError(n, r) => "failed to parse cookie '"@ + n@ + "': "@ + r@,
        Error::NoNextFunction => "there is no next function, as this is a route handler"@,
        Error::NotFound => "the requested path could not be found"@,
        Error::MethodNotAllowed(_) => "the requested method is not allowed"@,
        Error::UnsupportedMediaType => "the request body content does not match the `Content-Type` header, or the header is not present"@,
    }
}

/// The message shown to the client: the error's own message for a client
/// error, a fixed text for a server error.
pub open spec fn public_message(e: Error) -> Seq<char> {
    if caused_by_client(e) {
        error_message(e)
    } else {
        "An internal error occurred"@
    }
}

impl Error {
    /// The message of the error.
    pub fn message(&self) -> (r: String)
        ensures
            r@ == error_message(*self),
    {
        proof {
            reveal_strlit("'");
            reveal_strlit("': ");
            reveal_strlit("An internal error occurred");
            reveal_strlit("failed to parse cookie '");
            reveal_strlit("failed to parse header '");
            reveal_strlit("failed to parse path parameter '");
            reveal_strlit("failed to parse query parameter '");
            reveal_strlit("json error: ");
            reveal_strlit("missing cookie: '");
            reveal_strlit("missing header: '");
            reveal_strlit("missing path parameter: '");
            reveal_strlit("missing query parameter: '");
            reveal_strlit("server error: ");
            reveal_strlit("server json error: ");
            reveal_strlit("string parse error: ");
            reveal_strlit("the request body content does not match the `Content-Type` header, or the header is not present");
            reveal_strlit("the requested method is not allowed");
            reveal_strlit("the requested path could not be found");
            reveal_strlit("there is no next function, as this is a route handler");
            reveal_strlit("unknown state type: '");
        }
        let mut out = String::new();
        match self {
            Error::StringError(m) => {
                append_str(&mut out, "string parse error: ");
                append_str(&mut out, m.as_str());
            },
            Error::JsonError(m) => {
                append_str(&mut out, "json error: ");
                append_str(&mut out, m.as_str());
            },
            Error::ServerError(m) => {
                append_str(&mut out, "server error: ");
                append_str(&mut out, m.as_str());
            },
            Error::MissingPathParameterError(n) => {
                append_str(&mut out, "missing path parameter: '");
                append_str(&mut out, n.as_str());
                append_str(&mut out, "'");
            },
            Error::MissingQueryParameterError(n) => {
                append_str(&mut out, "missing query parameter: '");
                append_str(&mut out, n.as_str());
                append_str(&mut out, "'");
            },
            Error::MissingHeaderError(n) => {
                append_str(&mut out, "missing header: '");
                append_str(&mut out, n.as_str());
                append_str(&mut out, "'");
            },
            Error::MissingCookieError(n) => {
                append_str(&mut out, "missing cookie: '");
                append_str(&mut out, n.as_str());
                append_str(&mut out, "'");
            },
            Error::UnknownStateTypeError(n) => {
                append_str(&mut out, "unknown state type: '");
                append_str(&mut out, n.as_str());
                append_str(&mut out, "'");
            },
            Error::ServerJsonError(m) => {
                append_str(&mut out, "server json error: ");
                append_str(&mut out, m.as_str());
            },
            Error::PathParameterParseError(n, r) => {
                append_str(&mut out, "failed to parse path parameter '");
                append_str(&mut out, n.as_str());
                append_str(&mut out, "': ");
                append_str(&mut out, r.as_str());
            },
            Error::QueryParameterParseError(n, r) => {
                append_str(&mut out, "failed to parse query parameter '");
                append_str(&mut out, n.as_str());
                append_str(&mut out, "': ");
                append_str(&mut out, r.as_str());
            },
            Error::HeaderParseError(n, r) => {
                append_str(&mut out, "failed to parse header '");
                append_str(&mut out, n.as_str());
                append_str(&mut out, "': ");
                append_str(&mut out, r.as_str());
            },
            Error::CookieParseError(n, r) => {
                append_str(&mut out, "failed to parse cookie '");
                append_str(&mut out, n.as_str());
                append_str(&mut out, "': ");
                append_str(&mut out, r.as_str());
            },
            Error::NoNextFunction => {
                append_str(&mut out, "there is no next function, as this is a route handler");
            },
            Error::NotFound => {
                append_str(&mut out, "the requested path could not be found");
            },
            Error::MethodNotAllowed(_) => {
                append_str(&mut out, "the requested method is not allowed");
            },
            Error::UnsupportedMediaType => {
                append_str(&mut out, "the request body content does not match the `Content-Type` header, or the header is not present");
            },
        }
        out
    }

    /// The message to show the client: the error's own message for a client
    /// error, a fixed text for a server error, whose details are for the
    /// operator only.
    pub fn public_message(&self) -> (r: String)
        ensures
            r@ == public_message(*self),
    {
        proof {
            reveal_strlit("An internal error occurred");
        }
        match self.source() {
            ErrorSource::Client => self.message(),
            ErrorSource::Server => "An internal error occurred".to_owned(),
        }
    }
}

} // verus!
