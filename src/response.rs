//! Responses: how handlers and middleware build and combine them.
use crate::cookie::SetCookie;
use crate::error::Error;
use crate::keyed::{find_last, last_index, lemma_last_index_bounds};
use crate::text::strings_view;
use vstd::prelude::*;

verus! {

/// The body of an error response: the error's message.
#[derive(Debug, Clone, PartialEq, Eq)]
pub struct ErrorBody {
    /// The error message.
    pub error: String,
}

impl ErrorBody {
    /// An error body with the given message.
    pub fn new(error: String) -> (r: Self)
        ensures
            r.error == error,
    {
        ErrorBody { error }
    }
}

/// The values of header `n` in a list of header entries, in order.
pub open spec fn header_values(hs: Seq<(String, Vec<String>)>, n: Seq<char>) -> Seq<Seq<char>>
    decreases hs.len(),
{
    if hs.len() == 0 {
        Seq::empty()
    } else {
        header_values(hs.drop_last(), n) + if hs.last().0@ == n {
            strings_view(hs.last().1@)
        } else {
            Seq::empty()
        }
    }
}

/// The header entries of an optional list; none for `None`.
pub open spec fn headers_of(hs: Option<Vec<(String, Vec<String>)>>) -> Seq<(String, Vec<String>)> {
    match hs {
        Some(v) => v@,
        None => Seq::empty(),
    }
}

/// The cookies of an optional list; none for `None`.
pub open spec fn cookies_of(cs: Option<Vec<SetCookie>>) -> Seq<SetCookie> {
    match cs {
        Some(v) => v@,
        None => Seq::empty(),
    }
}

proof fn lemma_header_values_append_last(
    hs: Seq<(String, Vec<String>)>,
    k: int,
    x: (String, Vec<String>),
    v: Seq<char>,
    n: Seq<char>,
)
    requires
        0 <= k < hs.len(),
        k == last_index(hs, x.0@),
        hs[k].0@ == x.0@,
        strings_view(x.1@) == strings_view(hs[k].1@).push(v),
    ensures
        header_values(hs.update(k, x), n) == header_values(hs, n) + if n == x.0@ {
            seq![v]
        } else {
            Seq::<Seq<char>>::empty()
        },
    decreases hs.len(),
{
    let hs2 = hs.update(k, x);
    if k == hs.len() - 1 {
        assert(hs2.drop_last() =~= hs.drop_last());
        if n == x.0@ {
            assert(strings_view(x.1@) =~= strings_view(hs[k].1@) + seq![v]);
            assert(header_values(hs2, n) =~= header_values(hs, n) + seq![v]);
        } else {
            assert(header_values(hs2, n) =~= header_values(hs, n) + Seq::<Seq<char>>::empty());
        }
    } else {
        assert(hs2.drop_last() =~= hs.drop_last().update(k, x));
        assert(hs.last().0@ != x.0@);
        lemma_header_values_append_last(hs.drop_last(), k, x, v, n);
        if n == x.0@ {
            assert(header_values(hs2, n) =~= header_values(hs, n) + seq![v]);
        } else {
            assert(header_values(hs2, n) =~= header_values(hs, n) + Seq::<Seq<char>>::empty());
        }
    }
}

/// Appends `value` to header `name`, after the values it already has.
fn append_header(hs: &mut Vec<(String, Vec<String>)>, name: &str, value: &str)
    ensures
        forall|n: Seq<char>|
            #[trigger] header_values(final(hs)@, n) == header_values(old(hs)@, n) + if n == name@ {
                seq![value@]
            } else {
                Seq::<Seq<char>>::empty()
            },
{
    let ghost before = hs@;
    match find_last(hs, name) {
        Some(k) => {
            proof {
                lemma_last_index_bounds(before, name@);
            }
            let mut vals = hs[k].1.clone();
            assert(vals@ == before[k as int].1@);
            vals.push(value.to_owned());
            let nm = hs[k].0.clone();
            proof {
                assert(strings_view(vals@) =~= strings_view(before[k as int].1@).push(value@));
            }
            hs.set(k, (nm, vals));
            proof {
                assert forall|n: Seq<char>|
                    #[trigger] header_values(hs@, n) == header_values(before, n) + if n == name@ {
                        seq![value@]
                    } else {
                        Seq::<Seq<char>>::empty()
                    } by {
                    lemma_header_values_append_last(before, k as int, (nm, vals), value@, n);
                }
            }
        },
        None => {
            let mut vals: Vec<String> = Vec::new();
            vals.push(value.to_owned());
            let nm = name.to_owned();
            hs.push((nm, vals));
            proof {
                assert forall|n: Seq<char>|
                    #[trigger] header_values(hs@, n) == header_values(before, n) + if n == name@ {
                        seq![value@]
                    } else {
                        Seq::<Seq<char>>::empty()
                    } by {
                    assert(hs@.drop_last() =~= before);
                    assert(strings_view(vals@) =~= seq![value@]);
                }
            }
        },
    }
}

/// The parts of a successful response, each set or left to its default.
#[derive(Debug, Clone, Default)]
pub struct ResponseInner {
    /// The status code.
    pub code: Option<u16>,
    /// The body.
    pub body: Option<String>,
    /// The headers, each name with its values.
    pub headers: Option<Vec<(String, Vec<String>)>>,
    /// The cookies to set.
    pub cookies: Option<Vec<SetCookie>>,
}

/// A response: its parts, or an error that the transport turns into one.
#[derive(Debug, Clone)]
pub enum Response {
    /// A response built by a handler or middleware.
    Success(ResponseInner),
    /// A failure; a response is still sent, and the error is reported.
    Failure(Error),
}

impl Response {
    /// An empty successful response: no status code (200), no body.
    pub fn new() -> (r: Self)
        ensures
            r matches Response::Success(i) && i.code is None && i.body is None && i.headers is None
                && i.cookies is None,
    {
        Response::Success(ResponseInner { code: None, body: None, headers: None, cookies: None })
    }

    /// A failed response carrying `err`.
    pub fn new_error(err: Error) -> (r: Self)
        ensures
            r == Response::Failure(err),
    {
        Response::Failure(err)
    }

    /// Sets the status code; an error response is left as it is.
    pub fn status_code(self, code: u16) -> (r: Self)
        ensures
            match self {
                Response::Success(i) => r matches Response::Success(j) && j == (ResponseInner { code: Some(code), ..i }),
                Response::Failure(_) => r == self,
            },
    {
        match self {
            Response::Success(mut inner) => {
                inner.code = Some(code);
                Response::Success(inner)
            },
            Response::Failure(e) => Response::Failure(e),
        }
    }

    /// Sets the body; an error response is left as it is.
    pub fn body(self, body: &str) -> (r: Self)
        ensures
            match self {
                Response::Success(i) => r matches Response::Success(j) && j.body matches Some(b) && b@ == body@
                    && j.code == i.code && j.headers == i.headers && j.cookies == i.cookies,
                Response::Failure(_) => r == self,
            },
    {
        match self {
            Response::Success(mut inner) => {
                inner.body = Some(body.to_owned());
                Response::Success(inner)
            },
            Response::Failure(e) => Response::Failure(e),
        }
    }

    /// Sets the body if it is unset or empty; an error response is left as
    /// it is.
    pub fn body_or(self, body: &str) -> (r: Self)
        ensures
            match self {
                Response::Success(i) => r matches Response::Success(j) && j.code == i.code && j.headers
                    == i.headers && j.cookies == i.cookies && (match i.body {
                    Some(b) => if b@.len() == 0 {
                        j.body matches Some(nb) && nb@ == body@
                    } else {
                        j.body == i.body
                    },
                    None => j.body matches Some(nb) && nb@ == body@,
                }),
                Response::Failure(_) => r == self,
            },
    {
        match self {
            Response::Success(mut inner) => {
                let empty = match &inner.body {
                    Some(b) => b.as_str().is_empty(),
                    None => true,
                };
                if empty {
                    inner.body = Some(body.to_owned());
                }
                Response::Success(inner)
            },
            Response::Failure(e) => Response::Failure(e),
        }
    }

    /// Adds `value` to header `name`, after any values it has; an error
    /// response is left as it is.
    pub fn header(self, name: &str, value: &str) -> (r: Self)
        ensures
            match self {
                Response::Success(i) => r matches Response::Success(j) && j.code == i.code && j.body == i.body
                    && j.cookies == i.cookies && forall|n: Seq<char>|
                    #[trigger] header_values(headers_of(j.headers), n) == header_values(
                        headers_of(i.headers),
                        n,
                    ) + if n == name@ {
                        seq![value@]
                    } else {
                        Seq::<Seq<char>>::empty()
                    },
                Response::Failure(_) => r == self,
            },
    {
        match self {
            Response::Success(mut inner) => {
                let mut hs = match inner.headers {
                    Some(hs) => hs,
                    None => Vec::new(),
                };
                append_header(&mut hs, name, value);
                inner.headers = Some(hs);
                Response::Success(inner)
            },
            Response::Failure(e) => Response::Failure(e),
        }
    }

    /// Adds a cookie to set; an error response is left as it is.
    pub fn cookie(self, cookie: SetCookie) -> (r: Self)
        ensures
            match self {
                Response::Success(i) => r matches Response::Success(j) && j.code == i.code && j.body == i.body
                    && j.headers == i.headers && cookies_of(j.cookies) == cookies_of(i.cookies).push(
                    cookie,
                ),
                Response::Failure(_) => r == self,
            },
    {
        match self {
            Response::Success(mut inner) => {
                let mut cs = match inner.cookies {
                    Some(cs) => cs,
                    None => Vec::new(),
                };
                cs.push(cookie);
                inner.cookies = Some(cs);
                Response::Success(inner)
            },
            Response::Failure(e) => Response::Failure(e),
        }
    }

    /// Combines two responses; where both set a part, `other` wins: its
    /// status code and body replace these, its header values and cookies
    /// come after these. An error response is left as it is; an error
    /// `other` changes nothing.
    #[verifier::spinoff_prover]
    #[verifier::rlimit(60)]
    pub fn and(self, other: Response) -> (r: Self)
        ensures
            match (self, other) {
                (Response::Success(i), Response::Success(o)) => r matches Response::Success(j) && j.code == (
                if o.code is Some {
                    o.code
                } else {
                    i.code
                }) && j.body == (if o.body is Some {
                    o.body
                } else {
                    i.body
                }) && cookies_of(j.cookies) == cookies_of(i.cookies) + cookies_of(o.cookies)
                    && forall|n: Seq<char>|
                    #[trigger] header_values(headers_of(j.headers), n) == header_values(
                        headers_of(i.headers),
                        n,
                    ) + header_values(headers_of(o.headers), n),
                _ => r == self,
            },
    {
        match self {
            Response::Success(mut inner) => match other {
                Response::Success(o) => {
                    let ghost i0 = inner;
                    if o.code.is_some() {
                        inner.code = o.code;
                    }
                    let ghost ob = o.body;
                    if o.body.is_some() {
                        inner.body = o.body;
                    }
                    let mut hs = match inner.headers {
                        Some(hs) => hs,
                        None => Vec::new(),
                    };
                    let ohs = match o.headers {
                        Some(v) => v,
                        None => Vec::new(),
                    };
                    let mut e: usize = 0;
                    assert(ohs@.take(0) =~= Seq::<(String, Vec<String>)>::empty());
                    assert forall|n: Seq<char>| #[trigger] header_values(hs@, n) == header_values(headers_of(i0.headers), n) + header_values(ohs@.take(0), n) by {
                        assert(header_values(headers_of(i0.headers), n) + Seq::<Seq<char>>::empty() =~= header_values(headers_of(i0.headers), n));
                    }
                    while e < ohs.len()
                        invariant
                            e <= ohs@.len(),
                            forall|n: Seq<char>|
                                #[trigger] header_values(hs@, n) == header_values(
                                    headers_of(i0.headers),
                                    n,
                                ) + header_values(ohs@.take(e as int), n),
                        decreases ohs@.len() - e,
                    {
                        let name = &ohs[e].0;
                        let vals = &ohs[e].1;
                        let ghost base = hs@;
                        let mut v: usize = 0;
                        assert forall|n: Seq<char>| #[trigger] header_values(hs@, n) == header_values(base, n) + if n == name@ { strings_view(vals@).take(0) } else { Seq::<Seq<char>>::empty() } by {
                            assert(header_values(base, n) + Seq::<Seq<char>>::empty() =~= header_values(base, n));
                            assert(strings_view(vals@).take(0) =~= Seq::<Seq<char>>::empty());
                        }
                        while v < vals.len()
                            invariant
                                v <= vals@.len(),
                                forall|n: Seq<char>|
                                    #[trigger] header_values(hs@, n) == header_values(base, n) + if n
                                        == name@ {
                                        strings_view(vals@).take(v as int)
                                    } else {
                                        Seq::<Seq<char>>::empty()
                                    },
                            decreases vals@.len() - v,
                        {
                            let ghost mid = hs@;
                            append_header(&mut hs, name.as_str(), vals[v].as_str());
                            proof {
                                assert forall|n: Seq<char>|
                                    #[trigger] header_values(hs@, n) == header_values(base, n) + if n == name@ {
                                        strings_view(vals@).take(v + 1)
                                    } else {
                                        Seq::<Seq<char>>::empty()
                                    } by {
                                    assert(header_values(hs@, n) == header_values(mid, n) + if n == name@ { seq![vals@[v as int]@] } else { Seq::<Seq<char>>::empty() });
                                    if n == name@ {
                                        assert(strings_view(vals@).take(v + 1) =~= strings_view(vals@).take(v as int).push(vals@[v as int]@));
                                    } else {
                                        assert(header_values(base, n) + Seq::<Seq<char>>::empty() + Seq::<Seq<char>>::empty() =~= header_values(base, n) + Seq::<Seq<char>>::empty());
                                    }
                                }
                            }
                            v = v + 1;
                        }
                        proof {
                            assert(strings_view(vals@).take(vals@.len() as int) =~= strings_view(vals@));
                            assert(ohs@.take(e + 1).drop_last() =~= ohs@.take(e as int));
                            assert(ohs@.take(e + 1).last() == ohs@[e as int]);
                            assert forall|n: Seq<char>|
                                #[trigger] header_values(hs@, n) == header_values(
                                    headers_of(i0.headers),
                                    n,
                                ) + header_values(ohs@.take(e + 1), n) by {
                                assert(header_values(ohs@.take(e + 1), n) == header_values(ohs@.take(e as int), n) + if name@ == n { strings_view(vals@) } else { Seq::<Seq<char>>::empty() });
                                assert(header_values(headers_of(i0.headers), n) + header_values(ohs@.take(e + 1), n) =~= header_values(headers_of(i0.headers), n) + header_values(ohs@.take(e as int), n) + if name@ == n { strings_view(vals@) } else { Seq::<Seq<char>>::empty() });
                            }
                        }
                        e = e + 1;
                    }
                    proof {
                        assert(ohs@.take(ohs@.len() as int) =~= ohs@);
                    }
                    inner.headers = Some(hs);
                    let mut cs = match inner.cookies {
                        Some(cs) => cs,
                        None => Vec::new(),
                    };
                    let mut ocs = match o.cookies {
                        Some(v) => v,
                        None => Vec::new(),
                    };
                    cs.append(&mut ocs);
                    inner.cookies = Some(cs);
                    Response::Success(inner)
                },
                Response::Failure(_) => Response::Success(inner),
            },
            Response::Failure(e) => Response::Failure(e),
        }
    }
}

} // verus!
