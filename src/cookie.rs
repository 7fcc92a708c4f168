//! Cookies: the map of a request's cookies, and cookies to set in a
//! response.
use crate::error::Error;
use crate::keyed::find_last;
use crate::parse::{parse_cookie, ParseValue};
use crate::path_params::{lemma_pairs_view_last, pair_view};
use crate::query::last_pair_value;
use crate::text::{append_char, append_str, split_on, split_on_pair, split_text, split_text_pair, strings_view};
use vstd::prelude::*;

verus! {

/// The cookies of a request. A later cookie of the same name hides an
/// earlier one.
#[derive(Debug)]
pub struct CookieMap {
    entries: Vec<(String, String)>,
}

impl View for CookieMap {
    type V = Seq<(Seq<char>, Seq<char>)>;

    closed spec fn view(&self) -> Seq<(Seq<char>, Seq<char>)> {
        self.entries@.map_values(|e: (String, String)| pair_view(e))
    }
}

/// The cookie that one piece of a `Cookie` header gives: the text before
/// the first `=` is the name, the text after it, up to any next `=`, the
/// value. A piece without `=` gives none.
pub open spec fn cookie_entry(piece: Seq<char>) -> Option<(Seq<char>, Seq<char>)> {
    let parts = split_on(piece, '=');
    if parts.len() >= 2 {
        Some((parts[0], parts[1]))
    } else {
        None
    }
}

/// The cookies of a sequence of pieces, in order.
pub open spec fn cookie_entries(pieces: Seq<Seq<char>>) -> Seq<(Seq<char>, Seq<char>)>
    decreases pieces.len(),
{
    if pieces.len() == 0 {
        Seq::empty()
    } else {
        let init = cookie_entries(pieces.drop_last());
        match cookie_entry(pieces.last()) {
            Some(e) => init.push(e),
            None => init,
        }
    }
}

/// The cookies of a request's `Cookie` headers, in order: each header is
/// split at `; `, each piece at `=`.
pub open spec fn cookie_header_entries(values: Seq<Seq<char>>) -> Seq<(Seq<char>, Seq<char>)>
    decreases values.len(),
{
    if values.len() == 0 {
        Seq::empty()
    } else {
        cookie_header_entries(values.drop_last()) + cookie_entries(
            split_on_pair(values.last(), ';', ' '),
        )
    }
}

impl CookieMap {
    /// The cookies of the texts of a request's `Cookie` headers.
    #[verifier::spinoff_prover]
    #[verifier::rlimit(60)]
    pub fn parse_headers(values: &[String]) -> (r: Self)
        ensures
            r@ == cookie_header_entries(strings_view(values@)),
    {
        let ghost vs = strings_view(values@);
        let mut entries: Vec<(String, String)> = Vec::new();
        let mut i: usize = 0;
        while i < values.len()
            invariant
                i <= values@.len(),
                vs == strings_view(values@),
                entries@.map_values(|e: (String, String)| pair_view(e)) == cookie_header_entries(
                    vs.take(i as int),
                ),
            decreases values@.len() - i,
        {
            let pieces = split_text_pair(values[i].as_str(), ';', ' ');
            let ghost ps = strings_view(pieces@);
            let ghost base = cookie_header_entries(vs.take(i as int));
            proof {
                assert(vs[i as int] == values@[i as int]@);
                assert(base + cookie_entries(ps.take(0)) =~= base) by {
                    assert(ps.take(0) =~= Seq::<Seq<char>>::empty());
                }
            }
            let mut j: usize = 0;
            while j < pieces.len()
                invariant
                    j <= pieces@.len(),
                    ps == strings_view(pieces@),
                    entries@.map_values(|e: (String, String)| pair_view(e)) == base + cookie_entries(
                        ps.take(j as int),
                    ),
                decreases pieces@.len() - j,
            {
                let parts = split_text(pieces[j].as_str(), '=');
                proof {
                    assert(ps.take(j + 1).drop_last() =~= ps.take(j as int));
                    assert(ps.take(j + 1).last() == ps[j as int]);
                }
                if parts.len() >= 2 {
                    let ghost before = entries@;
                    entries.push((parts[0].clone(), parts[1].clone()));
                    proof {
                        assert(entries@.map_values(|e: (String, String)| pair_view(e))
                            =~= before.map_values(|e: (String, String)| pair_view(e)).push(
                            (parts[0]@, parts[1]@),
                        ));
                        assert(base + cookie_entries(ps.take(j + 1)) =~= (base + cookie_entries(
                            ps.take(j as int),
                        )).push((parts[0]@, parts[1]@)));
                    }
                }
                j = j + 1;
            }
            proof {
                assert(ps.take(ps.len() as int) =~= ps);
                assert(vs.take(i + 1).drop_last() =~= vs.take(i as int));
                assert(vs.take(i + 1).last() == vs[i as int]);
            }
            i = i + 1;
        }
        assert(vs.take(vs.len() as int) =~= vs);
        CookieMap { entries }
    }

    /// A map of the given name and value pairs, in order.
    pub fn from_pairs(pairs: Vec<(String, String)>) -> (r: Self)
        ensures
            r@ == pairs@.map_values(|e: (String, String)| pair_view(e)),
    {
        CookieMap { entries: pairs }
    }

    /// The value of cookie `cookie`, if present.
    pub fn get_optional(&self, cookie: &str) -> (r: Option<&str>)
        ensures
            match last_pair_value(self@, cookie@) {
                Some(v) => r matches Some(t) && t@ == v,
                None => r is None,
            },
    {
        proof {
            lemma_pairs_view_last(self.entries@, cookie@);
        }
        match find_last(&self.entries, cookie) {
            Some(k) => Some(self.entries[k].1.as_str()),
            None => None,
        }
    }

    /// The value of cookie `cookie`, or `MissingCookieError`.
    pub fn get(&self, cookie: &str) -> (r: Result<&str, Error>)
        ensures
            match last_pair_value(self@, cookie@) {
                Some(v) => r matches Ok(t) && t@ == v,
                None => r matches Err(Error::MissingCookieError(n)) && n@ == cookie@,
            },
    {
        match self.get_optional(cookie) {
            Some(v) => Ok(v),
            None => Err(Error::MissingCookieError(cookie.to_owned())),
        }
    }

    /// The value of cookie `cookie` read as a `T`: missing, or failing to
    /// parse, is an error.
    pub fn get_as<T: ParseValue>(&self, cookie: &str) -> (r: Result<T, Error>)
        ensures
            match last_pair_value(self@, cookie@) {
                Some(v) => match r {
                    Ok(x) => T::parses_to(v, x),
                    Err(e) => T::rejects(v) && (e matches Error::CookieParseError(n, rsn) && n@ == cookie@ && rsn@ == T::reason(v)),
                },
                None => r matches Err(Error::MissingCookieError(n)) && n@ == cookie@,
            },
    {
        match self.get(cookie) {
            Ok(v) => parse_cookie(cookie, v),
            Err(e) => Err(e),
        }
    }

    /// The value of cookie `cookie` read as a `T`, if present; failing to
    /// parse is an error.
    pub fn get_optional_as<T: ParseValue>(&self, cookie: &str) -> (r: Result<Option<T>, Error>)
        ensures
            match last_pair_value(self@, cookie@) {
                Some(v) => match r {
                    Ok(Some(x)) => T::parses_to(v, x),
                    Ok(None) => false,
                    Err(e) => T::rejects(v) && (e matches Error::CookieParseError(n, rsn) && n@ == cookie@ && rsn@ == T::reason(v)),
                },
                None => r matches Ok(None),
            },
    {
        match self.get_optional(cookie) {
            Some(v) => match parse_cookie(cookie, v) {
                Ok(x) => Ok(Some(x)),
                Err(e) => Err(e),
            },
            None => Ok(None),
        }
    }
}

/// The character of a decimal digit.
pub open spec fn digit_char(d: nat) -> char {
    seq!['0', '1', '2', '3', '4', '5', '6', '7', '8', '9'][d as int]
}

/// The decimal digits of a number, most significant first.
pub open spec fn decimal(n: nat) -> Seq<char>
    decreases n,
{
    if n < 10 {
        seq![digit_char(n)]
    } else {
        decimal(n / 10).push(digit_char(n % 10))
    }
}

fn push_decimal(out: &mut String, n: u64)
    ensures
        final(out)@ == old(out)@ + decimal(n as nat),
    decreases n,
{
    let d = n % 10;
    let c = if d == 0 {
        '0'
    } else if d == 1 {
        '1'
    } else if d == 2 {
        '2'
    } else if d == 3 {
        '3'
    } else if d == 4 {
        '4'
    } else if d == 5 {
        '5'
    } else if d == 6 {
        '6'
    } else if d == 7 {
        '7'
    } else if d == 8 {
        '8'
    } else {
        '9'
    };
    assert(c == digit_char(d as nat));
    if n >= 10 {
        push_decimal(out, n / 10);
    }
    let ghost mid = out@;
    append_char(out, c);
    assert(out@ =~= old(out)@ + decimal(n as nat));
}

/// A cookie to set in a response.
#[derive(Debug, Clone, PartialEq, Eq, Hash)]
pub struct SetCookie {
    /// The name of the cookie.
    pub name: String,
    /// The value of the cookie.
    pub value: String,
    /// How many seconds the cookie lives; `None` for the session.
    pub max_age: Option<u64>,
    /// Whether the cookie is hidden from scripts.
    pub http_only: bool,
}

/// The `Set-Cookie` text of a cookie: `name=value`, then `; Max-Age=n` if
/// it has a lifetime, then `; HttpOnly` if it is hidden from scripts.
pub open spec fn cookie_text(name: Seq<char>, value: Seq<char>, max_age: Option<u64>, http_only: bool) -> Seq<char> {
    let base = name + seq!['='] + value;
    let with_age = match max_age {
        Some(a) => base + "; Max-Age="@ + decimal(a as nat),
        None => base,
    };
    if http_only {
        with_age + "; HttpOnly"@
    } else {
        with_age
    }
}

impl SetCookie {
    /// A session cookie, not hidden from scripts.
    pub fn new(name: &str, value: &str) -> (r: Self)
        ensures
            r.name@ == name@,
            r.value@ == value@,
            r.max_age is None,
            !r.http_only,
    {
        SetCookie { name: name.to_owned(), value: value.to_owned(), max_age: None, http_only: false }
    }

    /// Makes the cookie expire at `timestamp`, given the time `now`, both in
    /// seconds on one clock; a time already past gives a lifetime of zero.
    pub fn expire_at(self, timestamp: u64, now: u64) -> (r: Self)
        ensures
            r.max_age == Some(if timestamp >= now {
                (timestamp - now) as u64
            } else {
                0u64
            }),
            r.name == self.name,
            r.value == self.value,
            r.http_only == self.http_only,
    {
        let mut c = self;
        c.max_age = Some(if timestamp >= now { timestamp - now } else { 0 });
        c
    }

    /// Makes the cookie live for `seconds`.
    pub fn expire_after(self, seconds: u64) -> (r: Self)
        ensures
            r.max_age == Some(seconds),
            r.name == self.name,
            r.value == self.value,
            r.http_only == self.http_only,
    {
        let mut c = self;
        c.max_age = Some(seconds);
        c
    }

    /// Sets whether the cookie is hidden from scripts.
    pub fn http_only(self, http_only: bool) -> (r: Self)
        ensures
            r.http_only == http_only,
            r.name == self.name,
            r.value == self.value,
            r.max_age == self.max_age,
    {
        let mut c = self;
        c.http_only = http_only;
        c
    }

    /// The `Set-Cookie` text of the cookie.
    pub fn to_cookie_string(&self) -> (r: String)
        ensures
            r@ == cookie_text(self.name@, self.value@, self.max_age, self.http_only),
    {
        proof {
            reveal_strlit("; Max-Age=");
            reveal_strlit("; HttpOnly");
        }
        let mut out = String::new();
        append_str(&mut out, self.name.as_str());
        append_char(&mut out, '=');
        append_str(&mut out, self.value.as_str());
        match self.max_age {
            Some(age) => {
                append_str(&mut out, "; Max-Age=");
                push_decimal(&mut out, age);
            },
            None => {},
        }
        if self.http_only {
            append_str(&mut out, "; HttpOnly");
        }
        out
    }
}

} // verus!
