//! Query parameters.
use crate::error::Error;
use crate::keyed::{find_last, last_index, lemma_last_index_bounds};
use crate::parse::{parse_query_param, ParseValue};
use crate::text::{split_on, split_text, strings_view, text_contains};
use vstd::prelude::*;

verus! {

/// What `urlencoding::decode` gives for a text: the decoded text, or `None`
/// where the decoded bytes are not UTF-8.
pub uninterp spec fn percent_decoded(s: Seq<char>) -> Option<Seq<char>>;

/// Relies on `urlencoding::decode`: its result depends on the text alone,
/// and a text without `%` comes back unchanged.
#[verifier::external_body]
fn url_decode(s: &str) -> (r: Option<String>)
    ensures
        r is Some ==> percent_decoded(s@) == Some(r->0@),
        r is None ==> percent_decoded(s@) is None,
        !s@.contains('%') ==> r is Some && r->0@ == s@,
{
    match urlencoding::decode(s) {
        Ok(v) => Some(v.into_owned()),
        Err(_) => None,
    }
}

/// The value of the last pair named `n`, if any.
pub open spec fn last_pair_value<V>(ps: Seq<(Seq<char>, V)>, n: Seq<char>) -> Option<V>
    decreases ps.len(),
{
    if ps.len() == 0 {
        None
    } else if ps.last().0 == n {
        Some(ps.last().1)
    } else {
        last_pair_value(ps.drop_last(), n)
    }
}

/// The query part of a request target: the text after the first `?` up to
/// any next `?`, or the whole text if it has no `?`.
pub open spec fn query_text(s: Seq<char>) -> Seq<char> {
    if s.contains('?') {
        split_on(s, '?')[1]
    } else {
        s
    }
}

/// The parameter that one `&`-separated piece gives: the text before the
/// first `=` is the name, which must not be empty; the text after it, up to
/// any next `=`, decoded, is the value. A piece without `=`, or whose value
/// does not decode, gives a parameter without a value.
pub open spec fn query_entry(piece: Seq<char>) -> Option<(Seq<char>, Option<Seq<char>>)> {
    let parts = split_on(piece, '=');
    if parts[0].len() == 0 {
        None
    } else if parts.len() >= 2 {
        Some((parts[0], percent_decoded(parts[1])))
    } else {
        Some((parts[0], None))
    }
}

/// The parameters of a sequence of pieces, in order.
pub open spec fn query_entries(pieces: Seq<Seq<char>>) -> Seq<(Seq<char>, Option<Seq<char>>)>
    decreases pieces.len(),
{
    if pieces.len() == 0 {
        Seq::empty()
    } else {
        let init = query_entries(pieces.drop_last());
        match query_entry(pieces.last()) {
            Some(e) => init.push(e),
            None => init,
        }
    }
}

/// The parameters of a request target, in order.
pub open spec fn query_params(s: Seq<char>) -> Seq<(Seq<char>, Option<Seq<char>>)> {
    query_entries(split_on(query_text(s), '&'))
}

/// The view of one stored parameter.
pub open spec fn param_view(e: (String, Option<String>)) -> (Seq<char>, Option<Seq<char>>) {
    (
        e.0@,
        match e.1 {
            Some(v) => Some(v@),
            None => None,
        },
    )
}

/// The query parameters of a request. A later parameter of the same name
/// hides an earlier one.
#[derive(Debug)]
pub struct QueryParamMap {
    entries: Vec<(String, Option<String>)>,
}

impl View for QueryParamMap {
    type V = Seq<(Seq<char>, Option<Seq<char>>)>;

    closed spec fn view(&self) -> Seq<(Seq<char>, Option<Seq<char>>)> {
        self.entries@.map_values(|e: (String, Option<String>)| param_view(e))
    }
}

/// The text that stands for a parameter's value: the value, or the empty
/// text for a parameter given without one.
pub open spec fn value_text(v: Option<Seq<char>>) -> Seq<char> {
    match v {
        Some(t) => t,
        None => Seq::empty(),
    }
}

impl QueryParamMap {
    /// An empty map.
    pub fn new() -> (r: Self)
        ensures
            r@ == Seq::<(Seq<char>, Option<Seq<char>>)>::empty(),
    {
        let r = QueryParamMap { entries: Vec::new() };
        assert(r@ =~= Seq::<(Seq<char>, Option<Seq<char>>)>::empty());
        r
    }

    /// The parameters of a request target such as `/path?a=1&b`: the part
    /// after `?` is split at `&`, each piece at `=`; values are
    /// percent-decoded.
    #[verifier::spinoff_prover]
    #[verifier::rlimit(60)]
    pub fn parse(s: &str) -> (r: Self)
        ensures
            r@ == query_params(s@),
    {
        let has_query = text_contains(s, '?');
        let query: String = if has_query {
            let parts = split_text(s, '?');
            proof {
                let k = choose|k: int| 0 <= k < s@.len() && s@[k] == '?';
                lemma_split_on_has_two(s@, '?', k);
            }
            parts[1].clone()
        } else {
            s.to_owned()
        };
        let pieces = split_text(query.as_str(), '&');
        let ghost ps = strings_view(pieces@);
        let mut entries: Vec<(String, Option<String>)> = Vec::new();
        let mut i: usize = 0;
        while i < pieces.len()
            invariant
                i <= pieces@.len(),
                ps == strings_view(pieces@),
                entries@.map_values(|e: (String, Option<String>)| param_view(e)) =~= query_entries(
                    ps.take(i as int),
                ),
            decreases pieces@.len() - i,
        {
            let parts = split_text(pieces[i].as_str(), '=');
            proof {
                assert(ps.take(i + 1).drop_last() =~= ps.take(i as int));
                assert(ps.take(i + 1).last() == ps[i as int]);
                lemma_split_on_nonempty(ps[i as int], '=');
            }
            if !parts[0].as_str().is_empty() {
                let value = if parts.len() >= 2 {
                    url_decode(parts[1].as_str())
                } else {
                    None
                };
                let ghost before = entries@;
                entries.push((parts[0].clone(), value));
                proof {
                    assert(parts[0]@.len() > 0);
                    assert(entries@.map_values(|e: (String, Option<String>)| param_view(e))
                        =~= before.map_values(|e: (String, Option<String>)| param_view(e)).push(
                        param_view((parts[0], value)),
                    ));
                }
            } else {
                proof {
                    assert(parts[0]@.len() == 0);
                }
            }
            i = i + 1;
        }
        assert(ps.take(ps.len() as int) =~= ps);
        QueryParamMap { entries }
    }

    /// The value of parameter `query`, if present: the empty text for a
    /// parameter given without a value.
    pub fn get_optional(&self, query: &str) -> (r: Option<&str>)
        ensures
            match last_pair_value(self@, query@) {
                Some(v) => r matches Some(t) && t@ == value_text(v),
                None => r is None,
            },
    {
        proof {
            reveal_strlit("");
        }
        match find_last(&self.entries, query) {
            Some(k) => {
                proof {
                    lemma_view_last(self.entries@, query@);
                }
                match &self.entries[k].1 {
                    Some(v) => Some(v.as_str()),
                    None => Some(""),
                }
            },
            None => {
                proof {
                    lemma_view_last(self.entries@, query@);
                }
                None
            },
        }
    }

    /// The value of parameter `query`, or `MissingQueryParameterError` if it
    /// is absent.
    pub fn get(&self, query: &str) -> (r: Result<&str, Error>)
        ensures
            match last_pair_value(self@, query@) {
                Some(v) => r matches Ok(t) && t@ == value_text(v),
                None => r matches Err(Error::MissingQueryParameterError(n)) && n@ == query@,
            },
    {
        match self.get_optional(query) {
            Some(v) => Ok(v),
            None => Err(Error::MissingQueryParameterError(query.to_owned())),
        }
    }

    /// The value of parameter `query` read as a `T`: missing, or failing to
    /// parse, is an error.
    pub fn get_as<T: ParseValue>(&self, query: &str) -> (r: Result<T, Error>)
        ensures
            match last_pair_value(self@, query@) {
                Some(v) => match r {
                    Ok(x) => T::parses_to(value_text(v), x),
                    Err(e) => T::rejects(value_text(v)) && (e matches Error::QueryParameterParseError(n, rsn) && n@ == query@ && rsn@ == T::reason(value_text(v))),
                },
                None => r matches Err(Error::MissingQueryParameterError(n)) && n@ == query@,
            },
    {
        match self.get(query) {
            Ok(v) => parse_query_param(query, v),
            Err(e) => Err(e),
        }
    }

    /// The value of parameter `query` read as a `T`, if present; failing to
    /// parse is an error.
    pub fn get_optional_as<T: ParseValue>(&self, query: &str) -> (r: Result<Option<T>, Error>)
        ensures
            match last_pair_value(self@, query@) {
                Some(v) => match r {
                    Ok(Some(x)) => T::parses_to(value_text(v), x),
                    Ok(None) => false,
                    Err(e) => T::rejects(value_text(v)) && (e matches Error::QueryParameterParseError(n, rsn) && n@ == query@ && rsn@ == T::reason(value_text(v))),
                },
                None => r matches Ok(None),
            },
    {
        match self.get_optional(query) {
            Some(v) => match parse_query_param(query, v) {
                Ok(x) => Ok(Some(x)),
                Err(e) => Err(e),
            },
            None => Ok(None),
        }
    }

    /// Whether parameter `query` is present, with or without a value.
    pub fn get_bool(&self, query: &str) -> (r: bool)
        ensures
            r == last_pair_value(self@, query@) is Some,
    {
        proof {
            lemma_view_last(self.entries@, query@);
        }
        find_last(&self.entries, query).is_some()
    }
}

proof fn lemma_view_last(es: Seq<(String, Option<String>)>, n: Seq<char>)
    ensures
        ({
            let vs = es.map_values(|e: (String, Option<String>)| param_view(e));
            let k = last_index(es, n);
            &&& k == -1 ==> last_pair_value(vs, n) is None
            &&& k >= 0 ==> last_pair_value(vs, n) == Some(param_view(es[k]).1)
        }),
    decreases es.len(),
{
    lemma_last_index_bounds(es, n);
    let vs = es.map_values(|e: (String, Option<String>)| param_view(e));
    if es.len() > 0 {
        assert(vs.drop_last() =~= es.drop_last().map_values(
            |e: (String, Option<String>)| param_view(e),
        ));
        lemma_view_last(es.drop_last(), n);
    }
}

proof fn lemma_split_on_nonempty(s: Seq<char>, sep: char)
    ensures
        split_on(s, sep).len() >= 1,
    decreases s.len(),
{
    if s.len() > 0 {
        lemma_split_on_nonempty(s.drop_last(), sep);
    }
}

proof fn lemma_split_on_has_two(s: Seq<char>, sep: char, k: int)
    requires
        0 <= k < s.len(),
        s[k] == sep,
    ensures
        split_on(s, sep).len() >= 2,
    decreases s.len(),
{
    lemma_split_on_nonempty(s.drop_last(), sep);
    if k < s.len() - 1 {
        lemma_split_on_has_two(s.drop_last(), sep, k);
    }
}

} // verus!
