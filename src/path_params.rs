//! Path parameters: the texts that the wildcards of a route matched.
use crate::error::Error;
use crate::keyed::{find_last, last_index, lemma_last_index_bounds};
use crate::parse::{parse_path_param, ParseValue};
use crate::query::last_pair_value;
use crate::route_path::{MatchedSegView, RoutePathMatched, RoutePathMatchedSegment, matched_view};
use vstd::prelude::*;

verus! {

/// The view of a pair of strings.
pub open spec fn pair_view(e: (String, String)) -> (Seq<char>, Seq<char>) {
    (e.0@, e.1@)
}

/// The wildcard bindings of a matched path, in order: name, then text.
pub open spec fn wildcard_bindings(p: Seq<MatchedSegView>) -> Seq<(Seq<char>, Seq<char>)>
    decreases p.len(),
{
    if p.len() == 0 {
        Seq::empty()
    } else {
        let init = wildcard_bindings(p.drop_last());
        match p.last() {
            MatchedSegView::Wildcard(n, v) => init.push((n, v)),
            MatchedSegView::Static(_) => init,
        }
    }
}

/// Looks up `n` in pairs of strings, the last of a name winning.
pub(crate) proof fn lemma_pairs_view_last(es: Seq<(String, String)>, n: Seq<char>)
    ensures
        ({
            let vs = es.map_values(|e: (String, String)| pair_view(e));
            let k = last_index(es, n);
            &&& k == -1 ==> last_pair_value(vs, n) is None
            &&& k >= 0 ==> last_pair_value(vs, n) == Some(es[k].1@)
        }),
    decreases es.len(),
{
    lemma_last_index_bounds(es, n);
    let vs = es.map_values(|e: (String, String)| pair_view(e));
    if es.len() > 0 {
        assert(vs.drop_last() =~= es.drop_last().map_values(|e: (String, String)| pair_view(e)));
        lemma_pairs_view_last(es.drop_last(), n);
    }
}

/// The path parameters of a request. A later parameter of the same name
/// hides an earlier one.
#[derive(Debug)]
pub struct PathParamMap {
    entries: Vec<(String, String)>,
}

impl View for PathParamMap {
    type V = Seq<(Seq<char>, Seq<char>)>;

    closed spec fn view(&self) -> Seq<(Seq<char>, Seq<char>)> {
        self.entries@.map_values(|e: (String, String)| pair_view(e))
    }
}

impl PathParamMap {
    /// The parameters that the wildcards of a matched path bound.
    pub fn from_matched(path: &RoutePathMatched) -> (r: Self)
        ensures
            r@ == wildcard_bindings(path@),
    {
        let segs = path.segments();
        let mut entries: Vec<(String, String)> = Vec::new();
        let mut i: usize = 0;
        while i < segs.len()
            invariant
                i <= segs@.len(),
                matched_view(segs@) == path@,
                entries@.map_values(|e: (String, String)| pair_view(e)) =~= wildcard_bindings(
                    path@.take(i as int),
                ),
            decreases segs@.len() - i,
        {
            proof {
                assert(path@.take(i + 1).drop_last() =~= path@.take(i as int));
                assert(path@.take(i + 1).last() == segs@[i as int]@);
            }
            match &segs[i] {
                RoutePathMatchedSegment::Wildcard(name, value) => {
                    let ghost before = entries@;
                    entries.push((name.clone(), value.clone()));
                    assert(entries@.map_values(|e: (String, String)| pair_view(e)) =~= before.map_values(
                        |e: (String, String)| pair_view(e),
                    ).push((name@, value@)));
                },
                RoutePathMatchedSegment::Static(_) => {},
            }
            i = i + 1;
        }
        assert(path@.take(segs@.len() as int) =~= path@);
        PathParamMap { entries }
    }

    /// The text bound to parameter `name`, or `MissingPathParameterError`.
    pub fn get(&self, name: &str) -> (r: Result<&str, Error>)
        ensures
            match last_pair_value(self@, name@) {
                Some(v) => r matches Ok(t) && t@ == v,
                None => r matches Err(Error::MissingPathParameterError(n)) && n@ == name@,
            },
    {
        proof {
            lemma_pairs_view_last(self.entries@, name@);
        }
        match find_last(&self.entries, name) {
            Some(k) => Ok(self.entries[k].1.as_str()),
            None => Err(Error::MissingPathParameterError(name.to_owned())),
        }
    }

    /// The text bound to parameter `name` read as a `T`: missing, or
    /// failing to parse, is an error.
    pub fn get_as<T: ParseValue>(&self, name: &str) -> (r: Result<T, Error>)
        ensures
            match last_pair_value(self@, name@) {
                Some(v) => match r {
                    Ok(x) => T::parses_to(v, x),
                    Err(e) => T::rejects(v) && (e matches Error::PathParameterParseError(n, rsn) && n@ == name@ && rsn@ == T::reason(v)),
                },
                None => r matches Err(Error::MissingPathParameterError(n)) && n@ == name@,
            },
    {
        match self.get(name) {
            Ok(v) => parse_path_param(name, v),
            Err(e) => Err(e),
        }
    }

    /// All parameters, in the order of the path.
    pub fn iter(&self) -> (r: &[(String, String)])
        ensures
            r@.map_values(|e: (String, String)| pair_view(e)) == self@,
    {
        self.entries.as_slice()
    }
}

} // verus!
