//! Request headers.
use crate::error::Error;
use crate::keyed::{find_last, last_index, lemma_last_index_bounds, lemma_last_index_push};
use crate::parse::{parse_header, ParseValue};
use crate::query::last_pair_value;
use crate::text::strings_view;
use vstd::prelude::*;

verus! {

/// What `str::to_lowercase` gives for a text.
pub uninterp spec fn lower_of(s: Seq<char>) -> Seq<char>;

/// Relies on `str::to_lowercase`: its result depends on the text alone.
#[verifier::external_body]
fn lowercase(s: &str) -> (r: String)
    ensures
        r@ == lower_of(s@),
{
    s.to_lowercase()
}

/// The view of one header entry: its name and its values.
pub open spec fn header_view(e: (String, Vec<String>)) -> (Seq<char>, Seq<Seq<char>>) {
    (e.0@, strings_view(e.1@))
}

/// The views of header entries.
pub open spec fn headers_view(es: Seq<(String, Vec<String>)>) -> Seq<(Seq<char>, Seq<Seq<char>>)> {
    es.map_values(|e: (String, Vec<String>)| header_view(e))
}

/// The headers of a request: each name with its values, in the order
/// received. Names are stored as received; lookups lower-case the name
/// asked for.
#[derive(Debug)]
pub struct HeaderMap {
    entries: Vec<(String, Vec<String>)>,
}

impl View for HeaderMap {
    type V = Seq<(Seq<char>, Seq<Seq<char>>)>;

    closed spec fn view(&self) -> Seq<(Seq<char>, Seq<Seq<char>>)> {
        headers_view(self.entries@)
    }
}

/// The values of `n` gathered from name and value pairs, in order.
pub open spec fn gathered(pairs: Seq<(Seq<char>, Seq<char>)>, n: Seq<char>) -> Seq<Seq<char>>
    decreases pairs.len(),
{
    if pairs.len() == 0 {
        Seq::empty()
    } else {
        let init = gathered(pairs.drop_last(), n);
        if pairs.last().0 == n {
            init.push(pairs.last().1)
        } else {
            init
        }
    }
}

proof fn lemma_header_view_last(es: Seq<(String, Vec<String>)>, n: Seq<char>)
    ensures
        ({
            let vs = es.map_values(|e: (String, Vec<String>)| header_view(e));
            let k = last_index(es, n);
            &&& k == -1 ==> last_pair_value(vs, n) is None
            &&& k >= 0 ==> last_pair_value(vs, n) == Some(strings_view(es[k].1@))
        }),
    decreases es.len(),
{
    lemma_last_index_bounds(es, n);
    let vs = es.map_values(|e: (String, Vec<String>)| header_view(e));
    if es.len() > 0 {
        assert(vs.drop_last() =~= es.drop_last().map_values(
            |e: (String, Vec<String>)| header_view(e),
        ));
        lemma_header_view_last(es.drop_last(), n);
    }
}

impl HeaderMap {
    /// The headers of the given name and value pairs: the values of one
    /// name are gathered under it, in order.
    #[verifier::spinoff_prover]
    #[verifier::rlimit(60)]
    pub fn from_pairs(pairs: &[(String, String)]) -> (r: Self)
        ensures
            forall|n: Seq<char>|
                #[trigger] last_pair_value(r@, n) == if gathered(
                    pairs@.map_values(|e: (String, String)| (e.0@, e.1@)),
                    n,
                ).len() == 0 {
                    None
                } else {
                    Some(gathered(pairs@.map_values(|e: (String, String)| (e.0@, e.1@)), n))
                },
    {
        let ghost pv = pairs@.map_values(|e: (String, String)| (e.0@, e.1@));
        let mut entries: Vec<(String, Vec<String>)> = Vec::new();
        let mut i: usize = 0;
        while i < pairs.len()
            invariant
                i <= pairs@.len(),
                pv == pairs@.map_values(|e: (String, String)| (e.0@, e.1@)),
                forall|n: Seq<char>|
                    #[trigger] last_index(entries@, n) >= 0 ==> strings_view(
                        entries@[last_index(entries@, n)].1@,
                    ) == gathered(pv.take(i as int), n) && gathered(pv.take(i as int), n).len() > 0,
                forall|n: Seq<char>|
                    #[trigger] last_index(entries@, n) == -1 ==> gathered(pv.take(i as int), n).len()
                        == 0,
            decreases pairs@.len() - i,
        {
            let name = &pairs[i].0;
            let value = &pairs[i].1;
            let ghost before = entries@;
            proof {
                assert(pv.take(i + 1).drop_last() =~= pv.take(i as int));
                assert(pv.take(i + 1).last() == (name@, value@));
            }
            match find_last(&entries, name.as_str()) {
                Some(k) => {
                    let mut vals = entries[k].1.clone();
                    let ghost old_vals = strings_view(entries@[k as int].1@);
                    assert(strings_view(vals@) == old_vals) by {
                        assert(vals@ == entries@[k as int].1@);
                    }
                    vals.push(value.clone());
                    let nm = entries[k].0.clone();
                    entries.set(k, (nm, vals));
                    proof {
                        assert(strings_view(vals@) =~= old_vals.push(value@));
                        assert forall|n: Seq<char>| #[trigger] last_index(entries@, n) == last_index(before, n) by {
                            lemma_last_index_same_names(before, k as int, (nm, vals), n);
                        }
                        assert forall|n: Seq<char>|
                            #[trigger] last_index(entries@, n) >= 0 implies strings_view(
                                entries@[last_index(entries@, n)].1@,
                            ) == gathered(pv.take(i + 1), n) && gathered(pv.take(i + 1), n).len() > 0 by {
                            lemma_last_index_bounds(before, n);
                            lemma_last_index_bounds(entries@, n);
                            lemma_last_index_bounds(before, name@);
                            assert(pv.take(i + 1).drop_last() =~= pv.take(i as int));
                            if n == name@ {
                                assert(last_index(entries@, n) == k);
                                assert(gathered(pv.take(i + 1), n) == gathered(pv.take(i as int), n).push(value@));
                            } else {
                                assert(gathered(pv.take(i + 1), n) == gathered(pv.take(i as int), n));
                                assert(last_index(entries@, n) != k);
                                assert(entries@[last_index(entries@, n)] == before[last_index(before, n)]);
                            }
                        }
                        assert forall|n: Seq<char>|
                            #[trigger] last_index(entries@, n) == -1 implies gathered(pv.take(i + 1), n).len() == 0 by {
                            if n == name@ {
                                lemma_last_index_bounds(before, name@);
                            }
                            assert(pv.take(i + 1).drop_last() =~= pv.take(i as int));
                        }
                    }
                },
                None => {
                    let mut vals: Vec<String> = Vec::new();
                    vals.push(value.clone());
                    let nm = name.clone();
                    entries.push((nm, vals));
                    proof {
                        assert(strings_view(vals@) =~= seq![value@]);
                        assert forall|n: Seq<char>|
                            #[trigger] last_index(entries@, n) >= 0 implies strings_view(
                                entries@[last_index(entries@, n)].1@,
                            ) == gathered(pv.take(i + 1), n) && gathered(pv.take(i + 1), n).len() > 0 by {
                            lemma_last_index_push(before, (nm, vals), n);
                            lemma_last_index_bounds(before, n);
                            assert(pv.take(i + 1).drop_last() =~= pv.take(i as int));
                            if n == name@ {
                                assert(gathered(pv.take(i as int), n).len() == 0);
                                assert(gathered(pv.take(i + 1), n) =~= seq![value@]);
                            } else {
                                assert(gathered(pv.take(i + 1), n) == gathered(pv.take(i as int), n));
                                assert(entries@[last_index(entries@, n)] == before[last_index(before, n)]);
                            }
                        }
                        assert forall|n: Seq<char>|
                            #[trigger] last_index(entries@, n) == -1 implies gathered(pv.take(i + 1), n).len() == 0 by {
                            lemma_last_index_push(before, (nm, vals), n);
                            assert(pv.take(i + 1).drop_last() =~= pv.take(i as int));
                        }
                    }
                },
            }
            i = i + 1;
        }
        proof {
            assert(pv.take(i as int) =~= pv);
            assert forall|n: Seq<char>|
                #[trigger] last_pair_value(headers_view(entries@), n) == if gathered(pv, n).len() == 0 {
                    None
                } else {
                    Some(gathered(pv, n))
                } by {
                lemma_header_view_last(entries@, n);
                if last_index(entries@, n) >= 0 {
                    assert(strings_view(entries@[last_index(entries@, n)].1@) == gathered(pv, n));
                } else {
                    lemma_last_index_bounds(entries@, n);
                    assert(last_index(entries@, n) == -1);
                }
            }
        }
        let r = HeaderMap { entries };
        proof {
            assert(r@ == headers_view(r.entries@));
        }
        r
    }

    /// The values of header `header`, looked up by its lower-cased name, if
    /// present.
    pub fn get_optional(&self, header: &str) -> (r: Option<&[String]>)
        ensures
            match last_pair_value(self@, lower_of(header@)) {
                Some(vs) => r matches Some(t) && strings_view(t@) == vs,
                None => r is None,
            },
    {
        let name = lowercase(header);
        proof {
            lemma_header_view_last(self.entries@, name@);
        }
        match find_last(&self.entries, name.as_str()) {
            Some(k) => Some(self.entries[k].1.as_slice()),
            None => None,
        }
    }

    /// The values of header `header`, or `MissingHeaderError`.
    pub fn get(&self, header: &str) -> (r: Result<&[String], Error>)
        ensures
            match last_pair_value(self@, lower_of(header@)) {
                Some(vs) => r matches Ok(t) && strings_view(t@) == vs,
                None => r matches Err(Error::MissingHeaderError(n)) && n@ == header@,
            },
    {
        match self.get_optional(header) {
            Some(v) => Ok(v),
            None => Err(Error::MissingHeaderError(header.to_owned())),
        }
    }

    /// The values of header `header`, each read as a `T`: a missing header,
    /// or a value that fails to parse, is an error.
    pub fn get_as<T: ParseValue>(&self, header: &str) -> (r: Result<Vec<T>, Error>)
        ensures
            match last_pair_value(self@, lower_of(header@)) {
                Some(vs) => match r {
                    Ok(xs) => xs@.len() == vs.len() && forall|i: int|
                        0 <= i < vs.len() ==> T::parses_to(vs[i], #[trigger] xs@[i]),
                    Err(e) => (e matches Error::HeaderParseError(n, rsn) && n@ == header@ && exists|
                        i: int,
                    | 0 <= i < vs.len() && T::rejects(#[trigger] vs[i]) && rsn@ == T::reason(vs[i])),
                },
                None => r matches Err(Error::MissingHeaderError(n)) && n@ == header@,
            },
    {
        match self.get(header) {
            Ok(vals) => parse_all(header, vals),
            Err(e) => Err(e),
        }
    }

    /// The values of header `header`, each read as a `T`, if present; a
    /// value that fails to parse is an error.
    pub fn get_optional_as<T: ParseValue>(&self, header: &str) -> (r: Result<Option<Vec<T>>, Error>)
        ensures
            match last_pair_value(self@, lower_of(header@)) {
                Some(vs) => match r {
                    Ok(Some(xs)) => xs@.len() == vs.len() && forall|i: int|
                        0 <= i < vs.len() ==> T::parses_to(vs[i], #[trigger] xs@[i]),
                    Ok(None) => false,
                    Err(e) => (e matches Error::HeaderParseError(n, rsn) && n@ == header@ && exists|
                        i: int,
                    | 0 <= i < vs.len() && T::rejects(#[trigger] vs[i]) && rsn@ == T::reason(vs[i])),
                },
                None => r matches Ok(None),
            },
    {
        match self.get_optional(header) {
            Some(vals) => match parse_all(header, vals) {
                Ok(xs) => Ok(Some(xs)),
                Err(e) => Err(e),
            },
            None => Ok(None),
        }
    }
}

/// Reads every value of header `name` as a `T`, stopping at the first that
/// fails.
fn parse_all<T: ParseValue>(name: &str, vals: &[String]) -> (r: Result<Vec<T>, Error>)
    ensures
        match r {
            Ok(xs) => xs@.len() == strings_view(vals@).len() && forall|i: int|
                0 <= i < strings_view(vals@).len() ==> T::parses_to(strings_view(vals@)[i], #[trigger] xs@[i]),
            Err(e) => (e matches Error::HeaderParseError(n, rsn) && n@ == name@ && exists|i: int|
                0 <= i < strings_view(vals@).len() && T::rejects(#[trigger] strings_view(vals@)[i])
                    && rsn@ == T::reason(strings_view(vals@)[i])),
        },
{
    let mut out: Vec<T> = Vec::new();
    let mut i: usize = 0;
    while i < vals.len()
        invariant
            i <= vals@.len(),
            out@.len() == i,
            forall|j: int| 0 <= j < i ==> T::parses_to(strings_view(vals@)[j], #[trigger] out@[j]),
        decreases vals@.len() - i,
    {
        assert(strings_view(vals@)[i as int] == vals@[i as int]@);
        match parse_header(name, vals[i].as_str()) {
            Ok(x) => {
                out.push(x);
            },
            Err(e) => {
                assert(T::rejects(strings_view(vals@)[i as int]));
                assert(e matches Error::HeaderParseError(n, rsn) && rsn@ == T::reason(strings_view(vals@)[i as int]));
                return Err(e);
            },
        }
        i = i + 1;
    }
    Ok(out)
}

proof fn lemma_last_index_same_names(es: Seq<(String, Vec<String>)>, k: int, x: (String, Vec<String>), n: Seq<char>)
    requires
        0 <= k < es.len(),
        es[k].0@ == x.0@,
    ensures
        last_index(es.update(k, x), n) == last_index(es, n),
    decreases es.len(),
{
    let es2 = es.update(k, x);
    if k < es.len() - 1 {
        assert(es2.drop_last() =~= es.drop_last().update(k, x));
        lemma_last_index_same_names(es.drop_last(), k, x, n);
    } else {
        assert(es2.drop_last() =~= es.drop_last());
    }
}

} // verus!
