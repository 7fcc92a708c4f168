//! Lists of named entries in which a later entry hides an earlier one of
//! the same name.
use crate::text::text_eq;
use vstd::prelude::*;

verus! {

/// The index of the last entry named `n`; `-1` if none.
pub open spec fn last_index<V>(es: Seq<(String, V)>, n: Seq<char>) -> int
    decreases es.len(),
{
    if es.len() == 0 {
        -1
    } else if es.last().0@ == n {
        es.len() - 1
    } else {
        last_index(es.drop_last(), n)
    }
}

pub proof fn lemma_last_index_bounds<V>(es: Seq<(String, V)>, n: Seq<char>)
    ensures
        -1 <= last_index(es, n) < es.len(),
        last_index(es, n) >= 0 ==> es[last_index(es, n)].0@ == n,
    decreases es.len(),
{
    if es.len() > 0 {
        lemma_last_index_bounds(es.drop_last(), n);
    }
}

pub proof fn lemma_last_index_push<V>(es: Seq<(String, V)>, e: (String, V), n: Seq<char>)
    ensures
        last_index(es.push(e), n) == if e.0@ == n {
            es.len() as int
        } else {
            last_index(es, n)
        },
{
    assert(es.push(e).drop_last() =~= es);
}

/// Finds the last entry named `n`.
pub fn find_last<V>(es: &Vec<(String, V)>, n: &str) -> (r: Option<usize>)
    ensures
        match r {
            Some(k) => k == last_index(es@, n@) && k < es@.len(),
            None => last_index(es@, n@) == -1,
        },
{
    let mut i: usize = es.len();
    assert(es@.take(i as int) =~= es@);
    while i > 0
        invariant
            i <= es@.len(),
            last_index(es@, n@) == last_index(es@.take(i as int), n@),
        decreases i,
    {
        assert(es@.take(i as int).drop_last() =~= es@.take(i - 1));
        if text_eq(es[i - 1].0.as_str(), n) {
            return Some(i - 1);
        }
        i = i - 1;
    }
    assert(es@.take(0) =~= Seq::<(String, V)>::empty());
    None
}

} // verus!
