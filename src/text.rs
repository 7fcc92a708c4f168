//! Small string operations of std that the library builds on.
use vstd::prelude::*;

verus! {

/// Relies on `String::push_str`: appends the characters of `t` to `s`.
#[verifier::external_body]
pub(crate) fn append_str(s: &mut String, t: &str)
    ensures
        final(s)@ == old(s)@ + t@,
{
    s.push_str(t);
}

/// Relies on `String::push`: appends one character to `s`.
#[verifier::external_body]
pub(crate) fn append_char(s: &mut String, c: char)
    ensures
        final(s)@ == old(s)@.push(c),
{
    s.push(c);
}

/// The pieces of `s` between occurrences of `sep`, empty pieces included,
/// in order, as `str::split` gives them.
pub open spec fn split_on(s: Seq<char>, sep: char) -> Seq<Seq<char>>
    decreases s.len(),
{
    if s.len() == 0 {
        seq![Seq::empty()]
    } else {
        let init = split_on(s.drop_last(), sep);
        if s.last() == sep {
            init.push(Seq::empty())
        } else {
            init.update(init.len() - 1, init.last().push(s.last()))
        }
    }
}

/// The views of a sequence of strings.
pub open spec fn strings_view(v: Seq<String>) -> Seq<Seq<char>> {
    v.map_values(|s: String| s@)
}

/// Splits `s` at every `sep`.
pub fn split_text(s: &str, sep: char) -> (r: Vec<String>)
    ensures
        strings_view(r@) == split_on(s@, sep),
{
    let n = s.unicode_len();
    let mut out: Vec<String> = Vec::new();
    let mut start: usize = 0;
    let mut i: usize = 0;
    assert(s@.take(0) =~= Seq::<char>::empty());
    assert(s@.subrange(0, 0) =~= Seq::<char>::empty());
    assert(strings_view(out@).push(Seq::<char>::empty()) =~= seq![Seq::<char>::empty()]);
    while i < n
        invariant
            n == s@.len(),
            start <= i <= n,
            split_on(s@.take(i as int), sep) == strings_view(out@).push(
                s@.subrange(start as int, i as int),
            ),
        decreases n - i,
    {
        let c = s.get_char(i);
        let ghost cur = s@.subrange(start as int, i as int);
        let ghost done = strings_view(out@);
        assert(s@.take(i + 1).drop_last() =~= s@.take(i as int));
        assert(s@.take(i + 1).last() == c);
        if c == sep {
            let piece = s.substring_char(start, i).to_owned();
            out.push(piece);
            assert(strings_view(out@) =~= done.push(cur));
            start = i + 1;
            assert(s@.subrange(start as int, start as int) =~= Seq::<char>::empty());
        } else {
            assert(s@.subrange(start as int, i + 1) =~= cur.push(c));
            assert(done.push(cur).update(done.len() as int, cur.push(c)) =~= done.push(
                cur.push(c),
            ));
        }
        i = i + 1;
    }
    let ghost done = strings_view(out@);
    let piece = s.substring_char(start, n).to_owned();
    out.push(piece);
    assert(strings_view(out@) =~= done.push(s@.subrange(start as int, n as int)));
    assert(s@.take(n as int) =~= s@);
    out
}

/// Whether two texts are equal.
pub fn text_eq(a: &str, b: &str) -> (r: bool)
    ensures
        r == (a@ == b@),
{
    let n = a.unicode_len();
    if n != b.unicode_len() {
        return false;
    }
    let mut i: usize = 0;
    while i < n
        invariant
            n == a@.len() == b@.len(),
            i <= n,
            a@.take(i as int) == b@.take(i as int),
        decreases n - i,
    {
        if a.get_char(i) != b.get_char(i) {
            assert(a@[i as int] != b@[i as int]);
            return false;
        }
        assert(a@.take(i + 1) =~= a@.take(i as int).push(a@[i as int]));
        assert(b@.take(i + 1) =~= b@.take(i as int).push(b@[i as int]));
        i = i + 1;
    }
    assert(a@.take(n as int) =~= a@);
    assert(b@.take(n as int) =~= b@);
    true
}

/// Whether a text contains a character.
pub fn text_contains(s: &str, c: char) -> (r: bool)
    ensures
        r == s@.contains(c),
{
    let n = s.unicode_len();
    let mut i: usize = 0;
    while i < n
        invariant
            n == s@.len(),
            i <= n,
            forall|j: int| 0 <= j < i ==> s@[j] != c,
        decreases n - i,
    {
        if s.get_char(i) == c {
            assert(s@[i as int] == c);
            return true;
        }
        i = i + 1;
    }
    false
}

/// The pieces of `s` between occurrences of the two-character separator
/// `a` `b`, matched from the left, empty pieces included.
pub open spec fn split_on_pair(s: Seq<char>, a: char, b: char) -> Seq<Seq<char>>
    decreases s.len(),
{
    if s.len() == 0 {
        seq![Seq::empty()]
    } else if s.len() >= 2 && s[0] == a && s[1] == b {
        seq![Seq::empty()] + split_on_pair(s.skip(2), a, b)
    } else {
        let r = split_on_pair(s.drop_first(), a, b);
        r.update(0, seq![s[0]] + r[0])
    }
}

proof fn lemma_split_on_pair_nonempty(s: Seq<char>, a: char, b: char)
    ensures
        split_on_pair(s, a, b).len() >= 1,
    decreases s.len(),
{
    if s.len() >= 2 && s[0] == a && s[1] == b {
        lemma_split_on_pair_nonempty(s.skip(2), a, b);
    } else if s.len() > 0 {
        lemma_split_on_pair_nonempty(s.drop_first(), a, b);
    }
}

/// The pieces still to come once `cur` has been read into the current
/// piece and `rest` is left.
pub open spec fn pending_pieces(cur: Seq<char>, rest: Seq<char>, a: char, b: char) -> Seq<Seq<char>> {
    let r = split_on_pair(rest, a, b);
    r.update(0, cur + r[0])
}

/// Splits `s` at every occurrence of the two characters `a` `b`.
#[verifier::spinoff_prover]
#[verifier::rlimit(60)]
pub fn split_text_pair(s: &str, a: char, b: char) -> (r: Vec<String>)
    ensures
        strings_view(r@) == split_on_pair(s@, a, b),
{
    let n = s.unicode_len();
    let mut out: Vec<String> = Vec::new();
    let mut start: usize = 0;
    let mut i: usize = 0;
    assert(s@.skip(0) =~= s@);
    assert(s@.subrange(0, 0) =~= Seq::<char>::empty());
    proof {
        lemma_split_on_pair_nonempty(s@, a, b);
        let r = split_on_pair(s@, a, b);
        assert(Seq::<char>::empty() + r[0] =~= r[0]);
        assert(r.update(0, r[0]) =~= r);
        assert(strings_view(out@) + pending_pieces(Seq::empty(), s@, a, b) =~= r);
    }
    while i < n
        invariant
            n == s@.len(),
            start <= i <= n,
            split_on_pair(s@, a, b) == strings_view(out@) + pending_pieces(
                s@.subrange(start as int, i as int),
                s@.skip(i as int),
                a,
                b,
            ),
        decreases n - i,
    {
        let ghost cur = s@.subrange(start as int, i as int);
        let ghost rest = s@.skip(i as int);
        let ghost done = strings_view(out@);
        let c = s.get_char(i);
        assert(rest[0] == c);
        if i + 1 < n && c == a && s.get_char(i + 1) == b {
            assert(rest[1] == b);
            assert(rest.skip(2) =~= s@.skip(i + 2));
            let piece = s.substring_char(start, i).to_owned();
            out.push(piece);
            proof {
                lemma_split_on_pair_nonempty(rest.skip(2), a, b);
                let r2 = split_on_pair(rest.skip(2), a, b);
                assert(split_on_pair(rest, a, b) == seq![Seq::<char>::empty()] + r2);
                assert(pending_pieces(cur, rest, a, b) =~= seq![cur] + r2);
                assert(s@.subrange(i + 2, i + 2) =~= Seq::<char>::empty());
                assert(Seq::<char>::empty() + r2[0] =~= r2[0]);
                assert(pending_pieces(Seq::empty(), rest.skip(2), a, b) =~= r2);
                assert(strings_view(out@) =~= done.push(cur));
                assert(done + (seq![cur] + r2) =~= done.push(cur) + r2);
            }
            start = i + 2;
            i = i + 2;
        } else {
            proof {
                assert(rest.drop_first() =~= s@.skip(i + 1));
                lemma_split_on_pair_nonempty(rest.drop_first(), a, b);
                let r1 = split_on_pair(rest.drop_first(), a, b);
                if rest.len() >= 2 && rest[0] == a && rest[1] == b {
                    assert(s@[i + 1] == rest[1]);
                }
                assert(split_on_pair(rest, a, b) == r1.update(0, seq![c] + r1[0]));
                assert(s@.subrange(start as int, i + 1) =~= cur.push(c));
                assert(cur + (seq![c] + r1[0]) =~= cur.push(c) + r1[0]);
                assert(pending_pieces(cur, rest, a, b) =~= pending_pieces(cur.push(c), rest.drop_first(), a, b));
            }
            i = i + 1;
        }
    }
    let ghost cur = s@.subrange(start as int, n as int);
    let ghost done = strings_view(out@);
    proof {
        assert(s@.skip(n as int) =~= Seq::<char>::empty());
        assert(pending_pieces(cur, Seq::empty(), a, b) =~= seq![cur]);
    }
    let piece = s.substring_char(start, n).to_owned();
    out.push(piece);
    assert(strings_view(out@) =~= done + seq![cur]);
    out
}

} // verus!
