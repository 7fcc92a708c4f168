//! Declared and matched route paths.
use crate::text::{append_char, append_str};
use vstd::prelude::*;
use vstd::std_specs::slice::into_iter_elts;

verus! {

/// The mathematical form of a declared path segment.
pub enum SegView {
    Static(Seq<char>),
    Wildcard(Seq<char>),
}

/// A segment of a declared route path.
#[derive(Debug, Clone, PartialEq, Eq, Hash)]
pub enum RoutePathSegment {
    /// A literal segment.
    Static(String),
    /// A named wildcard segment, written `{name}`.
    Wildcard(String),
}

impl View for RoutePathSegment {
    type V = SegView;

    open spec fn view(&self) -> SegView {
        match self {
            RoutePathSegment::Static(n) => SegView::Static(n@),
            RoutePathSegment::Wildcard(n) => SegView::Wildcard(n@),
        }
    }
}

/// The name carried by a segment.
pub open spec fn seg_name(s: SegView) -> Seq<char> {
    match s {
        SegView::Static(n) => n,
        SegView::Wildcard(n) => n,
    }
}

impl RoutePathSegment {
    /// The name of the segment: `foo` for `/foo`, `bar` for `/{bar}`.
    pub fn name(&self) -> (r: &str)
        ensures
            r@ == seg_name(self@),
    {
        match self {
            RoutePathSegment::Static(name) => name.as_str(),
            RoutePathSegment::Wildcard(name) => name.as_str(),
        }
    }

    /// The text of the segment: its name, in braces for a wildcard.
    pub fn to_segment_string(&self) -> (r: String)
        ensures
            r@ == seg_text(self@),
    {
        let mut out = String::new();
        match self {
            RoutePathSegment::Static(name) => {
                append_str(&mut out, name.as_str());
            },
            RoutePathSegment::Wildcard(name) => {
                append_char(&mut out, '{');
                append_str(&mut out, name.as_str());
                append_char(&mut out, '}');
            },
        }
        out
    }

    /// A copy of the segment.
    pub fn duplicate(&self) -> (r: Self)
        ensures
            r@ == self@,
    {
        match self {
            RoutePathSegment::Static(name) => RoutePathSegment::Static(name.clone()),
            RoutePathSegment::Wildcard(name) => RoutePathSegment::Wildcard(name.clone()),
        }
    }
}


/// The mathematical form of a matched path segment.
pub enum MatchedSegView {
    Static(Seq<char>),
    Wildcard(Seq<char>, Seq<char>),
}

/// The pieces of `s` between slashes, empty pieces included, in order.
pub open spec fn split_slash(s: Seq<char>) -> Seq<Seq<char>>
    decreases s.len(),
{
    if s.len() == 0 {
        seq![Seq::empty()]
    } else {
        let init = split_slash(s.drop_last());
        if s.last() == '/' {
            init.push(Seq::empty())
        } else {
            init.update(init.len() - 1, init.last().push(s.last()))
        }
    }
}

/// Whether a piece of a path is written `{name}` with a non-empty name.
pub open spec fn is_braced(piece: Seq<char>) -> bool {
    piece.len() > 2 && piece[0] == '{' && piece.last() == '}'
}

/// The segment that a non-empty piece of a path stands for.
pub open spec fn classify(piece: Seq<char>) -> SegView {
    if is_braced(piece) {
        SegView::Wildcard(piece.subrange(1, piece.len() - 1))
    } else {
        SegView::Static(piece)
    }
}

/// The segments of a sequence of pieces: empty pieces are dropped.
pub open spec fn parse_pieces(ps: Seq<Seq<char>>) -> Seq<SegView>
    decreases ps.len(),
{
    if ps.len() == 0 {
        Seq::empty()
    } else {
        let init = parse_pieces(ps.drop_last());
        if ps.last().len() == 0 {
            init
        } else {
            init.push(classify(ps.last()))
        }
    }
}

/// The declared path that a string denotes.
pub open spec fn parse_path(s: Seq<char>) -> Seq<SegView> {
    parse_pieces(split_slash(s))
}

/// The text of one segment: its name, in braces for a wildcard.
pub open spec fn seg_text(s: SegView) -> Seq<char> {
    match s {
        SegView::Static(n) => n,
        SegView::Wildcard(n) => seq!['{'] + n + seq!['}'],
    }
}

/// The segment texts of a path joined by slashes.
pub open spec fn join_segs(p: Seq<SegView>) -> Seq<char>
    decreases p.len(),
{
    if p.len() == 0 {
        Seq::empty()
    } else if p.len() == 1 {
        seg_text(p[0])
    } else {
        join_segs(p.drop_last()) + seq!['/'] + seg_text(p.last())
    }
}

/// The string form of a declared path: a slash, then the joined segments.
pub open spec fn render_path(p: Seq<SegView>) -> Seq<char> {
    seq!['/'] + join_segs(p)
}

/// A segment that the string form carries unchanged: a non-empty name
/// without slashes, and a literal that does not read as a wildcard.
pub open spec fn seg_renders_faithfully(s: SegView) -> bool {
    &&& seg_name(s).len() > 0
    &&& !seg_name(s).contains('/')
    &&& (s matches SegView::Static(n) ==> !is_braced(n))
}

proof fn lemma_split_slash_nonempty(s: Seq<char>)
    ensures
        split_slash(s).len() >= 1,
    decreases s.len(),
{
    if s.len() > 0 {
        lemma_split_slash_nonempty(s.drop_last());
    }
}

/// Appending text without slashes extends the last piece.
proof fn lemma_split_append_plain(a: Seq<char>, b: Seq<char>)
    requires
        !b.contains('/'),
    ensures
        split_slash(a + b) == split_slash(a).update(
            split_slash(a).len() - 1,
            split_slash(a).last() + b,
        ),
    decreases b.len(),
{
    lemma_split_slash_nonempty(a);
    if b.len() == 0 {
        assert(a + b =~= a);
        assert(split_slash(a).last() + b =~= split_slash(a).last());
        assert(split_slash(a).update(split_slash(a).len() - 1, split_slash(a).last())
            =~= split_slash(a));
    } else {
        let b0 = b.drop_last();
        assert(!b0.contains('/')) by {
            if b0.contains('/') {
                let k = choose|k: int| 0 <= k < b0.len() && b0[k] == '/';
                assert(b[k] == '/');
            }
        }
        assert(b.last() != '/') by {
            assert(b[b.len() - 1] == b.last());
        }
        lemma_split_append_plain(a, b0);
        assert((a + b).drop_last() =~= a + b0);
        assert((a + b).last() == b.last());
        let sa = split_slash(a);
        let init = split_slash(a + b0);
        assert(init == sa.update(sa.len() - 1, sa.last() + b0));
        assert(init.len() == sa.len());
        assert(init.last() == sa.last() + b0);
        assert(split_slash(a + b) == init.update(init.len() - 1, init.last().push(b.last())));
        assert(sa.last() + b0 + seq![b.last()] =~= sa.last() + b);
        assert((sa.last() + b0).push(b.last()) =~= sa.last() + b);
        assert(init.update(init.len() - 1, init.last().push(b.last())) =~= sa.update(
            sa.len() - 1,
            sa.last() + b,
        ));
    }
}

proof fn lemma_split_append_slash(a: Seq<char>)
    ensures
        split_slash(a + seq!['/']) == split_slash(a).push(Seq::empty()),
{
    assert((a + seq!['/']).drop_last() =~= a);
}

proof fn lemma_split_of_slash()
    ensures
        split_slash(seq!['/']) == seq![Seq::<char>::empty(), Seq::<char>::empty()],
{
    let e = Seq::<char>::empty();
    assert(split_slash(e) == seq![e]);
    lemma_split_append_slash(e);
    assert(e + seq!['/'] =~= seq!['/']);
    assert(seq![e].push(e) =~= seq![e, e]);
}

proof fn lemma_classify_text(s: SegView)
    requires
        seg_renders_faithfully(s),
    ensures
        seg_text(s).len() > 0,
        !seg_text(s).contains('/'),
        classify(seg_text(s)) == s,
{
    let t = seg_text(s);
    match s {
        SegView::Static(n) => {},
        SegView::Wildcard(n) => {
            assert(t.subrange(1, t.len() - 1) =~= n);
            assert(t.len() == n.len() + 2);
            assert(t[0] == '{');
            assert(t.last() == '}');
            if t.contains('/') {
                let k = choose|k: int| 0 <= k < t.len() && t[k] == '/';
                assert(n[k - 1] == '/');
            }
        },
    }
}

proof fn lemma_parse_render_pieces(p: Seq<SegView>)
    requires
        forall|i: int| 0 <= i < p.len() ==> seg_renders_faithfully(#[trigger] p[i]),
    ensures
        parse_pieces(split_slash(render_path(p))) == p,
    decreases p.len(),
{
    if p.len() == 0 {
        assert(render_path(p) =~= seq!['/']);
        assert(seq!['/'].drop_last() =~= Seq::<char>::empty());
        lemma_split_of_slash();
        let e = Seq::<char>::empty();
        let ps = seq![e, e];
        assert(ps.drop_last() =~= seq![e]);
        assert(seq![e].drop_last() =~= Seq::<Seq<char>>::empty());
        assert(parse_pieces(seq![e]) == parse_pieces(Seq::<Seq<char>>::empty()));
        assert(parse_pieces(ps) == parse_pieces(seq![e]));
        assert(parse_pieces(ps) =~= p);
    } else {
        let init = p.drop_last();
        let x = p.last();
        assert(seg_renders_faithfully(p[p.len() - 1]));
        lemma_classify_text(x);
        let t = seg_text(x);
        if p.len() == 1 {
            assert(render_path(p) =~= seq!['/'] + t);
            lemma_split_append_plain(seq!['/'], t);
            lemma_split_of_slash();
            assert(seq!['/'].drop_last() =~= Seq::<char>::empty());
            let ps = seq![Seq::<char>::empty(), t];
            assert(split_slash(seq!['/']).last() + t =~= t);
            assert(split_slash(render_path(p)) =~= ps);
            let e = Seq::<char>::empty();
            assert(ps.drop_last() =~= seq![e]);
            assert(seq![e].drop_last() =~= Seq::<Seq<char>>::empty());
            assert(parse_pieces(seq![e]) == parse_pieces(Seq::<Seq<char>>::empty()));
            assert(ps.last() == t);
            assert(parse_pieces(ps) == parse_pieces(seq![e]).push(classify(t)));
            assert(p =~= seq![x]);
            assert(parse_pieces(ps) =~= p);
        } else {
            assert forall|i: int| 0 <= i < init.len() implies seg_renders_faithfully(
                #[trigger] init[i],
            ) by {
                assert(init[i] == p[i]);
            }
            lemma_parse_render_pieces(init);
            let r = render_path(init);
            assert(render_path(p) =~= r + seq!['/'] + t);
            lemma_split_append_slash(r);
            lemma_split_append_plain(r + seq!['/'], t);
            let ps = split_slash(r).push(Seq::empty());
            assert(ps.last() + t =~= t);
            assert(split_slash(render_path(p)) =~= split_slash(r).push(t));
            assert(split_slash(r).push(t).drop_last() =~= split_slash(r));
            assert(split_slash(r).push(t).last() == t);
            assert(parse_pieces(split_slash(r).push(t)) == parse_pieces(split_slash(r)).push(
                classify(t),
            ));
            assert(init.push(x) =~= p);
        }
    }
}

/// Rendering a declared path and parsing the result gives the path back,
/// provided that every segment is carried faithfully by the string form.
pub proof fn lemma_parse_render(p: Seq<SegView>)
    requires
        forall|i: int| 0 <= i < p.len() ==> seg_renders_faithfully(#[trigger] p[i]),
    ensures
        parse_path(render_path(p)) == p,
{
    lemma_parse_render_pieces(p);
}

/// The view of a sequence of declared segments.
pub open spec fn segs_view(v: Seq<RoutePathSegment>) -> Seq<SegView> {
    v.map_values(|s: RoutePathSegment| s@)
}

/// The segment that a non-empty piece of a path stands for.
fn classify_piece(piece: &str) -> (r: RoutePathSegment)
    ensures
        r@ == classify(piece@),
{
    let n = piece.unicode_len();
    if n > 2 && piece.get_char(0) == '{' && piece.get_char(n - 1) == '}' {
        RoutePathSegment::Wildcard(piece.substring_char(1, n - 1).to_owned())
    } else {
        RoutePathSegment::Static(piece.to_owned())
    }
}

/// Copies a sequence of segments.
fn copy_segments(v: &[RoutePathSegment]) -> (r: Vec<RoutePathSegment>)
    ensures
        segs_view(r@) == segs_view(v@),
{
    let mut r: Vec<RoutePathSegment> = Vec::new();
    let mut i: usize = 0;
    while i < v.len()
        invariant
            i <= v@.len(),
            segs_view(r@) =~= segs_view(v@.take(i as int)),
        decreases v@.len() - i,
    {
        let ghost old_r = r@;
        let d = v[i].duplicate();
        r.push(d);
        assert(segs_view(r@) =~= segs_view(old_r).push(v@[i as int]@));
        assert(v@.take(i + 1) =~= v@.take(i as int).push(v@[i as int]));
        assert(segs_view(v@.take(i + 1)) =~= segs_view(v@.take(i as int)).push(v@[i as int]@));
        i = i + 1;
    }
    assert(v@.take(v@.len() as int) =~= v@);
    r
}

/// A declared route path: a sequence of segments, empty for the root `/`.
#[derive(Debug)]
pub struct RoutePath {
    segments: Vec<RoutePathSegment>,
}

impl View for RoutePath {
    type V = Seq<SegView>;

    closed spec fn view(&self) -> Seq<SegView> {
        segs_view(self.segments@)
    }
}

impl RoutePath {
    /// The root path, with no segments.
    pub fn new() -> (r: Self)
        ensures
            r@ == Seq::<SegView>::empty(),
    {
        RoutePath { segments: Vec::new() }
    }

    /// A path of the given segments.
    pub fn from_segments(segments: &[RoutePathSegment]) -> (r: Self)
        ensures
            r@ == segs_view(segments@),
    {
        RoutePath { segments: copy_segments(segments) }
    }

    /// A path of one segment.
    pub fn from_segment(segment: RoutePathSegment) -> (r: Self)
        ensures
            r@ == seq![segment@],
    {
        let mut segments: Vec<RoutePathSegment> = Vec::new();
        segments.push(segment);
        let r = RoutePath { segments };
        assert(r@ =~= seq![segment@]);
        r
    }

    /// Parses a `/`-separated path. Empty pieces are ignored, so `/a//b/`,
    /// `a/b` and `/a/b` all give the segments `a`, `b`; a piece written
    /// `{name}` with a non-empty name is a wildcard, any other a literal.
    #[verifier::spinoff_prover]
    #[verifier::rlimit(60)]
    pub fn parse(s: &str) -> (r: Self)
        ensures
            r@ == parse_path(s@),
    {
        let n = s.unicode_len();
        let mut segments: Vec<RoutePathSegment> = Vec::new();
        let mut start: usize = 0;
        let mut i: usize = 0;
        let ghost mut done: Seq<Seq<char>> = Seq::empty();
        assert(s@.take(0) =~= Seq::<char>::empty());
        assert(s@.subrange(0, 0) =~= Seq::<char>::empty());
        assert(done.push(Seq::<char>::empty()) =~= seq![Seq::<char>::empty()]);
        while i < n
            invariant
                n == s@.len(),
                start <= i <= n,
                split_slash(s@.take(i as int)) == done.push(s@.subrange(start as int, i as int)),
                segs_view(segments@) == parse_pieces(done),
            decreases n - i,
        {
            let c = s.get_char(i);
            let ghost cur = s@.subrange(start as int, i as int);
            assert(s@.take(i + 1).drop_last() =~= s@.take(i as int));
            assert(s@.take(i + 1).last() == c);
            if c == '/' {
                if start < i {
                    let piece = s.substring_char(start, i);
                    let seg = classify_piece(piece);
                    segments.push(seg);
                }
                proof {
                    assert(done.push(cur).drop_last() =~= done);
                    assert(segs_view(segments@) =~= parse_pieces(done.push(cur)));
                    done = done.push(cur);
                }
                start = i + 1;
                assert(s@.subrange(start as int, start as int) =~= Seq::<char>::empty());
            } else {
                assert(s@.subrange(start as int, i + 1) =~= cur.push(c));
                assert(done.push(cur).update(done.len() as int, cur.push(c)) =~= done.push(
                    cur.push(c),
                ));
            }
            i = i + 1;
        }
        let ghost cur = s@.subrange(start as int, n as int);
        if start < n {
            let piece = s.substring_char(start, n);
            let seg = classify_piece(piece);
            segments.push(seg);
        }
        proof {
            assert(s@.take(n as int) =~= s@);
            assert(done.push(cur).drop_last() =~= done);
            assert(segs_view(segments@) =~= parse_pieces(done.push(cur)));
        }
        RoutePath { segments }
    }

    /// A copy of the path.
    pub fn duplicate(&self) -> (r: Self)
        ensures
            r@ == self@,
    {
        RoutePath { segments: copy_segments(self.segments.as_slice()) }
    }

    /// This path followed by the segments of `other`, as a new path.
    pub fn join(&self, other: &RoutePath) -> (r: Self)
        ensures
            r@ == self@ + other@,
    {
        let mut segments = copy_segments(self.segments.as_slice());
        let mut i: usize = 0;
        while i < other.segments.len()
            invariant
                i <= other.segments@.len(),
                segs_view(segments@) =~= self@ + other@.take(i as int),
            decreases other.segments@.len() - i,
        {
            let ghost old_s = segments@;
            let d = other.segments[i].duplicate();
            segments.push(d);
            assert(segs_view(segments@) =~= segs_view(old_s).push(other@[i as int]));
            assert(other@.take(i + 1) =~= other@.take(i as int).push(other@[i as int]));
            i = i + 1;
        }
        assert(other@.take(other@.len() as int) =~= other@);
        RoutePath { segments }
    }

    /// This path followed by one more segment, as a new path.
    pub fn join_segment(&self, segment: RoutePathSegment) -> (r: Self)
        ensures
            r@ == self@.push(segment@),
    {
        let mut segments = copy_segments(self.segments.as_slice());
        segments.push(segment);
        let r = RoutePath { segments };
        assert(r@ =~= self@.push(segment@));
        r
    }

    /// The number of segments.
    pub fn num_segments(&self) -> (r: usize)
        ensures
            r == self@.len(),
    {
        self.segments.len()
    }

    /// An iterator over the segments, in order.
    pub fn iter(&self) -> (r: std::slice::Iter<'_, RoutePathSegment>)
        ensures
            segs_view(into_iter_elts(r)) == self@,
    {
        self.segments.as_slice().iter()
    }

    /// All segments, in order.
    pub fn segments(&self) -> (r: &[RoutePathSegment])
        ensures
            segs_view(r@) == self@,
    {
        self.segments.as_slice()
    }

    /// The segments from index `start` up to, not including, `end`.
    pub fn with_segments(&self, start: usize, end: usize) -> (r: &[RoutePathSegment])
        requires
            start <= end <= self@.len(),
        ensures
            segs_view(r@) == self@.subrange(start as int, end as int),
    {
        let r = &self.segments.as_slice()[start..end];
        assert(segs_view(r@) =~= self@.subrange(start as int, end as int));
        r
    }

    /// A new path of the segments from index `start` up to, not including,
    /// `end`.
    pub fn of_segments(&self, start: usize, end: usize) -> (r: Self)
        requires
            start <= end <= self@.len(),
        ensures
            r@ == self@.subrange(start as int, end as int),
    {
        RoutePath { segments: copy_segments(self.with_segments(start, end)) }
    }

    /// The first segment and the path of the remaining ones, or `None` for
    /// the root path.
    pub fn split_first(&self) -> (r: Option<(RoutePathSegment, RoutePath)>)
        ensures
            self@.len() == 0 <==> r is None,
            r matches Some((first, rest)) ==> first@ == self@[0] && rest@ == self@.drop_first(),
    {
        if self.segments.len() == 0 {
            None
        } else {
            let first = self.segments[0].duplicate();
            let rest = self.of_segments(1, self.segments.len());
            assert(self@.subrange(1, self@.len() as int) =~= self@.drop_first());
            Some((first, rest))
        }
    }

    /// The string form of the path: `/` followed by the segments joined by
    /// `/`, wildcards written `{name}`.
    pub fn to_path_string(&self) -> (r: String)
        ensures
            r@ == render_path(self@),
    {
        let mut out = String::new();
        append_char(&mut out, '/');
        let mut i: usize = 0;
        while i < self.segments.len()
            invariant
                i <= self.segments@.len(),
                out@ == seq!['/'] + join_segs(self@.take(i as int)),
            decreases self.segments@.len() - i,
        {
            let ghost before = out@;
            if i > 0 {
                append_char(&mut out, '/');
            }
            match &self.segments[i] {
                RoutePathSegment::Static(name) => {
                    append_str(&mut out, name.as_str());
                },
                RoutePathSegment::Wildcard(name) => {
                    append_char(&mut out, '{');
                    append_str(&mut out, name.as_str());
                    append_char(&mut out, '}');
                },
            }
            let ghost t = seg_text(self@[i as int]);
            assert(self@.take(i + 1).drop_last() =~= self@.take(i as int));
            assert(self@.take(i + 1).last() == self@[i as int]);
            if i == 0 {
                assert(self@.take(1) =~= seq![self@[0]]);
                assert(out@ =~= seq!['/'] + join_segs(self@.take(1)));
            } else {
                assert(out@ =~= seq!['/'] + join_segs(self@.take(i + 1)));
            }
            i = i + 1;
        }
        assert(self@.take(self@.len() as int) =~= self@);
        out
    }
}

/// A segment of a matched route path.
#[derive(Debug, Clone, PartialEq, Eq, Hash)]
pub enum RoutePathMatchedSegment {
    /// A literal segment.
    Static(String),
    /// A wildcard segment: the wildcard's name, then the text it matched.
    Wildcard(String, String),
}

impl View for RoutePathMatchedSegment {
    type V = MatchedSegView;

    open spec fn view(&self) -> MatchedSegView {
        match self {
            RoutePathMatchedSegment::Static(n) => MatchedSegView::Static(n@),
            RoutePathMatchedSegment::Wildcard(n, v) => MatchedSegView::Wildcard(n@, v@),
        }
    }
}

impl RoutePathMatchedSegment {
    /// A copy of the segment.
    pub fn duplicate(&self) -> (r: Self)
        ensures
            r@ == self@,
    {
        match self {
            RoutePathMatchedSegment::Static(name) => RoutePathMatchedSegment::Static(name.clone()),
            RoutePathMatchedSegment::Wildcard(name, value) => RoutePathMatchedSegment::Wildcard(
                name.clone(),
                value.clone(),
            ),
        }
    }
}

/// The view of a sequence of matched segments.
pub open spec fn matched_view(v: Seq<RoutePathMatchedSegment>) -> Seq<MatchedSegView> {
    v.map_values(|s: RoutePathMatchedSegment| s@)
}

/// Copies a sequence of matched segments.
fn copy_matched(v: &[RoutePathMatchedSegment]) -> (r: Vec<RoutePathMatchedSegment>)
    ensures
        matched_view(r@) == matched_view(v@),
{
    let mut r: Vec<RoutePathMatchedSegment> = Vec::new();
    let mut i: usize = 0;
    while i < v.len()
        invariant
            i <= v@.len(),
            matched_view(r@) =~= matched_view(v@.take(i as int)),
        decreases v@.len() - i,
    {
        let ghost old_r = r@;
        let d = v[i].duplicate();
        r.push(d);
        assert(matched_view(r@) =~= matched_view(old_r).push(v@[i as int]@));
        assert(v@.take(i + 1) =~= v@.take(i as int).push(v@[i as int]));
        assert(matched_view(v@.take(i + 1)) =~= matched_view(v@.take(i as int)).push(
            v@[i as int]@,
        ));
        i = i + 1;
    }
    assert(v@.take(v@.len() as int) =~= v@);
    r
}

/// The declared segment that a matched segment matched.
pub open spec fn declared_seg(s: MatchedSegView) -> SegView {
    match s {
        MatchedSegView::Static(n) => SegView::Static(n),
        MatchedSegView::Wildcard(n, _) => SegView::Wildcard(n),
    }
}

/// The declared path that a matched path matched.
pub open spec fn declared_of(p: Seq<MatchedSegView>) -> Seq<SegView> {
    p.map_values(|s: MatchedSegView| declared_seg(s))
}

/// A matched route path: the path of one request, with each wildcard
/// carrying the text that it matched.
#[derive(Debug)]
pub struct RoutePathMatched {
    segments: Vec<RoutePathMatchedSegment>,
}

impl View for RoutePathMatched {
    type V = Seq<MatchedSegView>;

    closed spec fn view(&self) -> Seq<MatchedSegView> {
        matched_view(self.segments@)
    }
}

impl RoutePathMatched {
    /// The matched root path, with no segments.
    pub fn new() -> (r: Self)
        ensures
            r@ == Seq::<MatchedSegView>::empty(),
    {
        RoutePathMatched { segments: Vec::new() }
    }

    /// A matched path of the given segments.
    pub fn from_segments(segments: &[RoutePathMatchedSegment]) -> (r: Self)
        ensures
            r@ == matched_view(segments@),
    {
        RoutePathMatched { segments: copy_matched(segments) }
    }

    /// A matched path of one segment.
    pub fn from_segment(segment: RoutePathMatchedSegment) -> (r: Self)
        ensures
            r@ == seq![segment@],
    {
        let mut segments: Vec<RoutePathMatchedSegment> = Vec::new();
        segments.push(segment);
        let r = RoutePathMatched { segments };
        assert(r@ =~= seq![segment@]);
        r
    }

    /// A copy of the path.
    pub fn duplicate(&self) -> (r: Self)
        ensures
            r@ == self@,
    {
        RoutePathMatched { segments: copy_matched(self.segments.as_slice()) }
    }

    /// This path followed by the segments of `other`, as a new path.
    pub fn join(&self, other: &RoutePathMatched) -> (r: Self)
        ensures
            r@ == self@ + other@,
    {
        let mut segments = copy_matched(self.segments.as_slice());
        let mut i: usize = 0;
        while i < other.segments.len()
            invariant
                i <= other.segments@.len(),
                matched_view(segments@) =~= self@ + other@.take(i as int),
            decreases other.segments@.len() - i,
        {
            let ghost old_s = segments@;
            let d = other.segments[i].duplicate();
            segments.push(d);
            assert(matched_view(segments@) =~= matched_view(old_s).push(other@[i as int]));
            assert(other@.take(i + 1) =~= other@.take(i as int).push(other@[i as int]));
            i = i + 1;
        }
        assert(other@.take(other@.len() as int) =~= other@);
        RoutePathMatched { segments }
    }

    /// This path followed by one more segment, as a new path.
    pub fn join_segment(&self, segment: RoutePathMatchedSegment) -> (r: Self)
        ensures
            r@ == self@.push(segment@),
    {
        let mut segments = copy_matched(self.segments.as_slice());
        segments.push(segment);
        let r = RoutePathMatched { segments };
        assert(r@ =~= self@.push(segment@));
        r
    }

    /// The declared path that this path matched: each wildcard by its name
    /// alone.
    pub fn declared(&self) -> (r: RoutePath)
        ensures
            r@ == declared_of(self@),
    {
        let mut segs: Vec<RoutePathSegment> = Vec::new();
        let mut i: usize = 0;
        while i < self.segments.len()
            invariant
                i <= self.segments@.len(),
                segs_view(segs@) =~= declared_of(self@.take(i as int)),
            decreases self.segments@.len() - i,
        {
            let ghost before = segs@;
            let seg = match &self.segments[i] {
                RoutePathMatchedSegment::Static(n) => RoutePathSegment::Static(n.clone()),
                RoutePathMatchedSegment::Wildcard(n, _) => RoutePathSegment::Wildcard(n.clone()),
            };
            segs.push(seg);
            assert(self@.take(i + 1) =~= self@.take(i as int).push(self@[i as int]));
            assert(segs_view(segs@) =~= segs_view(before).push(seg@));
            i = i + 1;
        }
        assert(self@.take(self@.len() as int) =~= self@);
        RoutePath::from_segments(segs.as_slice())
    }

    /// Appends one segment in place.
    pub fn push_segment(&mut self, segment: RoutePathMatchedSegment)
        ensures
            final(self)@ == old(self)@.push(segment@),
    {
        self.segments.push(segment);
        assert(final(self)@ =~= old(self)@.push(segment@));
    }

    /// The number of segments.
    pub fn num_segments(&self) -> (r: usize)
        ensures
            r == self@.len(),
    {
        self.segments.len()
    }

    /// An iterator over the segments, in order.
    pub fn iter(&self) -> (r: std::slice::Iter<'_, RoutePathMatchedSegment>)
        ensures
            matched_view(into_iter_elts(r)) == self@,
    {
        self.segments.as_slice().iter()
    }

    /// All segments, in order.
    pub fn segments(&self) -> (r: &[RoutePathMatchedSegment])
        ensures
            matched_view(r@) == self@,
    {
        self.segments.as_slice()
    }

    /// The segments from index `start` up to, not including, `end`.
    pub fn with_segments(&self, start: usize, end: usize) -> (r: &[RoutePathMatchedSegment])
        requires
            start <= end <= self@.len(),
        ensures
            matched_view(r@) == self@.subrange(start as int, end as int),
    {
        let r = &self.segments.as_slice()[start..end];
        assert(matched_view(r@) =~= self@.subrange(start as int, end as int));
        r
    }

    /// A new path of the segments from index `start` up to, not including,
    /// `end`.
    pub fn of_segments(&self, start: usize, end: usize) -> (r: Self)
        requires
            start <= end <= self@.len(),
        ensures
            r@ == self@.subrange(start as int, end as int),
    {
        RoutePathMatched { segments: copy_matched(self.with_segments(start, end)) }
    }

    /// The first segment and the path of the remaining ones, or `None` for
    /// the root path.
    pub fn split_first(&self) -> (r: Option<(RoutePathMatchedSegment, RoutePathMatched)>)
        ensures
            self@.len() == 0 <==> r is None,
            r matches Some((first, rest)) ==> first@ == self@[0] && rest@ == self@.drop_first(),
    {
        if self.segments.len() == 0 {
            None
        } else {
            let first = self.segments[0].duplicate();
            let rest = self.of_segments(1, self.segments.len());
            assert(self@.subrange(1, self@.len() as int) =~= self@.drop_first());
            Some((first, rest))
        }
    }
}

} // verus!
