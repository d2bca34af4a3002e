//! Splitting of request paths and templates into segments.
use vstd::prelude::*;
use vstd::string::*;

verus! {

/// The separator between two segments.
pub const PATH_SEP: char = '/';

/// The first character of a parameter segment.
pub const PARAM_MARK: char = ':';

/// The first character of a wildcard segment.
pub const WILDCARD_MARK: char = '*';

/// The number of separators that open `p`.
pub open spec fn leading_seps(p: Seq<char>) -> nat
    decreases p.len(),
{
    if p.len() > 0 && p[0] == PATH_SEP {
        1 + leading_seps(p.drop_first())
    } else {
        0
    }
}

/// One separator at the start of `p` is skipped, if there is one.
pub open spec fn one_leading_sep(p: Seq<char>) -> nat {
    if p.len() > 0 && p[0] == PATH_SEP {
        1
    } else {
        0
    }
}

/// The spans `[start, end)` of the segments of `p`, scanning from `i` with
/// the current segment opened at `start`.
pub open spec fn spans_from(p: Seq<char>, i: int, start: int) -> Seq<(int, int)>
    decreases p.len() - i,
{
    if i >= p.len() {
        seq![(start, p.len() as int)]
    } else if p[i] == PATH_SEP {
        seq![(start, i)] + spans_from(p, i + 1, i + 1)
    } else {
        spans_from(p, i + 1, start)
    }
}

/// The spans of the segments of `p` once its first `lead` characters are
/// skipped: the rest is cut at every separator, and empty segments count.
pub open spec fn segment_spans(p: Seq<char>, lead: int) -> Seq<(int, int)> {
    spans_from(p, lead, lead)
}

/// The segments of `p` once its first `lead` characters are skipped.
pub open spec fn segments(p: Seq<char>, lead: int) -> Seq<Seq<char>> {
    segment_spans(p, lead).map_values(|sp: (int, int)| p.subrange(sp.0, sp.1))
}

/// The text of `p` from the start of segment `k` to its end, separators
/// included.
pub open spec fn remainder(p: Seq<char>, lead: int, k: int) -> Seq<char> {
    p.subrange(segment_spans(p, lead)[k].0, p.len() as int)
}

/// There is at least one segment, and every span lies within the path.
pub proof fn lemma_spans_bounds(p: Seq<char>, i: int, start: int)
    requires
        0 <= start <= i <= p.len(),
    ensures
        spans_from(p, i, start).len() >= 1,
        forall|k: int|
            0 <= k < spans_from(p, i, start).len() ==> start <= #[trigger] spans_from(
                p,
                i,
                start,
            )[k].0 <= spans_from(p, i, start)[k].1 <= p.len(),
    decreases p.len() - i,
{
    if i < p.len() {
        if p[i] == PATH_SEP {
            lemma_spans_bounds(p, i + 1, i + 1);
        } else {
            lemma_spans_bounds(p, i + 1, start);
        }
    }
}

/// Counts the separators that open `p`.
pub fn count_leading_seps(p: &str) -> (r: usize)
    ensures
        r == leading_seps(p@),
        r <= p@.len(),
{
    let n = p.unicode_len();
    let mut i: usize = 0;
    assert(p@.skip(0) =~= p@);
    while i < n && p.get_char(i) == PATH_SEP
        invariant
            n == p@.len(),
            i <= n,
            forall|j: int| 0 <= j < i ==> p@[j] == PATH_SEP,
            leading_seps(p@) == i + leading_seps(p@.skip(i as int)),
        decreases n - i,
    {
        assert(p@.skip(i as int).drop_first() =~= p@.skip(i + 1));
        i = i + 1;
    }
    assert(p@.skip(i as int).len() == 0 || p@.skip(i as int)[0] != PATH_SEP);
    i
}

/// Counts the one separator that may open `p`.
pub fn count_one_leading_sep(p: &str) -> (r: usize)
    ensures
        r == one_leading_sep(p@),
        r <= p@.len(),
{
    if p.unicode_len() > 0 && p.get_char(0) == PATH_SEP {
        1
    } else {
        0
    }
}

/// Splits `p`, from its character `lead` on, into its segments, and gives
/// the position in `p` at which each segment starts.
pub fn split_segments(p: &str, lead: usize) -> (r: (Vec<String>, Vec<usize>))
    requires
        lead <= p@.len(),
    ensures
        r.0@.len() == segment_spans(p@, lead as int).len(),
        r.1@.len() == r.0@.len(),
        r.0@.len() >= 1,
        forall|k: int|
            0 <= k < r.0@.len() ==> (#[trigger] r.0@[k])@ == segments(p@, lead as int)[k],
        forall|k: int|
            0 <= k < r.1@.len() ==> #[trigger] r.1@[k] as int == segment_spans(
                p@,
                lead as int,
            )[k].0,
        forall|k: int| 0 <= k < r.1@.len() ==> #[trigger] r.1@[k] <= p@.len(),
{
    let ghost all = segment_spans(p@, lead as int);
    let ghost mut done: Seq<(int, int)> = seq![];
    let n = p.unicode_len();
    let mut segs: Vec<String> = Vec::new();
    let mut starts: Vec<usize> = Vec::new();
    let mut start: usize = lead;
    let mut i: usize = lead;
    while i < n
        invariant
            n == p@.len(),
            lead <= start <= i <= n,
            segs@.len() == done.len(),
            starts@.len() == done.len(),
            all == segment_spans(p@, lead as int),
            all == done + spans_from(p@, i as int, start as int),
            forall|k: int|
                0 <= k < done.len() ==> 0 <= (#[trigger] done[k]).0 <= done[k].1 <= n,
            forall|k: int|
                0 <= k < segs@.len() ==> (#[trigger] segs@[k])@ == p@.subrange(
                    done[k].0,
                    done[k].1,
                ),
            forall|k: int| 0 <= k < starts@.len() ==> #[trigger] starts@[k] as int == done[k].0,
        decreases n - i,
    {
        if p.get_char(i) == PATH_SEP {
            let seg = p.substring_char(start, i).to_owned();
            segs.push(seg);
            starts.push(start);
            proof {
                let old_done = done;
                done = done.push((start as int, i as int));
                assert(spans_from(p@, i as int, start as int) == seq![(start as int, i as int)]
                    + spans_from(p@, i + 1, i + 1));
                assert(old_done + spans_from(p@, i as int, start as int) =~= done
                    + spans_from(p@, i + 1, i + 1));
            }
            start = i + 1;
        }
        i = i + 1;
    }
    let seg = p.substring_char(start, n).to_owned();
    segs.push(seg);
    starts.push(start);
    proof {
        assert(spans_from(p@, n as int, start as int) == seq![(start as int, n as int)]);
        done = done.push((start as int, n as int));
        assert(all =~= done);
    }
    (segs, starts)
}

/// The text of `p` from position `start` on.
pub fn text_from(p: &str, start: usize) -> (r: String)
    requires
        start <= p@.len(),
    ensures
        r@ == p@.subrange(start as int, p@.len() as int),
{
    let n = p.unicode_len();
    p.substring_char(start, n).to_owned()
}

/// `p` without the separators that close it.
pub open spec fn trim_trailing_seps(p: Seq<char>) -> Seq<char>
    decreases p.len(),
{
    if p.len() > 0 && p.last() == PATH_SEP {
        trim_trailing_seps(p.drop_last())
    } else {
        p
    }
}

/// Drops the separators that close `p`.
pub fn trim_end_seps(p: &str) -> (r: &str)
    ensures
        r@ == trim_trailing_seps(p@),
{
    let n = p.unicode_len();
    let mut end: usize = n;
    assert(p@.subrange(0, n as int) =~= p@);
    while end > 0 && p.get_char(end - 1) == PATH_SEP
        invariant
            n == p@.len(),
            end <= n,
            trim_trailing_seps(p@) == trim_trailing_seps(p@.subrange(0, end as int)),
        decreases end,
    {
        assert(p@.subrange(0, end as int).drop_last() =~= p@.subrange(0, end - 1));
        end = end - 1;
    }
    p.substring_char(0, end)
}

/// The role of a template segment.
#[derive(PartialEq, Eq, Structural, Clone, Copy, Debug)]
pub enum Kind {
    /// Matches the segment text exactly.
    Static,
    /// Matches any one segment.
    Param,
    /// Matches the rest of the path.
    Wildcard,
}

/// A compiled template segment: a literal text, a parameter, or a wildcard,
/// the last two with a name that may be empty.
#[derive(Debug, Clone)]
pub enum Pattern {
    Static(String),
    Param(String),
    Wildcard(String),
}

impl View for Pattern {
    type V = (Kind, Seq<char>);

    /// The role of the segment with its text (for a literal) or its name.
    open spec fn view(&self) -> (Kind, Seq<char>) {
        match self {
            Pattern::Static(s) => (Kind::Static, s@),
            Pattern::Param(s) => (Kind::Param, s@),
            Pattern::Wildcard(s) => (Kind::Wildcard, s@),
        }
    }
}

/// The pattern that a template segment compiles to.
pub open spec fn pattern_of(seg: Seq<char>) -> (Kind, Seq<char>) {
    if seg.len() > 0 && seg[0] == PARAM_MARK {
        (Kind::Param, seg.drop_first())
    } else if seg.len() > 0 && seg[0] == WILDCARD_MARK {
        (Kind::Wildcard, seg.drop_first())
    } else {
        (Kind::Static, seg)
    }
}

/// The text that stands for a pattern in a table of children: the literal
/// text, or the mark of a parameter or a wildcard.
pub open spec fn pattern_key(p: (Kind, Seq<char>)) -> Seq<char> {
    match p.0 {
        Kind::Static => p.1,
        Kind::Param => seq![PARAM_MARK],
        Kind::Wildcard => seq![WILDCARD_MARK],
    }
}

impl Pattern {
    /// Compiles one template segment.
    pub fn from_str(seg: &str) -> (r: Pattern)
        ensures
            r@ == pattern_of(seg@),
    {
        let n = seg.unicode_len();
        if n > 0 {
            let c = seg.get_char(0);
            if c == PARAM_MARK {
                let name = seg.substring_char(1, n).to_owned();
                assert(name@ =~= seg@.drop_first());
                return Pattern::Param(name);
            } else if c == WILDCARD_MARK {
                let name = seg.substring_char(1, n).to_owned();
                assert(name@ =~= seg@.drop_first());
                return Pattern::Wildcard(name);
            }
        }
        Pattern::Static(seg.to_owned())
    }

    /// The role of this pattern.
    pub fn kind(&self) -> (r: Kind)
        ensures
            r == self@.0,
    {
        match self {
            Pattern::Static(_) => Kind::Static,
            Pattern::Param(_) => Kind::Param,
            Pattern::Wildcard(_) => Kind::Wildcard,
        }
    }

    /// The literal text, or the name of a parameter or a wildcard.
    pub fn text(&self) -> (r: &String)
        ensures
            r@ == self@.1,
    {
        match self {
            Pattern::Static(s) => s,
            Pattern::Param(s) => s,
            Pattern::Wildcard(s) => s,
        }
    }

    /// The key of this pattern in a table of children.
    pub fn as_pat(&self) -> (r: String)
        ensures
            r@ == pattern_key(self@),
    {
        match self {
            Pattern::Static(s) => s.clone(),
            Pattern::Param(_) => {
                let r = ":".to_owned();
                proof {
                    reveal_strlit(":");
                }
                assert(r@ =~= seq![PARAM_MARK]);
                r
            },
            Pattern::Wildcard(_) => {
                let r = "*".to_owned();
                proof {
                    reveal_strlit("*");
                }
                assert(r@ =~= seq![WILDCARD_MARK]);
                r
            },
        }
    }

    /// A copy of this pattern.
    pub fn copy(&self) -> (r: Pattern)
        ensures
            r@ == self@,
    {
        match self {
            Pattern::Static(s) => Pattern::Static(s.clone()),
            Pattern::Param(s) => Pattern::Param(s.clone()),
            Pattern::Wildcard(s) => Pattern::Wildcard(s.clone()),
        }
    }
}

} // verus!
