//! The backtracking matcher: an arena of states whose transitions are taken
//! one segment at a time, exploring every candidate road at once.
use vstd::prelude::*;
use crate::path::{
    Kind, Pattern, pattern_of, leading_seps, segments, remainder, count_leading_seps,
    split_segments, text_from,
};

verus! {

/// The state that the first literal transition with text `key` leads to.
pub open spec fn lookup(s: Seq<(String, usize)>, key: Seq<char>) -> Option<usize>
    decreases s.len(),
{
    if s.len() == 0 {
        None
    } else if s[0].0@ == key {
        Some(s[0].1)
    } else {
        lookup(s.drop_first(), key)
    }
}

/// A lookup succeeds exactly when some entry has the key, and gives that entry's state.
pub proof fn lemma_lookup_in(s: Seq<(String, usize)>, key: Seq<char>)
    ensures
        lookup(s, key) is Some <==> exists|j: int| 0 <= j < s.len() && (#[trigger] s[j]).0@ == key,
        lookup(s, key) is Some ==> exists|j: int|
            0 <= j < s.len() && (#[trigger] s[j]).0@ == key && s[j].1 == lookup(s, key)->0,
    decreases s.len(),
{
    if s.len() > 0 {
        lemma_lookup_in(s.drop_first(), key);
        if s[0].0@ != key {
            if exists|j: int| 0 <= j < s.len() && (#[trigger] s[j]).0@ == key {
                let j = choose|j: int| 0 <= j < s.len() && (#[trigger] s[j]).0@ == key;
                assert(s.drop_first()[j - 1] == s[j]);
            }
            if lookup(s, key) is Some {
                let j = choose|j: int|
                    0 <= j < s.drop_first().len() && (#[trigger] s.drop_first()[j]).0@ == key
                        && s.drop_first()[j].1 == lookup(s, key)->0;
                assert(s[j + 1] == s.drop_first()[j]);
            }
        }
    }
}

/// Appending an entry changes only the lookup of a key that had none.
pub proof fn lemma_lookup_push(s: Seq<(String, usize)>, x: (String, usize), key: Seq<char>)
    ensures
        lookup(s.push(x), key) == (match lookup(s, key) {
            Some(v) => Some(v),
            None => if x.0@ == key {
                Some(x.1)
            } else {
                None
            },
        }),
    decreases s.len(),
{
    if s.len() > 0 {
        assert(s.push(x).drop_first() =~= s.drop_first().push(x));
        assert(s.push(x)[0] == s[0]);
        lemma_lookup_push(s.drop_first(), x, key);
    } else {
        assert(s.push(x).drop_first() =~= s);
        assert(s.push(x)[0] == x);
    }
}

/// Replacing the first entry of a key changes only the lookup of that key.
pub proof fn lemma_lookup_update(s: Seq<(String, usize)>, j: int, x: (String, usize), key: Seq<char>)
    requires
        0 <= j < s.len(),
        s[j].0@ == x.0@,
        lookup(s, x.0@) == Some(s[j].1),
        forall|i: int| 0 <= i < j ==> (#[trigger] s[i]).0@ != x.0@,
    ensures
        lookup(s.update(j, x), key) == if key == x.0@ {
            Some(x.1)
        } else {
            lookup(s, key)
        },
    decreases j,
{
    assert(s.update(j, x)[0] == if j == 0 { x } else { s[0] });
    if j == 0 {
        assert(s.update(j, x).drop_first() =~= s.drop_first());
    } else {
        assert(s.update(j, x).drop_first() =~= s.drop_first().update(j - 1, x));
        assert forall|i: int| 0 <= i < j - 1 implies (#[trigger] s.drop_first()[i]).0@ != x.0@ by {
            assert(s.drop_first()[i] == s[i + 1]);
        }
        lemma_lookup_update(s.drop_first(), j - 1, x, key);
    }
}

/// `(a, b)` is one of `pairs`.
pub open spec fn paired(pairs: Seq<(usize, usize)>, a: usize, b: usize) -> bool {
    exists|j: int| 0 <= j < pairs.len() && pairs[j] == (a, b)
}

/// No pair of `pairs` but the `j`-th copies its donor state.
pub open spec fn donor_once(pairs: Seq<(usize, usize)>, j: int) -> bool {
    forall|i: int| 0 <= i < pairs.len() && i != j ==> (#[trigger] pairs[i]).1 != pairs[j].1
}

/// Every pair of `pairs` is one of `more`.
pub open spec fn pairs_within(pairs: Seq<(usize, usize)>, more: Seq<(usize, usize)>) -> bool {
    forall|j: int| 0 <= j < pairs.len() ==> paired(more, #[trigger] pairs[j].0, pairs[j].1)
}

/// Pattern `p` is what role `k` takes on text `key`.
pub open spec fn pat_matches(p: (Kind, Seq<char>), k: Kind, key: Seq<char>) -> bool {
    k == p.0 && (k != Kind::Static || key == p.1)
}

/// Entry `e` is the transition that role `k` takes on text `key`.
pub open spec fn entry_matches(e: Entry, k: Kind, key: Seq<char>) -> bool {
    e.pat@.0 == k && (k != Kind::Static || e.pat@.1 == key)
}

/// A parameter or wildcard transition: the pattern it was made from, and the
/// state it leads to.
#[derive(Debug, Clone)]
pub struct Entry {
    pub pat: Pattern,
    pub index: usize,
}

impl Entry {
    pub fn new(pat: Pattern, index: usize) -> (r: Entry)
        ensures
            r.pat@ == pat@,
            r.index == index,
    {
        Entry { pat, index }
    }
}

/// What one segment captured on a road: nothing for a literal, the segment
/// for a parameter, the rest of the path for a wildcard; each with the name
/// of the transition taken.
#[derive(Debug)]
pub enum Capture {
    Static,
    Param(String, String),
    Wildcard(String, String),
}

impl View for Capture {
    type V = (Kind, Seq<char>, Seq<char>);

    open spec fn view(&self) -> (Kind, Seq<char>, Seq<char>) {
        match self {
            Capture::Static => (Kind::Static, seq![], seq![]),
            Capture::Param(n, v) => (Kind::Param, n@, v@),
            Capture::Wildcard(n, v) => (Kind::Wildcard, n@, v@),
        }
    }
}

impl Capture {
    pub fn kind(&self) -> (r: Kind)
        ensures
            r == self@.0,
    {
        match self {
            Capture::Static => Kind::Static,
            Capture::Param(_, _) => Kind::Param,
            Capture::Wildcard(_, _) => Kind::Wildcard,
        }
    }

    pub fn copy(&self) -> (r: Capture)
        ensures
            r@ == self@,
    {
        match self {
            Capture::Static => Capture::Static,
            Capture::Param(n, v) => Capture::Param(n.clone(), v.clone()),
            Capture::Wildcard(n, v) => Capture::Wildcard(n.clone(), v.clone()),
        }
    }
}

/// The transitions out of one state: literal ones by text, at most one
/// parameter transition and at most one wildcard transition.
#[derive(Debug, Clone)]
pub struct Transitions {
    pub static_segment: Vec<(String, usize)>,
    pub param_segment: Option<Entry>,
    pub wildcard: Option<Entry>,
}

impl Transitions {
    /// The state that a segment `seg` leads to through a transition of role `k`.
    pub open spec fn step(&self, k: Kind, seg: Seq<char>) -> Option<usize> {
        match k {
            Kind::Static => lookup(self.static_segment@, seg),
            Kind::Param => match self.param_segment {
                Some(e) => Some(e.index),
                None => None,
            },
            Kind::Wildcard => match self.wildcard {
                Some(e) => Some(e.index),
                None => None,
            },
        }
    }

    /// The name of the transition of role `k` (empty for a literal one).
    pub open spec fn name(&self, k: Kind) -> Seq<char> {
        match k {
            Kind::Static => seq![],
            Kind::Param => match self.param_segment {
                Some(e) => e.pat@.1,
                None => seq![],
            },
            Kind::Wildcard => match self.wildcard {
                Some(e) => e.pat@.1,
                None => seq![],
            },
        }
    }

    /// The capture that taking the transition of role `k` on segment `seg`
    /// records, where `rest` is the path from that segment on.
    pub open spec fn captured(&self, k: Kind, seg: Seq<char>, rest: Seq<char>) -> (
        Kind,
        Seq<char>,
        Seq<char>,
    ) {
        match k {
            Kind::Static => (Kind::Static, seq![], seq![]),
            Kind::Param => (Kind::Param, self.name(Kind::Param), seg),
            Kind::Wildcard => (Kind::Wildcard, self.name(Kind::Wildcard), rest),
        }
    }

    pub open spec fn wf(&self) -> bool {
        &&& (self.param_segment matches Some(e) ==> e.pat@.0 == Kind::Param)
        &&& (self.wildcard matches Some(e) ==> e.pat@.0 == Kind::Wildcard)
        &&& forall|i: int, j: int|
            0 <= i < j < self.static_segment@.len() ==> (#[trigger] self.static_segment@[i]).0@
                != (#[trigger] self.static_segment@[j]).0@
    }

    /// Every transition leads to a state above `lo` and below `hi`.
    pub open spec fn targets_within(&self, lo: int, hi: int) -> bool {
        &&& forall|i: int|
            0 <= i < self.static_segment@.len() ==> lo < (#[trigger] self.static_segment@[i]).1
                < hi
        &&& (self.param_segment matches Some(e) ==> lo < e.index < hi)
        &&& (self.wildcard matches Some(e) ==> lo < e.index < hi)
    }

    pub fn new() -> (r: Transitions)
        ensures
            r.wf(),
            r.static_segment@.len() == 0,
            r.param_segment is None,
            r.wildcard is None,
            forall|k: Kind, s: Seq<char>| r.step(k, s) is None,
    {
        Transitions { static_segment: Vec::new(), param_segment: None, wildcard: None }
    }

    fn static_get(&self, key: &String) -> (r: Option<usize>)
        ensures
            r == lookup(self.static_segment@, key@),
    {
        let mut i: usize = 0;
        assert(self.static_segment@.skip(0) =~= self.static_segment@);
        while i < self.static_segment.len()
            invariant
                i <= self.static_segment@.len(),
                lookup(self.static_segment@, key@) == lookup(
                    self.static_segment@.skip(i as int),
                    key@,
                ),
            decreases self.static_segment@.len() - i,
        {
            assert(self.static_segment@.skip(i as int).drop_first() =~= self.static_segment@.skip(
                i + 1,
            ));
            if self.static_segment[i].0 == *key {
                return Some(self.static_segment[i].1);
            }
            i = i + 1;
        }
        None
    }

    /// The state that a transition for `pat` leads to.
    pub fn get(&self, pat: &Pattern) -> (r: Option<usize>)
        ensures
            r == self.step(pat@.0, pat@.1),
    {
        match pat {
            Pattern::Static(p) => self.static_get(p),
            Pattern::Param(_) => match &self.param_segment {
                Some(e) => Some(e.index),
                None => None,
            },
            Pattern::Wildcard(_) => match &self.wildcard {
                Some(e) => Some(e.index),
                None => None,
            },
        }
    }

    /// Records a transition for `pat` to `index`, in place of the one for
    /// the same text or role.
    pub fn push(&mut self, pat: Pattern, index: usize)
        requires
            old(self).wf(),
        ensures
            final(self).wf(),
            pat@.0 != Kind::Param ==> final(self).param_segment == old(self).param_segment,
            pat@.0 != Kind::Wildcard ==> final(self).wildcard == old(self).wildcard,
            pat@.0 != Kind::Static ==> final(self).static_segment == old(self).static_segment,
            forall|k: Kind, s: Seq<char>|
                #![trigger final(self).step(k, s)]
                final(self).step(k, s) == if k == pat@.0 && (k != Kind::Static || s == pat@.1) {
                    Some(index)
                } else {
                    old(self).step(k, s)
                },
            forall|k: Kind|
                #![trigger final(self).name(k)]
                final(self).name(k) == if k == pat@.0 {
                    if k == Kind::Static {
                        seq![]
                    } else {
                        pat@.1
                    }
                } else {
                    old(self).name(k)
                },
            final(self).static_segment@.len() <= old(self).static_segment@.len() + 1,
            forall|i: int|
                0 <= i < final(self).static_segment@.len() ==> (#[trigger] final(self).static_segment@[i]).1 == index || exists|j: int|
                    0 <= j < old(self).static_segment@.len() && old(self).static_segment@[j]
                        == final(self).static_segment@[i],
    {
        match pat {
            Pattern::Static(p) => {
                let ghost s = self.static_segment@;
                let mut i: usize = 0;
                while i < self.static_segment.len()
                    invariant
                        s == self.static_segment@,
                        s == old(self).static_segment@,
                        pat@ == (Kind::Static, p@),
                        old(self).wf(),
                        self.param_segment == old(self).param_segment,
                        self.wildcard == old(self).wildcard,
                        i <= s.len(),
                        forall|j: int| 0 <= j < i ==> (#[trigger] s[j]).0@ != p@,
                    decreases s.len() - i,
                {
                    if self.static_segment[i].0 == p {
                        proof {
                            lemma_lookup_in(s, p@);
                            if lookup(s, p@) != Some(s[i as int].1) {
                                let j = choose|j: int|
                                    0 <= j < s.len() && (#[trigger] s[j]).0@ == p@ && s[j].1
                                        == lookup(s, p@)->0;
                                assert(j != i);
                                if j < i {
                                } else {
                                    assert(old(self).wf());
                                    assert(s[i as int].0@ != s[j].0@);
                                }
                            }
                        }
                        let ghost x = (p, index);
                        self.static_segment.set(i, (p, index));
                        proof {
                            assert(self.param_segment == old(self).param_segment);
                            assert(self.wildcard == old(self).wildcard);
                            assert forall|k: Kind, t: Seq<char>| #![trigger self.step(k, t)]
                                true implies self.step(k, t) == if k == Kind::Static && t == x.0@ {
                                Some(index)
                            } else {
                                old(self).step(k, t)
                            } by {
                                lemma_lookup_update(s, i as int, x, t);
                            }
                            assert forall|a: int, b: int|
                                0 <= a < b < self.static_segment@.len() implies (
                                #[trigger] self.static_segment@[a]).0@
                                    != (#[trigger] self.static_segment@[b]).0@ by {
                                assert(old(self).static_segment@[a].0@ != old(self).static_segment@[b].0@);
                            }
                            assert forall|a: int|
                                0 <= a < self.static_segment@.len() implies (
                                #[trigger] self.static_segment@[a]).1 == index || exists|j: int|
                                    0 <= j < s.len() && s[j] == self.static_segment@[a] by {
                                if a != i {
                                    assert(s[a] == self.static_segment@[a]);
                                }
                            }
                        }
                        assert(pat@ == (Kind::Static, x.0@));
                        return ;
                    }
                    i = i + 1;
                }
                let ghost x = (p, index);
                self.static_segment.push((p, index));
                proof {
                    lemma_lookup_in(s, x.0@);
                    assert(self.param_segment == old(self).param_segment);
                    assert(self.wildcard == old(self).wildcard);
                    assert forall|a: int, b: int|
                        0 <= a < b < self.static_segment@.len() implies (
                        #[trigger] self.static_segment@[a]).0@
                            != (#[trigger] self.static_segment@[b]).0@ by {
                        if b < s.len() {
                            assert(old(self).static_segment@[a].0@ != old(self).static_segment@[b].0@);
                        }
                    }
                    assert forall|k: Kind, t: Seq<char>| #![trigger self.step(k, t)]
                        true implies self.step(k, t) == if k == Kind::Static && t == x.0@ {
                        Some(index)
                    } else {
                        old(self).step(k, t)
                    } by {
                        lemma_lookup_push(s, x, t);
                    }
                    assert forall|a: int|
                        0 <= a < self.static_segment@.len() implies (
                        #[trigger] self.static_segment@[a]).1 == index || exists|j: int|
                            0 <= j < s.len() && s[j] == self.static_segment@[a] by {
                        if a < s.len() {
                            assert(s[a] == self.static_segment@[a]);
                        }
                    }
                }
            },
            Pattern::Param(p) => {
                self.param_segment = Some(Entry::new(Pattern::Param(p), index));
            },
            Pattern::Wildcard(p) => {
                self.wildcard = Some(Entry::new(Pattern::Wildcard(p), index));
            },
        }
    }

    /// Every transition, as a pattern and the state it leads to.
    pub fn entries(&self) -> (r: Vec<Entry>)
        requires
            self.wf(),
        ensures
            forall|j: int|
                0 <= j < r@.len() ==> self.step((#[trigger] r@[j]).pat@.0, r@[j].pat@.1) == Some(
                    r@[j].index,
                ) && (r@[j].pat@.0 != Kind::Static ==> r@[j].pat@.1 == self.name(r@[j].pat@.0)),
            forall|k: Kind, key: Seq<char>|
                #[trigger] self.step(k, key) is Some ==> exists|j: int|
                    0 <= j < r@.len() && (#[trigger] r@[j]).pat@.0 == k && (k != Kind::Static
                        || r@[j].pat@.1 == key),
            forall|a: int, b: int|
                0 <= a < b < r@.len() ==> !entry_matches(#[trigger] r@[a], (#[trigger] r@[b]).pat@.0, r@[b].pat@.1),
    {
        let mut ret: Vec<Entry> = Vec::new();
        let mut i: usize = 0;
        while i < self.static_segment.len()
            invariant
                self.wf(),
                i <= self.static_segment@.len(),
                ret@.len() == i,
                forall|j: int|
                    0 <= j < i ==> (#[trigger] ret@[j]).pat@ == (Kind::Static, self.static_segment@[j].0@)
                        && ret@[j].index == self.static_segment@[j].1,
            decreases self.static_segment@.len() - i,
        {
            let (k, v) = &self.static_segment[i];
            ret.push(Entry::new(Pattern::Static(k.clone()), *v));
            i = i + 1;
        }
        let ghost n = ret@.len();
        proof {
            assert forall|a: int, b: int|
                0 <= a < b < n implies !entry_matches(#[trigger] ret@[a], (#[trigger] ret@[b]).pat@.0, ret@[b].pat@.1) by {
                assert(self.static_segment@[a].0@ != self.static_segment@[b].0@);
            }
            assert forall|j: int| 0 <= j < n implies lookup(self.static_segment@, ret@[j].pat@.1) == Some(ret@[j].index) by {
                lemma_lookup_in(self.static_segment@, ret@[j].pat@.1);
                let q = choose|q: int| 0 <= q < self.static_segment@.len()
                    && (#[trigger] self.static_segment@[q]).0@ == ret@[j].pat@.1
                    && self.static_segment@[q].1 == lookup(self.static_segment@, ret@[j].pat@.1)->0;
                if q != j {
                    assert(self.static_segment@[q].0@ == self.static_segment@[j].0@);
                }
            }
        }
        if let Some(entry) = &self.param_segment {
            ret.push(Entry::new(entry.pat.copy(), entry.index));
        }
        let ghost n1 = ret@.len();
        proof {
            assert forall|a: int, b: int|
                0 <= a < b < n1 implies !entry_matches(#[trigger] ret@[a], (#[trigger] ret@[b]).pat@.0, ret@[b].pat@.1) by {
                if b < n {
                    assert(!entry_matches(ret@[a], ret@[b].pat@.0, ret@[b].pat@.1));
                }
            }
        }
        if let Some(entry) = &self.wildcard {
            ret.push(Entry::new(entry.pat.copy(), entry.index));
        }
        proof {
            assert forall|a: int, b: int|
                0 <= a < b < ret@.len() implies !entry_matches(#[trigger] ret@[a], (#[trigger] ret@[b]).pat@.0, ret@[b].pat@.1) by {
                if b < n1 {
                    assert(!entry_matches(ret@[a], ret@[b].pat@.0, ret@[b].pat@.1));
                }
            }
        }
        proof {
            assert forall|k: Kind, key: Seq<char>|
                #[trigger] self.step(k, key) is Some implies exists|j: int|
                    0 <= j < ret@.len() && (#[trigger] ret@[j]).pat@.0 == k && (k != Kind::Static
                        || ret@[j].pat@.1 == key) by {
                if k == Kind::Static {
                    lemma_lookup_in(self.static_segment@, key);
                    let q = choose|q: int| 0 <= q < self.static_segment@.len()
                        && (#[trigger] self.static_segment@[q]).0@ == key;
                    assert(ret@[q].pat@.1 == key);
                } else if k == Kind::Param {
                    assert(ret@[n as int].pat@.0 == k);
                } else {
                    assert(ret@[n1 as int].pat@.0 == k);
                }
            }
        }
        ret
    }

    /// The literal transition for `seg`, as a capture.
    pub fn capture_static(&self, seg: &String) -> (r: Option<(Capture, usize)>)
        ensures
            match r {
                Some(c) => self.step(Kind::Static, seg@) == Some(c.1) && c.0@ == self.captured(
                    Kind::Static,
                    seg@,
                    seq![],
                ),
                None => self.step(Kind::Static, seg@) is None,
            },
    {
        match self.static_get(seg) {
            Some(next) => Some((Capture::Static, next)),
            None => None,
        }
    }

    /// The captures of segment `seg` and their targets, in the order literal,
    /// parameter, wildcard, one for each role that has a transition.
    pub open spec fn capture_seq(&self, seg: Seq<char>, rest: Seq<char>) -> Seq<((Kind, Seq<char>, Seq<char>), usize)> {
        (if self.step(Kind::Static, seg) is Some {
            seq![(self.captured(Kind::Static, seg, rest), self.step(Kind::Static, seg)->0)]
        } else {
            seq![]
        }) + (if self.step(Kind::Param, seg) is Some {
            seq![(self.captured(Kind::Param, seg, rest), self.step(Kind::Param, seg)->0)]
        } else {
            seq![]
        }) + (if self.step(Kind::Wildcard, seg) is Some {
            seq![(self.captured(Kind::Wildcard, seg, rest), self.step(Kind::Wildcard, seg)->0)]
        } else {
            seq![]
        })
    }

    /// The roles of the transitions that segment `seg` can take, in the order
    /// literal, parameter, wildcard.
    pub open spec fn kinds_for(&self, seg: Seq<char>) -> Seq<Kind> {
        (if self.step(Kind::Static, seg) is Some { seq![Kind::Static] } else { seq![] })
            + (if self.step(Kind::Param, seg) is Some { seq![Kind::Param] } else { seq![] })
            + (if self.step(Kind::Wildcard, seg) is Some { seq![Kind::Wildcard] } else { seq![] })
    }

    /// Every transition that segment `seg` can take, with what it captures;
    /// `rest` is the path from that segment on.
    pub fn capture(&self, seg: &String, rest: &String) -> (r: Vec<(Capture, usize)>)
        requires
            self.wf(),
        ensures
            r@.map_values(|e: (Capture, usize)| (e.0@, e.1)) == self.capture_seq(seg@, rest@),
            forall|j: int|
                0 <= j < r@.len() ==> self.step((#[trigger] r@[j]).0@.0, seg@) == Some(r@[j].1)
                    && r@[j].0@ == self.captured(r@[j].0@.0, seg@, rest@),
            forall|k: Kind|
                self.step(k, seg@) is Some ==> exists|j: int|
                    0 <= j < r@.len() && (#[trigger] r@[j]).0@.0 == k,
    {
        let mut captures: Vec<(Capture, usize)> = Vec::new();
        if let Some(index) = self.static_get(seg) {
            captures.push((Capture::Static, index));
        }
        let ghost n1 = captures@.len();
        if let Some(e) = &self.param_segment {
            captures.push((Capture::Param(e.pat.text().clone(), seg.clone()), e.index));
        }
        let ghost n2 = captures@.len();
        if let Some(e) = &self.wildcard {
            captures.push((Capture::Wildcard(e.pat.text().clone(), rest.clone()), e.index));
        }
        proof {
            if self.step(Kind::Static, seg@) is Some {
                assert(captures@[0].0@.0 == Kind::Static);
            }
            if self.step(Kind::Param, seg@) is Some {
                assert(captures@[n1 as int].0@.0 == Kind::Param);
            }
            if self.step(Kind::Wildcard, seg@) is Some {
                assert(captures@[n2 as int].0@.0 == Kind::Wildcard);
            }
            assert(captures@.map_values(|e: (Capture, usize)| (e.0@, e.1)) =~= self.capture_seq(seg@, rest@));
        }
        captures
    }
}

/// One state of the matcher.
#[derive(Debug, Clone)]
pub struct State {
    pub index: usize,
    pub transitions: Transitions,
}

impl State {
    pub fn new(index: usize) -> (r: State)
        ensures
            r.index == index,
            r.transitions.wf(),
            r.transitions.static_segment@.len() == 0,
            r.transitions.param_segment is None,
            r.transitions.wildcard is None,
            forall|k: Kind, s: Seq<char>| r.transitions.step(k, s) is None,
    {
        State { index, transitions: Transitions::new() }
    }
}

/// The rank of a role in the order of specificity: a literal before a
/// parameter before a wildcard.
pub open spec fn rank(k: Kind) -> int {
    match k {
        Kind::Static => 2,
        Kind::Param => 1,
        Kind::Wildcard => 0,
    }
}

/// `a` is preferred to `b`: at the first position where their roles differ,
/// `a` has the more specific one; where one is a prefix of the other, the
/// longer one.
pub open spec fn lex_gt(a: Seq<Kind>, b: Seq<Kind>) -> bool
    decreases a.len(),
{
    if a.len() == 0 || b.len() == 0 {
        a.len() > b.len()
    } else if a[0] != b[0] {
        rank(a[0]) > rank(b[0])
    } else {
        lex_gt(a.drop_first(), b.drop_first())
    }
}

/// The order in which candidate matches are preferred: captures are compared
/// position by position and the first difference decides (a literal before a
/// parameter before a wildcard); when all shared positions tie, the run with
/// more captures wins.
pub open spec fn better(a: Seq<Kind>, b: Seq<Kind>) -> bool {
    lex_gt(a, b)
}

/// The order of preference is transitive.
pub proof fn lemma_lex_gt_trans(a: Seq<Kind>, b: Seq<Kind>, c: Seq<Kind>)
    requires
        lex_gt(a, b),
        lex_gt(b, c),
    ensures
        lex_gt(a, c),
    decreases a.len(),
{
    if a.len() > 0 && b.len() > 0 && c.len() > 0 && a[0] == b[0] && b[0] == c[0] {
        lemma_lex_gt_trans(a.drop_first(), b.drop_first(), c.drop_first());
    }
}

/// Two different role sequences are ordered one way, and only one.
pub proof fn lemma_lex_gt_total(a: Seq<Kind>, b: Seq<Kind>)
    requires
        a != b,
    ensures
        lex_gt(a, b) || lex_gt(b, a),
        !(lex_gt(a, b) && lex_gt(b, a)),
    decreases a.len(),
{
    if a.len() == 0 && b.len() == 0 {
        assert(a =~= b);
    } else if a.len() > 0 && b.len() > 0 && a[0] == b[0] {
        if a.drop_first() == b.drop_first() {
            assert(a =~= seq![a[0]] + a.drop_first());
            assert(b =~= seq![b[0]] + b.drop_first());
        }
        lemma_lex_gt_total(a.drop_first(), b.drop_first());
    }
}

/// No role sequence is preferred to itself.
pub proof fn lemma_lex_gt_irrefl(a: Seq<Kind>)
    ensures
        !lex_gt(a, a),
    decreases a.len(),
{
    if a.len() > 0 {
        lemma_lex_gt_irrefl(a.drop_first());
    }
}

/// The preference between runs is transitive.
pub proof fn lemma_better_trans(a: Seq<Kind>, b: Seq<Kind>, c: Seq<Kind>)
    requires
        better(a, b),
        better(b, c),
    ensures
        better(a, c),
{
    lemma_lex_gt_trans(a, b, c);
}

/// A sequence of literal roles only is never beaten by one no longer.
pub proof fn lemma_static_unbeaten(a: Seq<Kind>, b: Seq<Kind>)
    requires
        b.len() <= a.len(),
        forall|j: int| 0 <= j < a.len() ==> a[j] == Kind::Static,
    ensures
        !lex_gt(b, a),
    decreases a.len(),
{
    if a.len() > 0 && b.len() > 0 {
        lemma_static_unbeaten(a.drop_first(), b.drop_first());
    }
}

/// The segments of a path as the matcher reads it: every leading separator
/// is skipped.
pub open spec fn path_segments(p: Seq<char>) -> Seq<Seq<char>> {
    segments(p, leading_seps(p) as int)
}

/// For each segment of a path, the path from that segment on.
pub open spec fn path_rests(p: Seq<char>) -> Seq<Seq<char>> {
    Seq::new(path_segments(p).len(), |j: int| remainder(p, leading_seps(p) as int, j))
}

/// The patterns of a template.
pub open spec fn template_patterns(p: Seq<char>) -> Seq<(Kind, Seq<char>)> {
    path_segments(p).map_values(|s: Seq<char>| pattern_of(s))
}

/// The parameter and wildcard captures among `caps`, as (name, value).
pub open spec fn param_pairs(caps: Seq<(Kind, Seq<char>, Seq<char>)>) -> Seq<(Seq<char>, Seq<char>)>
    decreases caps.len(),
{
    if caps.len() == 0 {
        seq![]
    } else if caps.last().0 == Kind::Static {
        param_pairs(caps.drop_last())
    } else {
        param_pairs(caps.drop_last()).push((caps.last().1, caps.last().2))
    }
}

/// Literal transitions capture nothing.
pub proof fn lemma_param_pairs_static(caps: Seq<(Kind, Seq<char>, Seq<char>)>)
    requires
        forall|j: int| 0 <= j < caps.len() ==> (#[trigger] caps[j]).0 == Kind::Static,
    ensures
        param_pairs(caps) == Seq::<(Seq<char>, Seq<char>)>::empty(),
    decreases caps.len(),
{
    if caps.len() > 0 {
        lemma_param_pairs_static(caps.drop_last());
    }
}

/// A candidate match in progress: the state it reached, what each segment
/// captured on the way, and whether it has entered a wildcard.
#[derive(Debug)]
pub struct Road {
    pub state: usize,
    pub captures: Vec<Capture>,
    pub wildcard: bool,
}

impl Road {
    /// The roles of the transitions taken.
    pub open spec fn kinds(&self) -> Seq<Kind> {
        self.captures@.map_values(|c: Capture| c@.0)
    }

    /// What the transitions taken captured.
    pub open spec fn caps(&self) -> Seq<(Kind, Seq<char>, Seq<char>)> {
        self.captures@.map_values(|c: Capture| c@)
    }

    pub fn new(state: usize, captures: Vec<Capture>) -> (r: Road)
        ensures
            r.state == state,
            r.captures@ == captures@,
            !r.wildcard,
    {
        Road { state, captures, wildcard: false }
    }

    pub fn set_wildcard(&mut self, wildcard: bool)
        ensures
            final(self).wildcard == wildcard,
            final(self).state == old(self).state,
            final(self).captures@ == old(self).captures@,
    {
        self.wildcard = wildcard;
    }

    fn copy_captures(&self) -> (r: Vec<Capture>)
        ensures
            r@.map_values(|c: Capture| c@) == self.caps(),
    {
        let mut r: Vec<Capture> = Vec::new();
        let mut i: usize = 0;
        while i < self.captures.len()
            invariant
                i <= self.captures@.len(),
                r@.len() == i,
                forall|j: int| 0 <= j < i ==> (#[trigger] r@[j])@ == self.captures@[j]@,
            decreases self.captures@.len() - i,
        {
            r.push(self.captures[i].copy());
            i = i + 1;
        }
        assert(r@.map_values(|c: Capture| c@) =~= self.caps());
        r
    }

    fn copy(&self) -> (r: Road)
        ensures
            r.state == self.state,
            r.wildcard == self.wildcard,
            r.caps() == self.caps(),
            r.kinds() == self.kinds(),
    {
        let captures = self.copy_captures();
        let r = Road { state: self.state, captures, wildcard: self.wildcard };
        assert(r.kinds() =~= self.kinds()) by {
            assert(r.caps().len() == r.captures@.len());
            assert(self.caps().len() == self.captures@.len());
            assert forall|j: int| 0 <= j < r.kinds().len() implies r.kinds()[j] == self.kinds()[j] by {
                assert(r.caps()[j] == self.caps()[j]);
                assert(r.caps()[j] == r.captures@[j]@);
                assert(self.caps()[j] == self.captures@[j]@);
            }
        }
        r
    }

    /// Whether this road is preferred to `other`: at the first capture where
    /// their roles differ it has the more specific one, or, all shared
    /// captures tying, it has more captures.
    pub fn is_better(&self, other: &Road) -> (r: bool)
        ensures
            r == better(self.kinds(), other.kinds()),
    {
        let n = self.captures.len();
        let m = other.captures.len();
        let ghost a = self.kinds();
        let ghost b = other.kinds();
        let mut i: usize = 0;
        assert(a.skip(0) =~= a);
        assert(b.skip(0) =~= b);
        while i < n && i < m
            invariant
                n == a.len(),
                m == b.len(),
                a == self.kinds(),
                b == other.kinds(),
                i <= n,
                i <= m,
                lex_gt(a, b) == lex_gt(a.skip(i as int), b.skip(i as int)),
            decreases n - i,
        {
            let ka = self.captures[i].kind();
            let kb = other.captures[i].kind();
            assert(a.skip(i as int)[0] == ka);
            assert(b.skip(i as int)[0] == kb);
            if ka != kb {
                return kind_rank(ka) > kind_rank(kb);
            }
            assert(a.skip(i as int).drop_first() =~= a.skip(i + 1));
            assert(b.skip(i as int).drop_first() =~= b.skip(i + 1));
            i = i + 1;
        }
        n > m
    }
}

fn kind_rank(k: Kind) -> (r: u8)
    ensures
        r as int == rank(k),
{
    match k {
        Kind::Static => 2,
        Kind::Param => 1,
        Kind::Wildcard => 0,
    }
}

/// The outcome of a search: the accepting state reached, and the parameter
/// and wildcard captures (name, value) in path order, unnamed ones included.
pub struct Match {
    pub state: usize,
    pub params: Vec<(String, String)>,
    /// The roles of the transitions that led to `state`.
    pub kinds: Ghost<Seq<Kind>>,
}

impl Match {
    /// The captures as (name, value) texts.
    pub open spec fn param_views(&self) -> Seq<(Seq<char>, Seq<char>)> {
        self.params@.map_values(|p: (String, String)| (p.0@, p.1@))
    }

    pub fn new(state: usize, params: Vec<(String, String)>, kinds: Ghost<Seq<Kind>>) -> (r: Match)
        ensures
            r.state == state,
            r.params@ == params@,
            r.kinds == kinds,
    {
        Match { state, params, kinds }
    }
}

/// A template matcher over an arena of states; state 0 is the start state.
#[derive(Debug, Clone)]
pub struct Nfa {
    pub states: Vec<State>,
    pub acceptances: Vec<bool>,
}

impl Nfa {
    /// The number of states.
    pub open spec fn len(&self) -> nat {
        self.states@.len()
    }

    /// Whether state `s` ends a registered template.
    pub open spec fn accepting(&self, s: int) -> bool {
        self.acceptances@[s]
    }

    /// The transitions out of state `s`.
    pub open spec fn trans(&self, s: int) -> Transitions {
        self.states@[s].transitions
    }

    pub open spec fn wf(&self) -> bool {
        &&& self.states@.len() >= 1
        &&& self.acceptances@.len() == self.states@.len()
        &&& !self.acceptances@[0]
        &&& forall|s: int|
            0 <= s < self.states@.len() ==> (#[trigger] self.states@[s]).index == s
                && self.states@[s].transitions.wf()
                && self.states@[s].transitions.targets_within(s, self.states@.len() as int)
    }

    /// The state that segment `seg` leads to from state `s` through a
    /// transition of role `k`.
    pub open spec fn step(&self, s: usize, k: Kind, seg: Seq<char>) -> Option<usize> {
        if s < self.states@.len() {
            self.states@[s as int].transitions.step(k, seg)
        } else {
            None
        }
    }

    /// The state that the patterns `pats` lead to from the start state.
    pub open spec fn follow(&self, pats: Seq<(Kind, Seq<char>)>) -> Option<usize>
        decreases pats.len(),
    {
        if pats.len() == 0 {
            Some(0)
        } else {
            match self.follow(pats.drop_last()) {
                Some(s) => self.step(s, pats.last().0, pats.last().1),
                None => None,
            }
        }
    }

    /// The state that the roles `ks` lead to from the start state, taking one
    /// segment of `segs` each; a wildcard may only be the last of them.
    pub open spec fn walk(&self, segs: Seq<Seq<char>>, ks: Seq<Kind>) -> Option<usize>
        decreases ks.len(),
    {
        if ks.len() == 0 {
            Some(0)
        } else if ks.len() > segs.len() || ks.drop_last().contains(Kind::Wildcard) {
            None
        } else {
            match self.walk(segs, ks.drop_last()) {
                Some(s) => self.step(s, ks.last(), segs[ks.len() - 1]),
                None => None,
            }
        }
    }

    /// `ks` has consumed the first `i` segments: it took one transition per
    /// segment, or it ended in a wildcard that swallowed the rest.
    pub open spec fn consumed(ks: Seq<Kind>, i: int) -> bool {
        ||| ks.len() == i && !ks.contains(Kind::Wildcard)
        ||| 1 <= ks.len() <= i && ks.last() == Kind::Wildcard
    }

    /// `ks` is a way through the matcher that consumes all of `segs`.
    pub open spec fn is_run(&self, segs: Seq<Seq<char>>, ks: Seq<Kind>) -> bool {
        Self::consumed(ks, segs.len() as int) && self.walk(segs, ks) is Some
    }

    /// `ks` is a way through all of `segs` that ends in an accepting state.
    pub open spec fn accepting_run(&self, segs: Seq<Seq<char>>, ks: Seq<Kind>) -> bool {
        self.is_run(segs, ks) && self.accepting(self.walk(segs, ks)->0 as int)
    }

    /// `ks` is the accepting run that no other accepting run beats.
    pub open spec fn is_best(&self, segs: Seq<Seq<char>>, ks: Seq<Kind>) -> bool {
        &&& self.accepting_run(segs, ks)
        &&& forall|other: Seq<Kind>| #[trigger]
            self.accepting_run(segs, other) ==> !better(other, ks)
    }

    /// What each transition of `ks` captures; `rests[j]` is the path from
    /// segment `j` on.
    pub open spec fn captures(
        &self,
        segs: Seq<Seq<char>>,
        rests: Seq<Seq<char>>,
        ks: Seq<Kind>,
    ) -> Seq<(Kind, Seq<char>, Seq<char>)> {
        Seq::new(
            ks.len(),
            |j: int|
                self.trans(self.walk(segs, ks.take(j))->0 as int).captured(ks[j], segs[j], rests[j]),
        )
    }

    /// The (name, value) pairs that the run `ks` of `path` captures, in order.
    pub open spec fn run_params(&self, path: Seq<char>, ks: Seq<Kind>) -> Seq<(Seq<char>, Seq<char>)> {
        param_pairs(self.captures(path_segments(path), path_rests(path), ks))
    }

    /// `later` has every transition and state of `self`, unchanged.
    pub open spec fn extends(&self, later: &Nfa) -> bool {
        &&& later.states@.len() >= self.states@.len()
        &&& forall|s: int|
            0 <= s < self.states@.len() ==> {
                let a = #[trigger] self.states@[s].transitions;
                let b = later.states@[s].transitions;
                &&& (a.param_segment is Some ==> b.param_segment == a.param_segment)
                &&& (a.wildcard is Some ==> b.wildcard == a.wildcard)
                &&& forall|key: Seq<char>|
                    #[trigger] lookup(a.static_segment@, key) is Some ==> lookup(
                        b.static_segment@,
                        key,
                    ) == lookup(a.static_segment@, key)
            }
    }

    /// How many leading patterns of `pats`, from the `i`-th on, the matcher
    /// already has transitions for.
    pub open spec fn known(&self, pats: Seq<(Kind, Seq<char>)>, i: nat) -> nat
        decreases pats.len() - i,
    {
        if i < pats.len() && self.follow(pats.take(i as int + 1)) is Some {
            self.known(pats, i + 1)
        } else {
            i
        }
    }

    /// Two matchers with the same transitions out of `s` step alike from it.
    pub proof fn lemma_same_trans_step(&self, other: &Nfa, s: usize, k: Kind, key: Seq<char>)
        requires
            s < self.len(),
            s < other.len(),
            self.trans(s as int) == other.trans(s as int),
        ensures
            self.step(s, k, key) == other.step(s, k, key),
    {
    }

    /// A transition that `self` has, a matcher that extends it has too.
    pub proof fn lemma_extends_step(&self, later: &Nfa, s: usize, k: Kind, key: Seq<char>)
        requires
            self.extends(later),
            self.step(s, k, key) is Some,
        ensures
            later.step(s, k, key) == self.step(s, k, key),
    {
        let a = self.states@[s as int].transitions;
        if k == Kind::Static {
            assert(lookup(a.static_segment@, key) is Some);
        }
    }

    /// Following a prefix of a way that can be followed succeeds.
    pub proof fn lemma_follow_prefix(&self, pats: Seq<(Kind, Seq<char>)>, j: int)
        requires
            self.follow(pats) is Some,
            0 <= j <= pats.len(),
        ensures
            self.follow(pats.take(j)) is Some,
        decreases pats.len() - j,
    {
        if j < pats.len() {
            assert(pats.take(j + 1).drop_last() =~= pats.take(j));
            if j + 1 == pats.len() {
                assert(pats.take(j + 1) =~= pats);
            } else {
                self.lemma_follow_prefix(pats, j + 1);
            }
        } else {
            assert(pats.take(j) =~= pats);
        }
    }

    pub proof fn lemma_known(&self, pats: Seq<(Kind, Seq<char>)>, i: nat)
        requires
            i <= pats.len(),
            self.follow(pats.take(i as int)) is Some,
        ensures
            i <= self.known(pats, i) <= pats.len(),
            self.follow(pats.take(self.known(pats, i) as int)) is Some,
            self.known(pats, i) < pats.len() ==> self.follow(
                pats.take(self.known(pats, i) as int + 1),
            ) is None,
        decreases pats.len() - i,
    {
        if i < pats.len() && self.follow(pats.take(i as int + 1)) is Some {
            self.lemma_known(pats, i + 1);
        }
    }

    /// `self` is `old` after locating the template patterns `pats`, which end
    /// in state `r`: with `m` the number of leading patterns `old` already
    /// had, state `b` where they end, and `L` the old number of states, the
    /// branch point `b` gains only the transition for pattern `m`, to the
    /// fresh state `L`; fresh state `L + j` has exactly one transition, for
    /// the next pattern, to `L + j + 1`, and the last one has none; every
    /// other old state is unchanged, and `r` is the last fresh state (or `b`
    /// when nothing was missing).
    pub open spec fn grown(&self, old: &Nfa, pats: Seq<(Kind, Seq<char>)>, r: usize) -> bool {
        let m = old.known(pats, 0) as int;
        let n = pats.len() as int;
        let l = old.len() as int;
        let b = old.follow(pats.take(m))->0;
        &&& self.len() == l + n - m
        &&& forall|s: int| 0 <= s < l && s != b ==> #[trigger] self.trans(s) == old.trans(s)
        &&& (m == n ==> self.trans(b as int) == old.trans(b as int) && r == b)
        &&& (m < n ==> r == l + n - m - 1)
        &&& (m < n ==> forall|k: Kind, key: Seq<char>|
            #[trigger] self.step(b, k, key) == if pat_matches(pats[m], k, key) {
                Some(l as usize)
            } else {
                old.step(b, k, key)
            })
        &&& (m < n ==> forall|k: Kind|
            k != Kind::Static ==> #[trigger] self.trans(b as int).name(k) == if k == pats[m].0 {
                pats[m].1
            } else {
                old.trans(b as int).name(k)
            })
        &&& forall|j: int, k: Kind, key: Seq<char>|
            0 <= j < n - m ==> #[trigger] self.step((l + j) as usize, k, key) == if j + 1 < n - m
                && pat_matches(pats[m + 1 + j], k, key) {
                Some((l + j + 1) as usize)
            } else {
                None
            }
        &&& forall|j: int, k: Kind|
            0 <= j < n - m - 1 && k == pats[m + 1 + j].0 && k != Kind::Static ==> #[trigger] self.trans(
                l + j,
            ).name(k) == pats[m + 1 + j].1
    }

    pub fn new() -> (r: Nfa)
        ensures
            r.wf(),
            r.len() == 1,
            !r.accepting(0),
            forall|k: Kind, s: Seq<char>| r.step(0, k, s) is None,
    {
        let mut this = Nfa { states: Vec::new(), acceptances: Vec::new() };
        this.states.push(State::new(0));
        this.acceptances.push(false);
        this
    }

    fn new_state(&mut self) -> (r: usize)
        requires
            old(self).wf(),
        ensures
            final(self).wf(),
            r == old(self).len(),
            final(self).len() == old(self).len() + 1,
            old(self).extends(final(self)),
            forall|s: int|
                0 <= s < old(self).len() ==> final(self).trans(s) == old(self).trans(s)
                    && final(self).accepting(s) == old(self).accepting(s),
            !final(self).accepting(r as int),
            forall|k: Kind, seg: Seq<char>| final(self).step(r, k, seg) is None,
    {
        let new_index = self.states.len();
        self.states.push(State::new(new_index));
        self.acceptances.push(false);
        proof {
            assert forall|s: int| 0 <= s < self.states@.len() implies (
            #[trigger] self.states@[s]).index == s && self.states@[s].transitions.wf()
                && self.states@[s].transitions.targets_within(s, self.states@.len() as int) by {
                if s < new_index {
                    assert(old(self).states@[s] == self.states@[s]);
                }
            }
            assert forall|s: int| 0 <= s < old(self).states@.len() implies {
                let a = #[trigger] old(self).states@[s].transitions;
                let b = self.states@[s].transitions;
                &&& (a.param_segment is Some ==> b.param_segment == a.param_segment)
                &&& (a.wildcard is Some ==> b.wildcard == a.wildcard)
                &&& forall|key: Seq<char>|
                    #[trigger] lookup(a.static_segment@, key) is Some ==> lookup(
                        b.static_segment@,
                        key,
                    ) == lookup(a.static_segment@, key)
            } by {
                assert(old(self).states@[s] == self.states@[s]);
            }
        }
        new_index
    }

    /// The number of states.
    pub fn state_count(&self) -> (r: usize)
        ensures
            r == self.len(),
    {
        self.states.len()
    }

    /// At most one accepting run is preferred to every other one: the
    /// outcome of a search never depends on anything but the matcher and
    /// the path.
    pub proof fn lemma_best_unique(&self, segs: Seq<Seq<char>>, a: Seq<Kind>, b: Seq<Kind>)
        requires
            self.is_best(segs, a),
            self.is_best(segs, b),
        ensures
            a == b,
    {
        assert(!better(b, a));
        assert(!better(a, b));
        if a != b {
            lemma_lex_gt_total(a, b);
        }
    }

    pub fn start_state(&self) -> (r: usize)
        requires
            self.wf(),
        ensures
            r == 0,
            r < self.len(),
    {
        0
    }

    pub proof fn lemma_extends_refl(&self)
        ensures
            self.extends(self),
    {
    }

    pub proof fn lemma_extends_trans(&self, b: &Nfa, c: &Nfa)
        requires
            self.extends(b),
            b.extends(c),
        ensures
            self.extends(c),
    {
        assert forall|s: int| 0 <= s < self.states@.len() implies {
            let x = #[trigger] self.states@[s].transitions;
            let z = c.states@[s].transitions;
            &&& (x.param_segment is Some ==> z.param_segment == x.param_segment)
            &&& (x.wildcard is Some ==> z.wildcard == x.wildcard)
            &&& forall|key: Seq<char>|
                #[trigger] lookup(x.static_segment@, key) is Some ==> lookup(
                    z.static_segment@,
                    key,
                ) == lookup(x.static_segment@, key)
        } by {
            let y = b.states@[s].transitions;
            assert(y == b.states@[s].transitions);
            assert forall|key: Seq<char>|
                #[trigger] lookup(self.states@[s].transitions.static_segment@, key)
                    is Some implies lookup(c.states@[s].transitions.static_segment@, key)
                == lookup(self.states@[s].transitions.static_segment@, key) by {
                assert(lookup(y.static_segment@, key) is Some);
            }
        }
    }

    /// Where `self` leads along `pats`, a matcher that extends it leads too.
    pub proof fn lemma_extends_follow(&self, later: &Nfa, pats: Seq<(Kind, Seq<char>)>)
        requires
            self.wf(),
            self.extends(later),
            self.follow(pats) is Some,
        ensures
            later.follow(pats) == self.follow(pats),
            self.follow(pats)->0 < self.len(),
        decreases pats.len(),
    {
        if pats.len() > 0 {
            self.lemma_extends_follow(later, pats.drop_last());
            let s = self.follow(pats.drop_last())->0;
            assert(self.states@[s as int].transitions.targets_within(s as int, self.len() as int));
            let a = self.states@[s as int].transitions;
            if pats.last().0 == Kind::Static {
                assert(lookup(a.static_segment@, pats.last().1) is Some);
                lemma_lookup_in(a.static_segment@, pats.last().1);
            }
        }
    }

    /// Following `pats` reads only the states before the one it ends in, so a
    /// matcher that keeps those states leads to the same place.
    pub proof fn lemma_follow_stable(&self, later: &Nfa, pats: Seq<(Kind, Seq<char>)>, t: usize)
        requires
            self.wf(),
            later.len() >= self.len(),
            self.follow(pats) is Some,
            self.follow(pats)->0 <= t,
            forall|s: int| 0 <= s < self.len() && s < t ==> #[trigger] later.trans(s) == self.trans(s),
        ensures
            later.follow(pats) == self.follow(pats),
        decreases pats.len(),
    {
        if pats.len() > 0 {
            let y = self.follow(pats.drop_last())->0;
            self.lemma_step_bound(y, pats.last().0, pats.last().1);
            self.lemma_follow_stable(later, pats.drop_last(), t);
            assert(later.trans(y as int) == self.trans(y as int));
        }
    }

    /// Walking only literal transitions over `segs` is following the
    /// literal patterns of those segments.
    pub proof fn lemma_literal_walk(&self, segs: Seq<Seq<char>>, pats: Seq<(Kind, Seq<char>)>, i: nat)
        requires
            pats.len() == segs.len(),
            i <= segs.len(),
            forall|j: int| 0 <= j < pats.len() ==> #[trigger] pats[j] == (Kind::Static, segs[j]),
        ensures
            self.walk(segs, Seq::new(i, |j: int| Kind::Static)) == self.follow(pats.take(i as int)),
        decreases i,
    {
        let ks = Seq::new(i, |j: int| Kind::Static);
        if i > 0 {
            self.lemma_literal_walk(segs, pats, (i - 1) as nat);
            assert(ks.drop_last() =~= Seq::new((i - 1) as nat, |j: int| Kind::Static));
            assert(pats.take(i as int).drop_last() =~= pats.take(i - 1));
            assert(!ks.drop_last().contains(Kind::Wildcard));
        } else {
            assert(pats.take(0) =~= seq![]);
        }
    }

    /// An accepting run of literal transitions only is the preferred one,
    /// and it captures nothing.
    pub proof fn lemma_literal_run_best(&self, path: Seq<char>)
        requires
            self.accepting_run(
                path_segments(path),
                Seq::new(path_segments(path).len(), |j: int| Kind::Static),
            ),
        ensures
            self.is_best(
                path_segments(path),
                Seq::new(path_segments(path).len(), |j: int| Kind::Static),
            ),
            self.run_params(path, Seq::new(path_segments(path).len(), |j: int| Kind::Static))
                == Seq::<(Seq<char>, Seq<char>)>::empty(),
    {
        let segs = path_segments(path);
        let all = Seq::new(segs.len(), |j: int| Kind::Static);
        assert forall|other: Seq<Kind>| #[trigger]
            self.accepting_run(segs, other) implies !better(other, all) by {
            lemma_static_unbeaten(all, other);
        }
        lemma_param_pairs_static(self.captures(segs, path_rests(path), all));
    }

    fn get_state(&self, index: usize) -> (r: &State)
        requires
            index < self.len(),
        ensures
            *r == self.states@[index as int],
    {
        &self.states[index]
    }

    fn get_state_mut(&mut self, index: usize) -> (r: &mut State)
        requires
            index < old(self).len(),
        ensures
            *r == old(self).states@[index as int],
            final(self).states@ == old(self).states@.update(index as int, *final(r)),
            final(self).acceptances@ == old(self).acceptances@,
    {
        &mut self.states[index]
    }

    /// Finds the state that the template `path` ends in, adding a fresh
    /// state for each segment that has no transition yet.
    pub fn locate(&mut self, path: &str) -> (r: usize)
        requires
            old(self).wf(),
        ensures
            final(self).wf(),
            old(self).extends(final(self)),
            final(self).len() >= old(self).len(),
            forall|s: int|
                0 <= s < old(self).len() ==> #[trigger] final(self).accepting(s) == old(self).accepting(s),
            forall|s: int|
                old(self).len() <= s < final(self).len() ==> !#[trigger] final(self).accepting(s),
            r < final(self).len(),
            r != 0,
            final(self).follow(template_patterns(path@)) == Some(r),
            old(self).follow(template_patterns(path@)) is Some ==> *final(self) == *old(self),
            final(self).grown(old(self), template_patterns(path@), r),
    {
        let lead = count_leading_seps(path);
        let (segs, _starts) = split_segments(path, lead);
        let ghost pats = template_patterns(path@);
        let mut index: usize = 0;
        let mut i: usize = 0;
        proof {
            self.lemma_extends_refl();
            assert(pats.take(0) =~= seq![]);
            self.lemma_known(pats, 0);
        }
        let ghost m = self.known(pats, 0) as int;
        let ghost l = self.len() as int;
        let ghost b = self.follow(pats.take(m))->0;
        proof {
            self.lemma_extends_follow(self, pats.take(m));
        }
        while i < segs.len()
            invariant
                self.wf(),
                old(self).wf(),
                old(self).extends(self),
                self.len() >= old(self).len(),
                forall|s: int|
                    0 <= s < old(self).len() ==> #[trigger] self.accepting(s) == old(self).accepting(s),
                forall|s: int| old(self).len() <= s < self.len() ==> !#[trigger] self.accepting(s),
                i <= segs@.len(),
                pats.len() == segs@.len(),
                forall|j: int| 0 <= j < segs@.len() ==> pats[j] == pattern_of((#[trigger] segs@[j])@),
                index < self.len(),
                i > 0 ==> index > 0,
                self.follow(pats.take(i as int)) == Some(index),
                old(self).follow(pats.take(i as int)) is Some ==> *self == *old(self),
                m == old(self).known(pats, 0),
                0 <= m <= pats.len(),
                l == old(self).len(),
                old(self).follow(pats.take(m)) == Some(b),
                b < l,
                m < pats.len() ==> old(self).follow(pats.take(m + 1)) is None,
                i <= m ==> *self == *old(self) && old(self).follow(pats.take(i as int)) is Some,
                i > m ==> self.len() == l + i - m && index == l + i - m - 1,
                i > m ==> forall|s: int| 0 <= s < l && s != b ==> #[trigger] self.trans(s) == old(self).trans(s),
                i > m ==> forall|k: Kind, key: Seq<char>|
                    #[trigger] self.step(b, k, key) == if pat_matches(pats[m], k, key) {
                        Some(l as usize)
                    } else {
                        old(self).step(b, k, key)
                    },
                i > m ==> forall|k: Kind|
                    k != Kind::Static ==> #[trigger] self.trans(b as int).name(k) == if k == pats[m].0 {
                        pats[m].1
                    } else {
                        old(self).trans(b as int).name(k)
                    },
                i > m ==> forall|j: int, k: Kind, key: Seq<char>|
                    0 <= j < i - m ==> #[trigger] self.step((l + j) as usize, k, key) == if j + 1 < i - m
                        && pat_matches(pats[m + 1 + j], k, key) {
                        Some((l + j + 1) as usize)
                    } else {
                        None
                    },
                i > m ==> forall|j: int, k: Kind|
                    0 <= j < i - m - 1 && k == pats[m + 1 + j].0 && k != Kind::Static ==> #[trigger] self.trans(
                        l + j,
                    ).name(k) == pats[m + 1 + j].1,
            decreases segs@.len() - i,
        {
            let pat = Pattern::from_str(segs[i].as_str());
            let next = self.get_state(index).transitions.get(&pat);
            proof {
                assert(pat@ == pats[i as int]);
                if i > m {
                    assert(self.step(index, pat@.0, pat@.1) is None) by {
                        let j = i - m - 1;
                        assert(self.step((l + j) as usize, pat@.0, pat@.1) is None);
                    }
                } else if i == m {
                    assert(pats.take(m + 1).drop_last() =~= pats.take(m));
                    assert(pats.take(m + 1).last() == pats[m]);
                } else {
                    old(self).lemma_follow_prefix(pats.take(m), i + 1);
                    assert(pats.take(m).take(i + 1) =~= pats.take(i + 1));
                    assert(pats.take(i + 1).drop_last() =~= pats.take(i as int));
                    assert(pats.take(i + 1).last() == pats[i as int]);
                    assert(self.step(index, pat@.0, pat@.1) is Some);
                }
            }
            proof {
                assert(pats.take(i + 1).drop_last() =~= pats.take(i as int));
                assert(pats.take(i + 1).last() == pats[i as int]);
            }
            match next {
                Some(s) => {
                    proof {
                        assert(self.states@[index as int].transitions.targets_within(
                            index as int,
                            self.len() as int,
                        ));
                        if pat@.0 == Kind::Static {
                            lemma_lookup_in(self.states@[index as int].transitions.static_segment@, pat@.1);
                        }
                        assert(i < m);
                    }
                    index = s;
                },
                None => {
                    let ghost before = *self;
                    let ns = self.new_state();
                    proof {
                        before.lemma_extends_trans(&before, &*self);
                        old(self).lemma_extends_trans(&before, &*self);
                        if old(self).follow(pats.take(i + 1)) is Some {
                            assert(false);
                        }
                    }
                    let ghost mid = *self;
                    let ghost pv = pat@;
                    proof {
                        assert(mid.trans(index as int) == before.trans(index as int));
                        assert(mid.states@[index as int].transitions.step(pv.0, pv.1) is None);
                    }
                    let st = self.get_state_mut(index);
                    st.transitions.push(pat, ns);
                    proof {
                        assert(self.states@[index as int].transitions.step(pv.0, pv.1) == Some(ns));
                        assert forall|s: int| 0 <= s < self.states@.len() implies (
                        #[trigger] self.states@[s]).index == s && self.states@[s].transitions.wf()
                            && self.states@[s].transitions.targets_within(
                            s,
                            self.states@.len() as int,
                        ) by {
                            if s == index {
                                let a = mid.states@[s].transitions;
                                let b = self.states@[s].transitions;
                                assert(self.states@[s].index == mid.states@[s].index);
                                assert(a.targets_within(s, mid.len() as int));
                                assert forall|q: int|
                                    0 <= q < b.static_segment@.len() implies s < (
                                    #[trigger] b.static_segment@[q]).1 < self.states@.len() by {
                                    if b.static_segment@[q].1 != ns {
                                        let j = choose|j: int|
                                            0 <= j < a.static_segment@.len()
                                                && a.static_segment@[j] == b.static_segment@[q];
                                        assert(s < a.static_segment@[j].1);
                                    }
                                }
                            } else {
                                assert(mid.states@[s] == self.states@[s]);
                            }
                        }
                        assert forall|s: int| 0 <= s < mid.states@.len() implies {
                            let a = #[trigger] mid.states@[s].transitions;
                            let b = self.states@[s].transitions;
                            &&& (a.param_segment is Some ==> b.param_segment == a.param_segment)
                            &&& (a.wildcard is Some ==> b.wildcard == a.wildcard)
                            &&& forall|key: Seq<char>|
                                #[trigger] lookup(a.static_segment@, key) is Some ==> lookup(
                                    b.static_segment@,
                                    key,
                                ) == lookup(a.static_segment@, key)
                        } by {
                            if s == index {
                                let a = mid.states@[s].transitions;
                                let b = self.states@[s].transitions;
                                assert forall|key: Seq<char>|
                                    #[trigger] lookup(a.static_segment@, key) is Some implies lookup(
                                        b.static_segment@,
                                        key,
                                    ) == lookup(a.static_segment@, key) by {
                                    assert(a.step(Kind::Static, key) is Some);
                                    assert(b.step(Kind::Static, key) == a.step(Kind::Static, key));
                                }
                                if a.param_segment is Some {
                                    assert(a.step(Kind::Param, seq![]) is Some);
                                    assert(b.step(Kind::Param, seq![]) == a.step(Kind::Param, seq![]));
                                }
                                if a.wildcard is Some {
                                    assert(a.step(Kind::Wildcard, seq![]) is Some);
                                    assert(b.step(Kind::Wildcard, seq![]) == a.step(Kind::Wildcard, seq![]));
                                }
                            } else {
                                assert(mid.states@[s] == self.states@[s]);
                            }
                        }
                        old(self).lemma_extends_trans(&mid, &*self);
                        before.lemma_extends_follow(&mid, pats.take(i as int));
                        mid.lemma_extends_follow(&*self, pats.take(i as int));
                        assert(self.acceptances@ == mid.acceptances@);
                        assert forall|s: int|
                            0 <= s < old(self).len() implies #[trigger] self.accepting(s) == old(self).accepting(s) by {
                            assert(mid.accepting(s) == before.accepting(s));
                        }
                        assert forall|s: int|
                            old(self).len() <= s < self.len() implies !#[trigger] self.accepting(s) by {
                            if s < before.len() {
                                assert(mid.accepting(s) == before.accepting(s));
                            }
                        }
                        assert(i >= m);
                        assert(forall|s: int| 0 <= s < before.len() && s != index ==> #[trigger] self.trans(s) == before.trans(s)) by {
                            assert forall|s: int| 0 <= s < before.len() && s != index implies #[trigger] self.trans(s) == before.trans(s) by {
                                assert(mid.trans(s) == before.trans(s));
                                assert(self.states@[s] == mid.states@[s]);
                            }
                        }
                        assert(forall|k: Kind, key: Seq<char>| #[trigger] self.step(index, k, key) == if pat_matches(pv, k, key) {
                            Some(ns)
                        } else {
                            before.step(index, k, key)
                        }) by {
                            assert forall|k: Kind, key: Seq<char>| true implies #[trigger] self.step(index, k, key) == if pat_matches(pv, k, key) {
                                Some(ns)
                            } else {
                                before.step(index, k, key)
                            } by {
                                assert(self.states@[index as int].transitions.step(k, key) == if k == pv.0 && (k != Kind::Static || key == pv.1) {
                                    Some(ns)
                                } else {
                                    mid.states@[index as int].transitions.step(k, key)
                                });
                            }
                        }
                        assert(forall|k: Kind| k != Kind::Static ==> #[trigger] self.trans(index as int).name(k) == if k == pv.0 {
                            pv.1
                        } else {
                            before.trans(index as int).name(k)
                        }) by {
                            assert forall|k: Kind| k != Kind::Static implies #[trigger] self.trans(index as int).name(k) == if k == pv.0 {
                                pv.1
                            } else {
                                before.trans(index as int).name(k)
                            } by {
                                assert(self.states@[index as int].transitions.name(k) == if k == pv.0 {
                                    if k == Kind::Static { seq![] } else { pv.1 }
                                } else {
                                    mid.states@[index as int].transitions.name(k)
                                });
                            }
                        }
                        assert(forall|k: Kind, key: Seq<char>| #[trigger] self.step(ns, k, key) is None) by {
                            assert forall|k: Kind, key: Seq<char>| true implies #[trigger] self.step(ns, k, key) is None by {
                                assert(self.states@[ns as int] == mid.states@[ns as int]);
                                assert(mid.step(ns, k, key) is None);
                            }
                        }
                        if i == m {
                            assert(before == *old(self));
                            assert(index == b);
                            assert forall|j: int, k: Kind, key: Seq<char>|
                                0 <= j < i + 1 - m implies #[trigger] self.step((l + j) as usize, k, key) == if j + 1 < i + 1 - m
                                    && pat_matches(pats[m + 1 + j], k, key) {
                                    Some((l + j + 1) as usize)
                                } else {
                                    None
                                } by {
                                assert(j == 0);
                            }
                        } else {
                            assert forall|s: int| 0 <= s < l && s != b implies #[trigger] self.trans(s) == old(self).trans(s) by {
                                assert(self.trans(s) == before.trans(s));
                            }
                            assert(self.trans(b as int) == before.trans(b as int));
                            assert forall|k: Kind, key: Seq<char>| true implies #[trigger] self.step(b, k, key) == before.step(b, k, key) by {
                            }
                            assert forall|j: int, k: Kind, key: Seq<char>|
                                0 <= j < i + 1 - m implies #[trigger] self.step((l + j) as usize, k, key) == if j + 1 < i + 1 - m
                                    && pat_matches(pats[m + 1 + j], k, key) {
                                    Some((l + j + 1) as usize)
                                } else {
                                    None
                                } by {
                                if j < i - m - 1 {
                                    assert(self.trans(l + j) == before.trans(l + j));
                                    assert(self.step((l + j) as usize, k, key) == before.step((l + j) as usize, k, key));
                                } else if j == i - m - 1 {
                                    assert(before.step((l + j) as usize, k, key) is None);
                                    assert(m + 1 + j == i);
                                } else {
                                }
                            }
                            assert forall|j: int, k: Kind|
                                0 <= j < i + 1 - m - 1 && k == pats[m + 1 + j].0 && k != Kind::Static implies #[trigger] self.trans(
                                    l + j,
                                ).name(k) == pats[m + 1 + j].1 by {
                                if j < i - m - 1 {
                                    assert(self.trans(l + j) == before.trans(l + j));
                                } else {
                                    assert(m + 1 + j == i);
                                }
                            }
                        }
                    }
                    index = ns;
                },
            }
            i = i + 1;
        }
        proof {
            assert(pats.take(i as int) =~= pats);
            if m == pats.len() {
                assert(*self == *old(self));
            }
        }
        index
    }

    /// Marks `state` as the end of a template; the start state never is.
    pub fn accept(&mut self, state: usize)
        requires
            old(self).wf(),
            state < old(self).len(),
        ensures
            final(self).wf(),
            final(self).len() == old(self).len(),
            forall|s: int|
                0 <= s < old(self).len() ==> final(self).trans(s) == old(self).trans(s),
            forall|s: usize, k: Kind, seg: Seq<char>|
                #[trigger] final(self).step(s, k, seg) == old(self).step(s, k, seg),
            forall|s: int|
                0 <= s < old(self).len() ==> #[trigger] final(self).accepting(s) == if s == state
                    && state != 0 {
                    true
                } else {
                    old(self).accepting(s)
                },
            old(self).extends(final(self)),
    {
        if state != self.start_state() {
            self.acceptances.set(state, true);
        }
        proof {
            assert forall|s: int| 0 <= s < old(self).states@.len() implies {
                let a = #[trigger] old(self).states@[s].transitions;
                let b = self.states@[s].transitions;
                &&& (a.param_segment is Some ==> b.param_segment == a.param_segment)
                &&& (a.wildcard is Some ==> b.wildcard == a.wildcard)
                &&& forall|key: Seq<char>|
                    #[trigger] lookup(a.static_segment@, key) is Some ==> lookup(
                        b.static_segment@,
                        key,
                    ) == lookup(a.static_segment@, key)
            } by {
            }
        }
    }

    /// Registers the template `path` and gives the state it ends in.
    pub fn insert(&mut self, path: &str) -> (r: usize)
        requires
            old(self).wf(),
        ensures
            final(self).wf(),
            old(self).extends(final(self)),
            r < final(self).len(),
            r != 0,
            final(self).follow(template_patterns(path@)) == Some(r),
            final(self).accepting(r as int),
            forall|s: int|
                0 <= s < old(self).len() && s != r ==> #[trigger] final(self).accepting(s) == old(self).accepting(s),
            forall|s: int|
                old(self).len() <= s < final(self).len() && s != r ==> !#[trigger] final(self).accepting(s),
            final(self).len() >= old(self).len(),
            old(self).follow(template_patterns(path@)) is Some ==> final(self).len() == old(self).len()
                && r == old(self).follow(template_patterns(path@))->0,
            final(self).grown(old(self), template_patterns(path@), r),
    {
        let state = self.locate(path);
        let ghost mid = *self;
        self.accept(state);
        proof {
            old(self).lemma_extends_trans(&mid, &*self);
            mid.lemma_extends_follow(&*self, template_patterns(path@));
            assert(self.states@ =~= mid.states@) by {
                assert forall|s: int| 0 <= s < self.states@.len() implies self.states@[s] == mid.states@[s] by {
                    assert(self.trans(s) == mid.trans(s));
                    assert(self.states@[s].index == s && mid.states@[s].index == s);
                }
            }
        }
        state
    }

    /// The roles of the roads that advancing `roads` over segment `seg`
    /// yields, in order: a road inside a wildcard stays as it is, any other
    /// is extended by each transition it can take, literal, parameter,
    /// wildcard.
    pub open spec fn advance(&self, roads: Seq<Road>, seg: Seq<char>) -> Seq<Seq<Kind>>
        decreases roads.len(),
    {
        if roads.len() == 0 {
            seq![]
        } else {
            let r = roads.last();
            self.advance(roads.drop_last(), seg) + if r.wildcard {
                seq![r.kinds()]
            } else {
                self.trans(r.state as int).kinds_for(seg).map_values(|k: Kind| r.kinds().push(k))
            }
        }
    }

    /// `r` is a road that has read the first `i` segments.
    pub open spec fn road_ok(
        &self,
        segs: Seq<Seq<char>>,
        rests: Seq<Seq<char>>,
        i: int,
        r: Road,
    ) -> bool {
        &&& Self::consumed(r.kinds(), i)
        &&& self.walk(segs, r.kinds()) == Some(r.state)
        &&& r.wildcard == (r.kinds().len() > 0 && r.kinds().last() == Kind::Wildcard)
        &&& r.caps() == self.captures(segs, rests, r.kinds())
    }

    pub open spec fn has_road(roads: Seq<Road>, ks: Seq<Kind>) -> bool {
        exists|m: int| 0 <= m < roads.len() && (#[trigger] roads[m]).kinds() == ks
    }

    /// `roads` are exactly the ways through the first `i` segments.
    pub open spec fn roads_ok(
        &self,
        segs: Seq<Seq<char>>,
        rests: Seq<Seq<char>>,
        i: int,
        roads: Seq<Road>,
    ) -> bool {
        &&& forall|m: int| 0 <= m < roads.len() ==> self.road_ok(segs, rests, i, #[trigger] roads[m])
        &&& forall|ks: Seq<Kind>|
            Self::consumed(ks, i) && #[trigger] self.walk(segs, ks) is Some ==> Self::has_road(roads, ks)
    }

/// A transition leads to a later state of the arena.
    pub proof fn lemma_step_bound(&self, s: usize, k: Kind, seg: Seq<char>)
        requires
            self.wf(),
            self.step(s, k, seg) is Some,
        ensures
            s < self.step(s, k, seg)->0 < self.len(),
    {
        let t = self.states@[s as int].transitions;
        assert(t.targets_within(s as int, self.len() as int));
        if k == Kind::Static {
            lemma_lookup_in(t.static_segment@, seg);
        }
    }

    pub proof fn lemma_walk_bound(&self, segs: Seq<Seq<char>>, ks: Seq<Kind>)
        requires
            self.wf(),
            self.walk(segs, ks) is Some,
        ensures
            self.walk(segs, ks)->0 < self.len(),
            ks.len() > 0 ==> self.walk(segs, ks)->0 > 0,
        decreases ks.len(),
    {
        if ks.len() > 0 {
            self.lemma_walk_bound(segs, ks.drop_last());
            self.lemma_step_bound(self.walk(segs, ks.drop_last())->0, ks.last(), segs[ks.len() - 1]);
        }
    }

    proof fn lemma_has_road_push(roads: Seq<Road>, x: Road, ks: Seq<Kind>)
        requires
            Self::has_road(roads, ks),
        ensures
            Self::has_road(roads.push(x), ks),
    {
        let m = choose|m: int| 0 <= m < roads.len() && (#[trigger] roads[m]).kinds() == ks;
        assert(roads.push(x)[m] == roads[m]);
    }

    proof fn lemma_walk_push(&self, segs: Seq<Seq<char>>, ks: Seq<Kind>, k: Kind)
        requires
            ks.len() < segs.len(),
            !ks.contains(Kind::Wildcard),
            self.walk(segs, ks) is Some,
        ensures
            self.walk(segs, ks.push(k)) == self.step(self.walk(segs, ks)->0, k, segs[ks.len() as int]),
    {
        assert(ks.push(k).drop_last() =~= ks);
    }

    proof fn lemma_captures_push(
        &self,
        segs: Seq<Seq<char>>,
        rests: Seq<Seq<char>>,
        ks: Seq<Kind>,
        k: Kind,
    )
        ensures
            self.captures(segs, rests, ks.push(k)) =~= self.captures(segs, rests, ks).push(
                self.trans(self.walk(segs, ks)->0 as int).captured(
                    k,
                    segs[ks.len() as int],
                    rests[ks.len() as int],
                ),
            ),
    {
        assert forall|j: int| 0 <= j < ks.len() implies #[trigger] ks.push(k).take(j) == ks.take(j) by {
            assert(ks.push(k).take(j) =~= ks.take(j));
        }
        assert(ks.push(k).take(ks.len() as int) =~= ks);
    }

    /// The state that literal segment `seg` leads to from `state`.
    fn process_static_seg(&self, seg: &String, state: usize) -> (r: Option<usize>)
        requires
            self.wf(),
            state < self.len(),
        ensures
            r == self.step(state, Kind::Static, seg@),
            r matches Some(n) ==> n < self.len(),
    {
        let r = self.get_state(state).transitions.capture_static(seg);
        proof {
            if r is Some {
                lemma_lookup_in(self.states@[state as int].transitions.static_segment@, seg@);
                assert(self.states@[state as int].transitions.targets_within(
                    state as int,
                    self.len() as int,
                ));
            }
        }
        match r {
            Some((_c, next)) => Some(next),
            None => None,
        }
    }

    /// Walks `segs` through literal transitions only.
    fn fast_path_search(&self, segs: &Vec<String>) -> (r: Option<usize>)
        requires
            self.wf(),
        ensures
            r == self.walk(segs@.map_values(|s: String| s@), Seq::new(segs@.len(), |j: int| Kind::Static)),
            r matches Some(s) ==> s < self.len(),
    {
        let ghost ss = segs@.map_values(|s: String| s@);
        let mut state: usize = 0;
        let mut i: usize = 0;
        assert(Seq::new(0, |j: int| Kind::Static) =~= seq![]);
        while i < segs.len()
            invariant
                self.wf(),
                ss == segs@.map_values(|s: String| s@),
                i <= segs@.len(),
                state < self.len(),
                self.walk(ss, Seq::new(i as nat, |j: int| Kind::Static)) == Some(state),
            decreases segs@.len() - i,
        {
            let ghost ks = Seq::new(i as nat, |j: int| Kind::Static);
            proof {
                assert(ks.push(Kind::Static) =~= Seq::new((i + 1) as nat, |j: int| Kind::Static));
                self.lemma_walk_push(ss, ks, Kind::Static);
            }
            match self.process_static_seg(&segs[i], state) {
                Some(next) => {
                    state = next;
                },
                None => {
                    proof {
                        let all = Seq::new(segs@.len(), |j: int| Kind::Static);
                        assert(ks.push(Kind::Static) =~= all.take(i + 1));
                        self.lemma_walk_none_extend(ss, ks.push(Kind::Static), all);
                    }
                    return None;
                },
            }
            i = i + 1;
        }
        Some(state)
    }

    /// A way that fails on a prefix fails in full.
    proof fn lemma_walk_none_extend(&self, segs: Seq<Seq<char>>, pre: Seq<Kind>, ks: Seq<Kind>)
        requires
            pre.len() <= ks.len(),
            pre == ks.take(pre.len() as int),
            self.walk(segs, pre) is None,
        ensures
            self.walk(segs, ks) is None,
        decreases ks.len() - pre.len(),
    {
        if pre.len() < ks.len() {
            let next = ks.take(pre.len() as int + 1);
            assert(next.drop_last() =~= pre);
            self.lemma_walk_none_extend(segs, next, ks);
        } else {
            assert(ks =~= pre);
        }
    }

    /// Advances every road by one segment `seg`; `rest` is the path from
    /// that segment on. A road inside a wildcard stays as it is.
    fn process_seg(
        &self,
        roads: &Vec<Road>,
        seg: &String,
        rest: &String,
        Ghost(segs): Ghost<Seq<Seq<char>>>,
        Ghost(rests): Ghost<Seq<Seq<char>>>,
        Ghost(i): Ghost<int>,
    ) -> (r: Vec<Road>)
        requires
            self.wf(),
            0 <= i < segs.len(),
            i < rests.len(),
            segs[i] == seg@,
            rests[i] == rest@,
            self.roads_ok(segs, rests, i, roads@),
        ensures
            self.roads_ok(segs, rests, i + 1, r@),
            r@.map_values(|x: Road| x.kinds()) == self.advance(roads@, seg@),
    {
        let mut returned: Vec<Road> = Vec::new();
        let mut idx: usize = 0;
        assert(roads@.take(0) =~= seq![]);
        assert(returned@.map_values(|x: Road| x.kinds()) =~= seq![]);
        while idx < roads.len()
            invariant
                self.wf(),
                0 <= i < segs.len(),
                segs[i] == seg@,
                rests[i] == rest@,
                i < rests.len(),
                self.roads_ok(segs, rests, i, roads@),
                idx <= roads@.len(),
                forall|m: int|
                    0 <= m < returned@.len() ==> self.road_ok(segs, rests, i + 1, #[trigger] returned@[m]),
                returned@.map_values(|x: Road| x.kinds()) == self.advance(roads@.take(idx as int), seg@),
                forall|m: int|
                    0 <= m < idx && (#[trigger] roads@[m]).wildcard ==> Self::has_road(
                        returned@,
                        roads@[m].kinds(),
                    ),
                forall|m: int, k: Kind|
                    #![trigger roads@[m], self.step(roads@[m].state, k, seg@)]
                    0 <= m < idx && !roads@[m].wildcard && self.step(
                        roads@[m].state,
                        k,
                        seg@,
                    ) is Some ==> Self::has_road(returned@, roads@[m].kinds().push(k)),
            decreases roads@.len() - idx,
        {
            let r = &roads[idx];
            assert(self.road_ok(segs, rests, i, roads@[idx as int]));
            if r.wildcard {
                let c = r.copy();
                let ghost before = returned@;
                returned.push(c);
                proof {
                    assert(roads@.take(idx + 1).drop_last() =~= roads@.take(idx as int));
                    assert(roads@.take(idx + 1).last() == roads@[idx as int]);
                    assert(returned@.map_values(|x: Road| x.kinds()) =~= before.map_values(|x: Road| x.kinds()).push(c.kinds()));
                    assert(returned@[returned@.len() - 1] == c);
                    assert(Self::has_road(returned@, r.kinds()));
                    assert forall|m: int|
                        0 <= m < idx && (#[trigger] roads@[m]).wildcard implies Self::has_road(
                            returned@,
                            roads@[m].kinds(),
                        ) by {
                        assert(returned@ == before.push(c));
                        Self::lemma_has_road_push(before, c, roads@[m].kinds());
                    }
                    assert forall|m: int, k: Kind|
                        #![trigger roads@[m], self.step(roads@[m].state, k, seg@)]
                        0 <= m < idx && !roads@[m].wildcard && self.step(
                            roads@[m].state,
                            k,
                            seg@,
                        ) is Some implies Self::has_road(returned@, roads@[m].kinds().push(k)) by {
                        assert(returned@ == before.push(c));
                        Self::lemma_has_road_push(before, c, roads@[m].kinds().push(k));
                    }
                }
            } else {
                let ghost ks = r.kinds();
                proof {
                    if ks.contains(Kind::Wildcard) {
                        let w = choose|w: int| 0 <= w < ks.len() && ks[w] == Kind::Wildcard;
                        assert(ks.len() == i);
                    }
                    self.lemma_walk_bound(segs, ks);
                }
                let cs = self.get_state(r.state).transitions.capture(seg, rest);
                let ghost pre = returned@.map_values(|x: Road| x.kinds());
                let ghost ts = self.trans(r.state as int);
                proof {
                    assert(cs@.take(0).map_values(|e: (Capture, usize)| ks.push(e.0@.0)) =~= seq![]);
                    assert(pre =~= pre + cs@.take(0).map_values(|e: (Capture, usize)| ks.push(e.0@.0)));
                }
                let mut c: usize = 0;
                while c < cs.len()
                    invariant
                        ts == self.trans(r.state as int),
                        cs@.map_values(|e: (Capture, usize)| (e.0@, e.1)) == ts.capture_seq(seg@, rest@),
                        pre == self.advance(roads@.take(idx as int), seg@),
                        returned@.map_values(|x: Road| x.kinds()) == pre + cs@.take(c as int).map_values(|e: (Capture, usize)| ks.push(e.0@.0)),
                        self.wf(),
                        0 <= i < segs.len(),
                        segs[i] == seg@,
                        rests[i] == rest@,
                        i < rests.len(),
                        self.roads_ok(segs, rests, i, roads@),
                        idx < roads@.len(),
                        r == roads@[idx as int],
                        !r.wildcard,
                        ks == r.kinds(),
                        ks.len() == i,
                        !ks.contains(Kind::Wildcard),
                        self.road_ok(segs, rests, i, *r),
                        r.state < self.len(),
                        c <= cs@.len(),
                        forall|j: int|
                            0 <= j < cs@.len() ==> self.step(r.state, (#[trigger] cs@[j]).0@.0, seg@)
                                == Some(cs@[j].1) && cs@[j].0@ == self.trans(r.state as int).captured(
                                cs@[j].0@.0,
                                seg@,
                                rest@,
                            ),
                        forall|m: int|
                            0 <= m < returned@.len() ==> self.road_ok(segs, rests, i + 1, #[trigger] returned@[m]),
                        forall|m: int|
                            0 <= m < idx && (#[trigger] roads@[m]).wildcard ==> Self::has_road(
                                returned@,
                                roads@[m].kinds(),
                            ),
                        forall|m: int, k: Kind|
                            #![trigger roads@[m], self.step(roads@[m].state, k, seg@)]
                            0 <= m < idx && !roads@[m].wildcard && self.step(
                                roads@[m].state,
                                k,
                                seg@,
                            ) is Some ==> Self::has_road(returned@, roads@[m].kinds().push(k)),
                        forall|j: int|
                            0 <= j < c ==> Self::has_road(returned@, ks.push((#[trigger] cs@[j]).0@.0)),
                    decreases cs@.len() - c,
                {
                    let kind = cs[c].0.kind();
                    let mut captures = r.copy_captures();
                    captures.push(cs[c].0.copy());
                    let mut road = Road::new(cs[c].1, captures);
                    if kind == Kind::Wildcard {
                        road.set_wildcard(true);
                    }
                    proof {
                        assert(road.caps() =~= r.caps().push(cs@[c as int].0@));
                        assert(road.kinds() =~= ks.push(kind)) by {
                            assert forall|j: int| 0 <= j < road.kinds().len() implies road.kinds()[j]
                                == ks.push(kind)[j] by {
                                assert(road.caps()[j] == road.captures@[j]@);
                                if j < ks.len() {
                                    assert(r.caps()[j] == r.captures@[j]@);
                                }
                            }
                        }
                        self.lemma_walk_push(segs, ks, kind);
                        self.lemma_captures_push(segs, rests, ks, kind);
                        if kind != Kind::Wildcard {
                            assert(!ks.push(kind).contains(Kind::Wildcard)) by {
                                if ks.push(kind).contains(Kind::Wildcard) {
                                    let w = choose|w: int| 0 <= w < ks.push(kind).len() && ks.push(kind)[w] == Kind::Wildcard;
                                    assert(ks.contains(Kind::Wildcard)) by {
                                        assert(ks[w] == Kind::Wildcard);
                                    }
                                }
                            }
                        }
                        assert(road.kinds().last() == kind);
                    }
                    let ghost before = returned@;
                    returned.push(road);
                    proof {
                        assert(returned@ == before.push(road));
                        assert(cs@.take(c + 1).map_values(|e: (Capture, usize)| ks.push(e.0@.0)) =~= cs@.take(c as int).map_values(|e: (Capture, usize)| ks.push(e.0@.0)).push(ks.push(kind)));
                        assert(returned@.map_values(|x: Road| x.kinds()) =~= before.map_values(|x: Road| x.kinds()).push(road.kinds()));
                        assert(returned@[returned@.len() - 1] == road);
                        assert(Self::has_road(returned@, ks.push(kind)));
                        assert forall|m: int|
                            0 <= m < idx && (#[trigger] roads@[m]).wildcard implies Self::has_road(
                                returned@,
                                roads@[m].kinds(),
                            ) by {
                            Self::lemma_has_road_push(before, road, roads@[m].kinds());
                        }
                        assert forall|m: int, k: Kind|
                            #![trigger roads@[m], self.step(roads@[m].state, k, seg@)]
                            0 <= m < idx && !roads@[m].wildcard && self.step(
                                roads@[m].state,
                                k,
                                seg@,
                            ) is Some implies Self::has_road(returned@, roads@[m].kinds().push(k)) by {
                            Self::lemma_has_road_push(before, road, roads@[m].kinds().push(k));
                        }
                        assert forall|j: int|
                            0 <= j < c + 1 implies Self::has_road(returned@, ks.push((#[trigger] cs@[j]).0@.0)) by {
                            if j < c {
                                Self::lemma_has_road_push(before, road, ks.push(cs@[j].0@.0));
                            }
                        }
                        assert forall|m: int|
                            0 <= m < returned@.len() implies self.road_ok(segs, rests, i + 1, #[trigger] returned@[m]) by {
                            if m < before.len() {
                                assert(returned@[m] == before[m]);
                            }
                        }
                    }
                    c = c + 1;
                }
                proof {
                    assert(cs@.take(c as int) =~= cs@);
                    assert(ts.capture_seq(seg@, rest@).map_values(|e: ((Kind, Seq<char>, Seq<char>), usize)| e.0.0) =~= ts.kinds_for(seg@));
                    assert(cs@.map_values(|e: (Capture, usize)| ks.push(e.0@.0)) =~= ts.kinds_for(seg@).map_values(|k: Kind| ks.push(k))) by {
                        assert forall|j: int| 0 <= j < cs@.len() implies cs@[j].0@.0 == ts.kinds_for(seg@)[j] by {
                            assert(cs@.map_values(|e: (Capture, usize)| (e.0@, e.1))[j] == ts.capture_seq(seg@, rest@)[j]);
                            assert(ts.capture_seq(seg@, rest@).map_values(|e: ((Kind, Seq<char>, Seq<char>), usize)| e.0.0)[j] == ts.kinds_for(seg@)[j]);
                        }
                    }
                    assert(roads@.take(idx + 1).drop_last() =~= roads@.take(idx as int));
                    assert(roads@.take(idx + 1).last() == roads@[idx as int]);
                    assert forall|k: Kind|
                        self.step(r.state, k, seg@) is Some implies Self::has_road(returned@, ks.push(k)) by {
                        let j = choose|j: int| 0 <= j < cs@.len() && (#[trigger] cs@[j]).0@.0 == k;
                        assert(Self::has_road(returned@, ks.push(cs@[j].0@.0)));
                    }
                }
            }
            idx = idx + 1;
        }
        proof {
            assert forall|ks: Seq<Kind>|
                Self::consumed(ks, i + 1) && #[trigger] self.walk(segs, ks) is Some implies Self::has_road(
                    returned@,
                    ks,
                ) by {
                if ks.last() == Kind::Wildcard && ks.len() <= i {
                    assert(Self::consumed(ks, i));
                    let m = choose|m: int| 0 <= m < roads@.len() && (#[trigger] roads@[m]).kinds() == ks;
                    assert(self.road_ok(segs, rests, i, roads@[m]));
                } else {
                    let pre = ks.drop_last();
                    assert(ks.len() == i + 1);
                    assert(ks =~= pre.push(ks.last()));
                    assert(!pre.contains(Kind::Wildcard));
                    assert(Self::consumed(pre, i));
                    assert(self.walk(segs, pre) is Some);
                    let m = choose|m: int| 0 <= m < roads@.len() && (#[trigger] roads@[m]).kinds() == pre;
                    assert(self.road_ok(segs, rests, i, roads@[m]));
                    if pre.len() > 0 {
                        assert(pre.last() != Kind::Wildcard) by {
                            assert(pre[pre.len() - 1] == pre.last());
                        }
                    }
                    assert(!roads@[m].wildcard);
                    self.lemma_walk_push(segs, pre, ks.last());
                }
            }
            assert(roads@.take(idx as int) =~= roads@);
        }
        returned
    }

    /// Finds the template that `path` matches best: the accepting run that
    /// no other accepting run beats in the order of `better`.
    pub fn search(&self, path: &str) -> (r: Option<Match>)
        requires
            self.wf(),
        ensures
            r is None <==> !exists|ks: Seq<Kind>| self.accepting_run(path_segments(path@), ks),
            r matches Some(m) ==> {
                &&& self.is_best(path_segments(path@), m.kinds@)
                &&& m.state == self.walk(path_segments(path@), m.kinds@)->0
                &&& m.param_views() == self.run_params(path@, m.kinds@)
            },
    {
        let lead = count_leading_seps(path);
        let (segs, starts) = split_segments(path, lead);
        let ghost ss = path_segments(path@);
        let ghost rests = path_rests(path@);
        assert(segs@.map_values(|s: String| s@) =~= ss);
        let ghost all = Seq::new(segs@.len(), |j: int| Kind::Static);
        if let Some(state) = self.fast_path_search(&segs) {
            if self.get_acceptance(state) {
                proof {
                    assert(!all.contains(Kind::Wildcard));
                    assert forall|other: Seq<Kind>| #[trigger]
                        self.accepting_run(ss, other) implies !better(other, all) by {
                        lemma_static_unbeaten(all, other);
                    }
                    let caps = self.captures(ss, rests, all);
                    lemma_param_pairs_static(caps);
                    assert(self.accepting_run(ss, all));
                }
                let empty: Vec<(String, String)> = Vec::new();
                assert(empty@.map_values(|p: (String, String)| (p.0@, p.1@)) =~= seq![]);
                return Some(Match::new(state, empty, Ghost(all)));
            }
        }
        let mut roads: Vec<Road> = Vec::new();
        roads.push(Road::new(0, Vec::new()));
        proof {
            assert(roads@[0].kinds() =~= seq![]);
            assert(roads@[0].caps() =~= seq![]);
            assert(self.captures(ss, rests, seq![]) =~= seq![]);
            assert(self.road_ok(ss, rests, 0, roads@[0]));
            assert forall|ks: Seq<Kind>|
                Self::consumed(ks, 0) && #[trigger] self.walk(ss, ks) is Some implies Self::has_road(
                    roads@,
                    ks,
                ) by {
                assert(ks =~= seq![]);
                assert(roads@[0].kinds() == ks);
            }
        }
        let mut i: usize = 0;
        while i < segs.len()
            invariant
                self.wf(),
                ss == path_segments(path@),
                rests == path_rests(path@),
                segs@.map_values(|s: String| s@) == ss,
                segs@.len() == ss.len(),
                starts@.len() == ss.len(),
                lead == leading_seps(path@),
                forall|k: int|
                    0 <= k < starts@.len() ==> #[trigger] starts@[k] as int == crate::path::segment_spans(
                        path@,
                        lead as int,
                    )[k].0,
                forall|k: int| 0 <= k < starts@.len() ==> #[trigger] starts@[k] <= path@.len(),
                i <= segs@.len(),
                self.roads_ok(ss, rests, i as int, roads@),
            decreases segs@.len() - i,
        {
            let rest = text_from(path, starts[i]);
            assert(segs@[i as int]@ == ss[i as int]);
            roads = self.process_seg(
                &roads,
                &segs[i],
                &rest,
                Ghost(ss),
                Ghost(rests),
                Ghost(i as int),
            );
            i = i + 1;
        }
        let mut best: Option<usize> = None;
        let mut j: usize = 0;
        while j < roads.len()
            invariant
                self.wf(),
                self.roads_ok(ss, rests, ss.len() as int, roads@),
                j <= roads@.len(),
                best matches Some(b) ==> b < j && self.accepting(roads@[b as int].state as int)
                    && forall|m: int|
                    0 <= m < j && self.accepting((#[trigger] roads@[m]).state as int) ==> !better(
                        roads@[m].kinds(),
                        roads@[b as int].kinds(),
                    ),
                best is None ==> forall|m: int|
                    0 <= m < j ==> !self.accepting((#[trigger] roads@[m]).state as int),
            decreases roads@.len() - j,
        {
            assert(self.road_ok(ss, rests, ss.len() as int, roads@[j as int]));
            proof {
                self.lemma_walk_bound(ss, roads@[j as int].kinds());
            }
            if self.get_acceptance(roads[j].state) {
                match best {
                    None => {
                        proof {
                            lemma_lex_gt_irrefl(roads@[j as int].kinds());
                        }
                        best = Some(j);
                    },
                    Some(b) => {
                        if roads[j].is_better(&roads[b]) {
                            proof {
                                lemma_lex_gt_irrefl(roads@[j as int].kinds());
                                assert forall|m: int|
                                    0 <= m < j + 1 && self.accepting(
                                        (#[trigger] roads@[m]).state as int,
                                    ) implies !better(roads@[m].kinds(), roads@[j as int].kinds()) by {
                                    if m < j && better(roads@[m].kinds(), roads@[j as int].kinds()) {
                                        lemma_better_trans(
                                            roads@[m].kinds(),
                                            roads@[j as int].kinds(),
                                            roads@[b as int].kinds(),
                                        );
                                    }
                                }
                            }
                            best = Some(j);
                        }
                    },
                }
            }
            j = j + 1;
        }
        match best {
            None => {
                proof {
                    assert forall|ks: Seq<Kind>| !self.accepting_run(path_segments(path@), ks) by {
                        if self.accepting_run(ss, ks) {
                            assert(Self::consumed(ks, ss.len() as int));
                            assert(self.walk(ss, ks) is Some);
                            assert(Self::has_road(roads@, ks));
                            let m = choose|m: int| 0 <= m < roads@.len() && (#[trigger] roads@[m]).kinds() == ks;
                            assert(self.road_ok(ss, rests, ss.len() as int, roads@[m]));
                            assert(!self.accepting(roads@[m].state as int));
                        }
                    }
                }
                None
            },
            Some(b) => {
                let road = &roads[b];
                let ghost caps = road.caps();
                let mut params: Vec<(String, String)> = Vec::new();
                let mut c: usize = 0;
                assert(caps.take(0) =~= seq![]);
                while c < road.captures.len()
                    invariant
                        caps == road.caps(),
                        c <= caps.len(),
                        params@.map_values(|p: (String, String)| (p.0@, p.1@)) == param_pairs(
                            caps.take(c as int),
                        ),
                    decreases caps.len() - c,
                {
                    assert(caps.take(c + 1).drop_last() =~= caps.take(c as int));
                    assert(caps.take(c + 1).last() == caps[c as int]);
                    assert(caps[c as int] == road.captures@[c as int]@);
                    let ghost before = params@;
                    match &road.captures[c] {
                        Capture::Static => {},
                        Capture::Param(n, v) => {
                            params.push((n.clone(), v.clone()));
                        },
                        Capture::Wildcard(n, v) => {
                            params.push((n.clone(), v.clone()));
                        },
                    }
                    proof {
                        assert(params@.map_values(|p: (String, String)| (p.0@, p.1@))
                            =~= param_pairs(caps.take(c + 1)));
                    }
                    c = c + 1;
                }
                proof {
                    assert(caps.take(c as int) =~= caps);
                    assert(self.road_ok(ss, rests, ss.len() as int, roads@[b as int]));
                    assert(self.accepting_run(ss, road.kinds()));
                    assert forall|other: Seq<Kind>| #[trigger]
                        self.accepting_run(ss, other) implies !better(other, road.kinds()) by {
                        let m = choose|m: int| 0 <= m < roads@.len() && (#[trigger] roads@[m]).kinds() == other;
                        assert(self.road_ok(ss, rests, ss.len() as int, roads@[m]));
                    }
                }
                Some(Match::new(road.state, params, Ghost(road.kinds())))
            },
        }
    }

    /// Every transition out of `o` in `other` has a copy out of `n`, under
    /// the same name, to a state paired with its target.
    pub open spec fn copies(&self, other: &Nfa, pairs: Seq<(usize, usize)>, n: usize, o: usize) -> bool {
        &&& forall|k: Kind, key: Seq<char>|
            #[trigger] other.step(o, k, key) is Some ==> self.step(n, k, key) is Some && paired(
                pairs,
                self.step(n, k, key)->0,
                other.step(o, k, key)->0,
            )
        &&& forall|k: Kind|
            k != Kind::Static && other.step(o, k, seq![]) is Some ==> #[trigger] self.trans(n as int).name(k)
                == other.trans(o as int).name(k)
    }

    /// State `n` is a copy of state `o` of `other`: it has a copy of each of
    /// its transitions and no other, and it accepts if `o` does.
    pub open spec fn copy_of(&self, other: &Nfa, pairs: Seq<(usize, usize)>, n: usize, o: usize) -> bool {
        &&& self.copies(other, pairs, n, o)
        &&& forall|k: Kind, key: Seq<char>|
            #[trigger] self.step(n, k, key) is Some ==> other.step(o, k, key) is Some
        &&& self.accepting(n as int) == other.accepting(o as int)
    }

    proof fn lemma_copy_of_widen(
        &self,
        other: &Nfa,
        pairs: Seq<(usize, usize)>,
        more: Seq<(usize, usize)>,
        n: usize,
        o: usize,
    )
        requires
            self.copy_of(other, pairs, n, o),
            pairs_within(pairs, more),
        ensures
            self.copy_of(other, more, n, o),
    {
        assert forall|k: Kind, key: Seq<char>|
            #[trigger] other.step(o, k, key) is Some implies self.step(n, k, key) is Some && paired(
                more,
                self.step(n, k, key)->0,
                other.step(o, k, key)->0,
            ) by {
            let j = choose|j: int|
                0 <= j < pairs.len() && pairs[j] == (self.step(n, k, key)->0, other.step(o, k, key)->0);
            assert(paired(more, pairs[j].0, pairs[j].1));
        }
    }

    proof fn lemma_copies_widen(
        &self,
        other: &Nfa,
        pairs: Seq<(usize, usize)>,
        more: Seq<(usize, usize)>,
        n: usize,
        o: usize,
    )
        requires
            self.copies(other, pairs, n, o),
            pairs_within(pairs, more),
        ensures
            self.copies(other, more, n, o),
    {
        assert forall|k: Kind, key: Seq<char>|
            #[trigger] other.step(o, k, key) is Some implies self.step(n, k, key) is Some && paired(
                more,
                self.step(n, k, key)->0,
                other.step(o, k, key)->0,
            ) by {
            let j = choose|j: int|
                0 <= j < pairs.len() && pairs[j] == (self.step(n, k, key)->0, other.step(o, k, key)->0);
            assert(paired(more, pairs[j].0, pairs[j].1));
        }
    }

    proof fn lemma_copy_of_moved(&self, later: &Nfa, other: &Nfa, pairs: Seq<(usize, usize)>, n: usize, o: usize)
        requires
            self.copy_of(other, pairs, n, o),
            n < self.len(),
            n < later.len(),
            later.trans(n as int) == self.trans(n as int),
            later.accepting(n as int) == self.accepting(n as int),
        ensures
            later.copy_of(other, pairs, n, o),
    {
        assert forall|k: Kind, key: Seq<char>| true implies #[trigger] later.step(n, k, key) == self.step(n, k, key) by {}
    }

    /// Copies every transition out of `other`'s state `right`, and all that
    /// lies beyond it, into fresh states under `left`. Gives each fresh
    /// state with the state of `other` it copies.
    pub fn merge(&mut self, left: usize, other: &Nfa, right: usize) -> (r: Vec<(usize, usize)>)
        requires
            old(self).wf(),
            other.wf(),
            left < old(self).len(),
            right < other.len(),
        ensures
            final(self).wf(),
            final(self).len() >= old(self).len(),
            forall|s: int|
                0 <= s < old(self).len() && s != left ==> #[trigger] final(self).trans(s) == old(self).trans(s),
            forall|s: int|
                0 <= s < old(self).len() ==> #[trigger] final(self).accepting(s) == old(self).accepting(s),
            forall|j: int|
                0 <= j < r@.len() ==> old(self).len() <= (#[trigger] r@[j]).0 < final(self).len()
                    && r@[j].1 < other.len() && final(self).accepting(r@[j].0 as int)
                    == other.accepting(r@[j].1 as int),
            final(self).copies(other, r@, left, right),
            forall|k: Kind, key: Seq<char>|
                #[trigger] other.step(right, k, key) is None ==> final(self).step(left, k, key) == old(
                    self,
                ).step(left, k, key),
            forall|j: int|
                0 <= j < r@.len() ==> final(self).copy_of(other, r@, (#[trigger] r@[j]).0, r@[j].1),
            r@.len() == final(self).len() - old(self).len(),
            forall|j: int| 0 <= j < r@.len() ==> (#[trigger] r@[j]).0 == old(self).len() + j,
        decreases other.len() - right,
    {
        let mut returned: Vec<(usize, usize)> = Vec::new();
        let entries = other.get_state(right).transitions.entries();
        let ghost tr = other.states@[right as int].transitions;
        let ghost mut made: Seq<usize> = seq![];
        proof {
            assert(tr.targets_within(right as int, other.len() as int));
        }
        let mut i: usize = 0;
        while i < entries.len()
            invariant
                self.wf(),
                other.wf(),
                old(self).wf(),
                left < old(self).len(),
                right < other.len(),
                tr == other.states@[right as int].transitions,
                tr.wf(),
                i <= entries@.len(),
                self.len() >= old(self).len(),
                forall|j: int|
                    0 <= j < entries@.len() ==> tr.step((#[trigger] entries@[j]).pat@.0, entries@[j].pat@.1)
                        == Some(entries@[j].index) && (entries@[j].pat@.0 != Kind::Static
                        ==> entries@[j].pat@.1 == tr.name(entries@[j].pat@.0)),
                forall|k: Kind, key: Seq<char>|
                    #[trigger] tr.step(k, key) is Some ==> exists|j: int|
                        0 <= j < entries@.len() && entry_matches(#[trigger] entries@[j], k, key),
                forall|a: int, b: int|
                    0 <= a < b < entries@.len() ==> !entry_matches(#[trigger] entries@[a], (#[trigger] entries@[b]).pat@.0, entries@[b].pat@.1),
                tr.targets_within(right as int, other.len() as int),
                forall|s: int|
                    0 <= s < old(self).len() && s != left ==> #[trigger] self.trans(s) == old(self).trans(s),
                forall|s: int|
                    0 <= s < old(self).len() ==> #[trigger] self.accepting(s) == old(self).accepting(s),
                forall|j: int|
                    0 <= j < returned@.len() ==> old(self).len() <= (#[trigger] returned@[j]).0 < self.len()
                        && returned@[j].1 < other.len() && self.accepting(returned@[j].0 as int)
                        == other.accepting(returned@[j].1 as int),
                made.len() == i,
                forall|j: int|
                    0 <= j < i ==> self.step(left, (#[trigger] entries@[j]).pat@.0, entries@[j].pat@.1)
                        == Some(made[j]) && paired(returned@, made[j], entries@[j].index) && (
                    entries@[j].pat@.0 != Kind::Static ==> self.trans(left as int).name(
                        entries@[j].pat@.0,
                    ) == entries@[j].pat@.1),
                forall|k: Kind, key: Seq<char>|
                    (forall|j: int| 0 <= j < i ==> !entry_matches(#[trigger] entries@[j], k, key))
                        ==> #[trigger] self.step(left, k, key) == old(self).step(left, k, key),
                forall|j: int|
                    0 <= j < returned@.len() ==> self.copy_of(other, returned@, (#[trigger] returned@[j]).0, returned@[j].1),
                returned@.len() == self.len() - old(self).len(),
                forall|j: int| 0 <= j < returned@.len() ==> (#[trigger] returned@[j]).0 == old(self).len() + j,
            decreases entries@.len() - i,
        {
            let old_index = entries[i].index;
            proof {
                let e = entries@[i as int];
                assert(tr.step(e.pat@.0, e.pat@.1) == Some(e.index));
                if e.pat@.0 == Kind::Static {
                    lemma_lookup_in(tr.static_segment@, e.pat@.1);
                }
            }
            let ghost s0 = *self;
            let ghost prev = returned@;
            let new_state = self.new_state();
            proof {
                assert(old_index < other.len());
            }
            if other.get_acceptance(old_index) {
                self.accept(new_state);
            }
            let ghost s1 = *self;
            assert(s1.accepting(new_state as int) == other.accepting(old_index as int));
            let pat = entries[i].pat.copy();
            let ghost pv = pat@;
            let st = self.get_state_mut(left);
            st.transitions.push(pat, new_state);
            proof {
                assert(self.states@[left as int].transitions.step(pv.0, pv.1) == Some(new_state));
                assert forall|s: int| 0 <= s < self.states@.len() implies (
                #[trigger] self.states@[s]).index == s && self.states@[s].transitions.wf()
                    && self.states@[s].transitions.targets_within(s, self.states@.len() as int) by {
                    if s == left {
                        let a = s1.states@[s].transitions;
                        let b = self.states@[s].transitions;
                        assert(self.states@[s].index == s1.states@[s].index);
                        assert(a.targets_within(s, s1.len() as int));
                        assert forall|q: int|
                            0 <= q < b.static_segment@.len() implies s < (
                            #[trigger] b.static_segment@[q]).1 < self.states@.len() by {
                            if b.static_segment@[q].1 != new_state {
                                let j = choose|j: int|
                                    0 <= j < a.static_segment@.len() && a.static_segment@[j]
                                        == b.static_segment@[q];
                                assert(s < a.static_segment@[j].1);
                            }
                        }
                    } else {
                        assert(s1.states@[s] == self.states@[s]);
                    }
                }
                assert(self.acceptances@ == s1.acceptances@);
                assert forall|s: int|
                    0 <= s < old(self).len() && s != left implies #[trigger] self.trans(s) == old(self).trans(s) by {
                    assert(s1.trans(s) == s0.trans(s));
                }
                assert forall|s: int|
                    0 <= s < old(self).len() implies #[trigger] self.accepting(s) == old(self).accepting(s) by {
                    assert(s1.accepting(s) == s0.accepting(s));
                }
                assert forall|j: int|
                    0 <= j < returned@.len() implies old(self).len() <= (#[trigger] returned@[j]).0 < self.len()
                        && returned@[j].1 < other.len() && self.accepting(returned@[j].0 as int)
                        == other.accepting(returned@[j].1 as int) by {
                    assert(s1.accepting(returned@[j].0 as int) == s0.accepting(returned@[j].0 as int));
                }
            }
            returned.push((new_state, old_index));
            proof {
                assert(self.accepting(new_state as int) == s1.accepting(new_state as int));
            }
            let ghost s2 = *self;
            let below = self.merge(new_state, other, old_index);
            proof {
                assert forall|s: int|
                    0 <= s < old(self).len() && s != left implies #[trigger] self.trans(s) == old(self).trans(s) by {
                    assert(s2.trans(s) == self.trans(s));
                }
                assert forall|j: int|
                    0 <= j < returned@.len() implies old(self).len() <= (#[trigger] returned@[j]).0 < self.len()
                        && returned@[j].1 < other.len() && self.accepting(returned@[j].0 as int)
                        == other.accepting(returned@[j].1 as int) by {
                    assert(s2.accepting(returned@[j].0 as int) == self.accepting(returned@[j].0 as int));
                }
            }
            let mut k: usize = 0;
            let ghost r0 = returned@;
            while k < below.len()
                invariant
                    k <= below@.len(),
                    returned@.len() == r0.len() + k,
                    forall|j: int| 0 <= j < r0.len() ==> #[trigger] returned@[j] == r0[j],
                    forall|j: int|
                        r0.len() <= j < returned@.len() ==> #[trigger] returned@[j] == below@[j - r0.len()],
                decreases below@.len() - k,
            {
                returned.push(below[k]);
                k = k + 1;
            }
            proof {
                let fin = returned@;
                assert forall|j: int| 0 <= j < fin.len() implies (#[trigger] fin[j]).0 == old(self).len() + j by {
                    if j < prev.len() {
                        assert(fin[j] == r0[j]);
                        assert(r0[j] == prev[j]);
                    } else if j == prev.len() {
                        assert(fin[j] == r0[j]);
                    } else {
                        assert(fin[j] == below@[j - r0.len()]);
                    }
                }
                assert(pairs_within(prev, fin)) by {
                    assert forall|j: int| 0 <= j < prev.len() implies paired(fin, prev[j].0, prev[j].1) by {
                        assert(fin[j] == r0[j]);
                    }
                }
                assert(pairs_within(below@, fin)) by {
                    assert forall|j: int| 0 <= j < below@.len() implies paired(fin, below@[j].0, below@[j].1) by {
                        assert(fin[r0.len() + j] == below@[j]);
                    }
                }
                assert(paired(fin, new_state, old_index)) by {
                    assert(fin[prev.len() as int] == r0[prev.len() as int]);
                }
                assert forall|j: int|
                    0 <= j < fin.len() implies old(self).len() <= (#[trigger] fin[j]).0 < self.len()
                        && fin[j].1 < other.len() && self.accepting(fin[j].0 as int)
                        == other.accepting(fin[j].1 as int) by {
                    if j < r0.len() {
                        assert(fin[j] == r0[j]);
                    } else {
                        assert(fin[j] == below@[j - r0.len()]);
                    }
                }
                // the fresh state copies the state of other it stands for
                assert(self.copy_of(other, fin, new_state, old_index)) by {
                    self.lemma_copies_widen(other, below@, fin, new_state, old_index);
                    assert forall|k2: Kind, key: Seq<char>|
                        #[trigger] self.step(new_state, k2, key) is Some implies other.step(old_index, k2, key) is Some by {
                        if other.step(old_index, k2, key) is None {
                            assert(self.step(new_state, k2, key) == s2.step(new_state, k2, key));
                            assert(s2.trans(new_state as int) == s1.trans(new_state as int));
                        }
                    }
                }
                assert forall|j: int|
                    0 <= j < fin.len() implies self.copy_of(other, fin, (#[trigger] fin[j]).0, fin[j].1) by {
                    if j < prev.len() {
                        assert(fin[j] == prev[j]);
                        let n = prev[j].0;
                        assert(s0.copy_of(other, prev, n, prev[j].1));
                        assert(self.trans(n as int) == s0.trans(n as int)) by {
                            assert(s1.trans(n as int) == s0.trans(n as int));
                            assert(s2.trans(n as int) == self.trans(n as int));
                        }
                        assert(self.accepting(n as int) == s0.accepting(n as int)) by {
                            assert(s1.accepting(n as int) == s0.accepting(n as int));
                        }
                        s0.lemma_copy_of_moved(&*self, other, prev, n, prev[j].1);
                        self.lemma_copy_of_widen(other, prev, fin, n, prev[j].1);
                    } else if j == prev.len() {
                        assert(fin[j] == (new_state, old_index));
                    } else {
                        assert(fin[j] == below@[j - r0.len()]);
                        self.lemma_copy_of_widen(other, below@, fin, fin[j].0, fin[j].1);
                    }
                }
                // the transitions out of left
                let ei = entries@[i as int];
                assert(self.trans(left as int) == s2.trans(left as int));
                assert forall|j: int|
                    0 <= j < i + 1 implies self.step(left, (#[trigger] entries@[j]).pat@.0, entries@[j].pat@.1)
                        == Some(made.push(new_state)[j]) && paired(fin, made.push(new_state)[j], entries@[j].index) && (
                    entries@[j].pat@.0 != Kind::Static ==> self.trans(left as int).name(
                        entries@[j].pat@.0,
                    ) == entries@[j].pat@.1) by {
                    if j < i {
                        assert(!entry_matches(entries@[j], ei.pat@.0, ei.pat@.1));
                        assert(s0.step(left, entries@[j].pat@.0, entries@[j].pat@.1) == Some(made[j]));
                        assert(paired(prev, made[j], entries@[j].index));
                        let w = choose|w: int| 0 <= w < prev.len() && prev[w] == (made[j], entries@[j].index);
                        assert(paired(fin, prev[w].0, prev[w].1));
                    }
                }
                assert forall|k2: Kind, key: Seq<char>|
                    (forall|j: int| 0 <= j < i + 1 ==> !entry_matches(#[trigger] entries@[j], k2, key))
                        implies #[trigger] self.step(left, k2, key) == old(self).step(left, k2, key) by {
                    assert(!entry_matches(entries@[i as int], k2, key));
                    assert(s0.step(left, k2, key) == old(self).step(left, k2, key));
                }
                made = made.push(new_state);
            }
            i = i + 1;
        }
        proof {
            assert forall|k: Kind, key: Seq<char>|
                #[trigger] other.step(right, k, key) is Some implies self.step(left, k, key) is Some && paired(
                    returned@,
                    self.step(left, k, key)->0,
                    other.step(right, k, key)->0,
                ) by {
                assert(tr.step(k, key) is Some);
                let j = choose|j: int| 0 <= j < entries@.len() && entry_matches(#[trigger] entries@[j], k, key);
                assert(self.step(left, k, key) == self.step(left, entries@[j].pat@.0, entries@[j].pat@.1));
                assert(other.step(right, k, key) == other.step(right, entries@[j].pat@.0, entries@[j].pat@.1));
            }
            assert forall|k: Kind|
                k != Kind::Static && other.step(right, k, seq![]) is Some implies #[trigger] self.trans(left as int).name(k)
                    == other.trans(right as int).name(k) by {
                assert(tr.step(k, seq![]) is Some);
                let j = choose|j: int| 0 <= j < entries@.len() && entry_matches(#[trigger] entries@[j], k, seq![]);
            }
            assert forall|k: Kind, key: Seq<char>|
                #[trigger] other.step(right, k, key) is None implies self.step(left, k, key) == old(self).step(left, k, key) by {
                assert forall|j: int| 0 <= j < i implies !entry_matches(#[trigger] entries@[j], k, key) by {
                    if entry_matches(entries@[j], k, key) {
                        assert(tr.step(entries@[j].pat@.0, entries@[j].pat@.1) == Some(entries@[j].index));
                        assert(tr.step(k, key) == tr.step(entries@[j].pat@.0, entries@[j].pat@.1));
                    }
                }
            }
        }
        returned
    }

    fn get_acceptance(&self, state: usize) -> (r: bool)
        requires
            self.wf(),
            state < self.len(),
        ensures
            r == self.accepting(state as int),
    {
        self.acceptances[state]
    }
}

} // verus!
