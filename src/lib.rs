//! Matching of request paths against registered path templates.
//!
//! A template is a path whose segments are literal texts, parameters
//! (`:name`, one segment) or wildcards (`*name`, the rest of the path).
//! [`Router`] resolves ambiguous templates exhaustively, by the order of
//! specificity of the backtracking matcher in [`nfa`]; [`Router2`] walks the
//! prefix tree in [`tree`] greedily.
use vstd::prelude::*;

pub mod nfa;
pub mod params;
pub mod path;
pub mod tree;

pub use crate::params::{ParamIter, Params};

use crate::nfa::{Nfa, donor_once, path_segments, template_patterns};
use crate::tree::{Tree, tree_patterns};
use crate::path::{Kind, pattern_of, trim_trailing_seps, trim_end_seps};

verus! {

/// The named captures among (name, value) pairs: unnamed ones are left out,
/// and a later pair wins over an earlier one with the same name.
pub open spec fn named_params(pairs: Seq<(Seq<char>, Seq<char>)>) -> Map<Seq<char>, Seq<char>>
    decreases pairs.len(),
{
    if pairs.len() == 0 {
        Map::empty()
    } else if pairs.last().0.len() > 0 {
        named_params(pairs.drop_last()).insert(pairs.last().0, pairs.last().1)
    } else {
        named_params(pairs.drop_last())
    }
}

/// A capture with an empty name never shows among the named captures.
pub proof fn lemma_named_params_have_names(pairs: Seq<(Seq<char>, Seq<char>)>)
    ensures
        forall|k: Seq<char>| #[trigger] named_params(pairs).contains_key(k) ==> k.len() > 0,
    decreases pairs.len(),
{
    if pairs.len() > 0 {
        lemma_named_params_have_names(pairs.drop_last());
        let m = named_params(pairs.drop_last());
        assert forall|k: Seq<char>| #[trigger] named_params(pairs).contains_key(k) implies k.len() > 0 by {
            if pairs.last().0.len() > 0 {
                assert(named_params(pairs) == m.insert(pairs.last().0, pairs.last().1));
            } else {
                assert(named_params(pairs) == m);
            }
        }
    } else {
        assert(named_params(pairs) == Map::<Seq<char>, Seq<char>>::empty());
    }
}

/// Every segment of the template `p` is a literal one.
pub open spec fn is_literal_template(p: Seq<char>) -> bool {
    forall|j: int|
        0 <= j < path_segments(p).len() ==> (#[trigger] pattern_of(path_segments(p)[j])).0
            == Kind::Static
}

/// Routes paths to data bound to templates, with the backtracking matcher:
/// of all the templates that match, the most specific one wins, comparing
/// captures position by position (a literal before a parameter before a
/// wildcard, at the first position where they differ); where all shared
/// positions tie, the match with more captures wins.
#[derive(Debug, Clone)]
pub struct Router<T> {
    pub tree: Nfa,
    pub endpoints: Vec<Option<T>>,
}

impl<T> Router<T> {
    pub open spec fn wf(&self) -> bool {
        &&& self.tree.wf()
        &&& self.endpoints@.len() == self.tree.len()
    }

    /// The matcher.
    pub open spec fn matcher(&self) -> Nfa {
        self.tree
    }

    /// The data bound to state `s` of the matcher.
    pub open spec fn endpoint(&self, s: int) -> Option<T> {
        self.endpoints@[s]
    }

    /// The state of the matcher that the template `pattern` ends in.
    pub open spec fn target(&self, pattern: Seq<char>) -> Option<usize> {
        self.matcher().follow(template_patterns(pattern))
    }

    /// What routing `path` gives: the data bound to the end of the preferred
    /// accepting run, with the named captures of that run.
    pub open spec fn routed(&self, path: Seq<char>) -> Option<(T, Map<Seq<char>, Seq<char>>)> {
        let segs = path_segments(path);
        if exists|ks: Seq<Kind>| self.matcher().is_best(segs, ks) {
            let ks = choose|ks: Seq<Kind>| self.matcher().is_best(segs, ks);
            match self.endpoint(self.matcher().walk(segs, ks)->0 as int) {
                Some(d) => Some((d, named_params(self.matcher().run_params(path, ks)))),
                None => None,
            }
        } else {
            None
        }
    }

    /// `new` is `old` with data `d` bound to the template `pattern`.
    pub open spec fn added(old: Router<T>, new: Router<T>, pattern: Seq<char>, d: T) -> bool {
        &&& new.wf()
        &&& new.target(pattern) is Some
        &&& new.endpoint(new.target(pattern)->0 as int) == Some(d)
        &&& new.matcher().accepting(new.target(pattern)->0 as int)
        &&& old.matcher().extends(&new.matcher())
        &&& new.matcher().grown(&old.matcher(), template_patterns(pattern), new.target(pattern)->0)
        &&& forall|s: int|
            old.matcher().len() <= s < new.matcher().len() && s != new.target(pattern)->0 ==> !#[trigger] new.matcher().accepting(s)
                && new.endpoint(s) is None
        &&& (old.target(pattern) is Some ==> new.target(pattern) == old.target(pattern)
            && new.matcher().len() == old.matcher().len())
        &&& forall|s: int|
            0 <= s < old.matcher().len() && s != new.target(pattern)->0 ==> #[trigger] new.endpoint(s)
                == old.endpoint(s) && new.matcher().accepting(s) == old.matcher().accepting(s)
    }

    /// Binding data twice to one template adds no state the second time,
    /// and the second data wins.
    pub proof fn lemma_add_twice(
        a: Router<T>,
        b: Router<T>,
        c: Router<T>,
        pattern: Seq<char>,
        d1: T,
        d2: T,
    )
        requires
            Self::added(a, b, pattern, d1),
            Self::added(b, c, pattern, d2),
        ensures
            c.matcher().len() == b.matcher().len(),
            c.target(pattern) == b.target(pattern),
            c.endpoint(c.target(pattern)->0 as int) == Some(d2),
    {
    }

    /// A template made of literal segments only, bound to data, routes its
    /// own path to that data with no captures, whatever else is registered.
    pub proof fn lemma_literal_routes(r: Router<T>, p: Seq<char>)
        requires
            r.wf(),
            is_literal_template(p),
            r.target(p) is Some,
            r.matcher().accepting(r.target(p)->0 as int),
            r.endpoint(r.target(p)->0 as int) is Some,
        ensures
            r.routed(p) == Some(
                (r.endpoint(r.target(p)->0 as int)->0, Map::<Seq<char>, Seq<char>>::empty()),
            ),
    {
        let segs = path_segments(p);
        let pats = template_patterns(p);
        let all = Seq::new(segs.len(), |j: int| Kind::Static);
        assert forall|j: int| 0 <= j < pats.len() implies #[trigger] pats[j] == (Kind::Static, segs[j]) by {
            assert(pattern_of(segs[j]).0 == Kind::Static);
        }
        r.matcher().lemma_literal_walk(segs, pats, segs.len());
        assert(pats.take(segs.len() as int) =~= pats);
        assert(!all.contains(Kind::Wildcard));
        assert(r.matcher().accepting_run(segs, all));
        r.matcher().lemma_literal_run_best(p);
        let ks = choose|ks: Seq<Kind>| r.matcher().is_best(segs, ks);
        r.matcher().lemma_best_unique(segs, ks, all);
        assert(named_params(Seq::<(Seq<char>, Seq<char>)>::empty()) =~= Map::<Seq<char>, Seq<char>>::empty());
    }

    pub fn new() -> (r: Router<T>)
        ensures
            r.wf(),
            forall|p: Seq<char>| #[trigger] r.routed(p) is None,
            r.matcher().len() == 1,
            !r.matcher().accepting(0),
            r.endpoint(0) is None,
            forall|k: Kind, key: Seq<char>| #[trigger] r.matcher().step(0, k, key) is None,
    {
        let mut endpoints: Vec<Option<T>> = Vec::new();
        endpoints.push(None);
        let r = Router { tree: Nfa::new(), endpoints };
        proof {
            assert forall|p: Seq<char>| #[trigger] r.routed(p) is None by {
                assert forall|ks: Seq<Kind>| !r.matcher().is_best(path_segments(p), ks) by {
                    if r.matcher().walk(path_segments(p), ks) is Some {
                        r.tree.lemma_walk_bound(path_segments(p), ks);
                    }
                }
            }
        }
        r
    }

    /// Gives the endpoints one slot per state of the matcher.
    fn sync_endpoints(&mut self)
        requires
            old(self).tree.wf(),
            old(self).endpoints@.len() <= old(self).tree.len(),
        ensures
            final(self).wf(),
            final(self).tree == old(self).tree,
            forall|s: int|
                0 <= s < old(self).endpoints@.len() ==> #[trigger] final(self).endpoints@[s]
                    == old(self).endpoints@[s],
            forall|s: int|
                old(self).endpoints@.len() <= s < final(self).endpoints@.len() ==> #[trigger] final(
                    self).endpoints@[s] is None,
    {
        let n = self.tree.state_count();
        while self.endpoints.len() < n
            invariant
                n == self.tree.len(),
                self.tree == old(self).tree,
                self.tree.wf(),
                old(self).endpoints@.len() <= self.endpoints@.len() <= n,
                forall|s: int|
                    0 <= s < old(self).endpoints@.len() ==> #[trigger] self.endpoints@[s]
                        == old(self).endpoints@[s],
                forall|s: int|
                    old(self).endpoints@.len() <= s < self.endpoints@.len() ==> #[trigger] self.endpoints@[s] is None,
            decreases n - self.endpoints@.len(),
        {
            self.endpoints.push(None);
        }
    }

    /// Binds `endpoint` to the template `pattern`, in place of any data
    /// bound to it before.
    pub fn add(&mut self, pattern: &str, endpoint: T)
        requires
            old(self).wf(),
        ensures
            Self::added(*old(self), *final(self), pattern@, endpoint),
    {
        let state = self.tree.insert(pattern);
        self.sync_endpoints();
        self.endpoints.set(state, Some(endpoint));
    }

    /// Finds the template that `path` matches best, and gives its data
    /// with the named captures.
    pub fn route(&self, path: &str) -> (r: Option<(&T, Params)>)
        requires
            self.wf(),
        ensures
            match r {
                Some((d, p)) => self.routed(path@) == Some((*d, p@)),
                None => self.routed(path@) is None,
            },
            r matches Some((_, p)) ==> forall|k: Seq<char>| #[trigger] p@.contains_key(k) ==> k.len() > 0,
    {
        let ghost segs = path_segments(path@);
        match self.tree.search(path) {
            None => {
                proof {
                    assert(!exists|ks: Seq<Kind>| self.matcher().is_best(segs, ks));
                }
                None
            },
            Some(found) => {
                proof {
                    let ks = choose|ks: Seq<Kind>| self.matcher().is_best(segs, ks);
                    self.tree.lemma_best_unique(segs, ks, found.kinds@);
                    self.tree.lemma_walk_bound(segs, found.kinds@);
                }
                match &self.endpoints[found.state] {
                    None => None,
                    Some(endpoint) => {
                        let mut params = Params::new();
                        let ghost pairs = found.param_views();
                        let mut j: usize = 0;
                        assert(pairs.take(0) =~= seq![]);
                        while j < found.params.len()
                            invariant
                                pairs == found.param_views(),
                                j <= pairs.len(),
                                params@ == named_params(pairs.take(j as int)),
                            decreases pairs.len() - j,
                        {
                            let (n, v) = &found.params[j];
                            proof {
                                assert(pairs.take(j + 1).drop_last() =~= pairs.take(j as int));
                                assert(pairs.take(j + 1).last() == (n@, v@));
                            }
                            if !n.as_str().is_empty() {
                                params.insert(n.as_str(), v.as_str());
                            }
                            j = j + 1;
                        }
                        proof {
                            assert(pairs.take(j as int) =~= pairs);
                            lemma_named_params_have_names(pairs);
                        }
                        Some((endpoint, params))
                    },
                }
            },
        }
    }

    /// Mounts the templates of `other` under the template `path` (without
    /// its closing separators): a copy of `other`'s matcher is grafted at
    /// the state that `path` ends in, and `other`'s data moves along.
    pub fn merge(&mut self, path: &str, other: Router<T>)
        requires
            old(self).wf(),
            other.wf(),
        ensures
            final(self).wf(),
            final(self).target(trim_trailing_seps(path@)) is Some,
            final(self).matcher().len() >= old(self).matcher().len(),
            forall|s: int|
                0 <= s < old(self).matcher().len() ==> #[trigger] final(self).matcher().accepting(s)
                    == old(self).matcher().accepting(s),
            forall|s: int|
                0 <= s < old(self).matcher().len() ==> #[trigger] final(self).endpoint(s) == old(self).endpoint(s),
            forall|s: usize, k: Kind, key: Seq<char>|
                s < old(self).matcher().len() && s != final(self).target(trim_trailing_seps(path@))->0
                    && old(self).matcher().step(s, k, key) is Some ==> #[trigger] final(self).matcher().step(s, k, key)
                    == old(self).matcher().step(s, k, key),
            forall|k: Kind, key: Seq<char>|
                old(self).matcher().step(final(self).target(trim_trailing_seps(path@))->0, k, key) is Some
                    && other.matcher().step(0, k, key) is None ==> #[trigger] final(self).matcher().step(
                    final(self).target(trim_trailing_seps(path@))->0,
                    k,
                    key,
                ) == old(self).matcher().step(final(self).target(trim_trailing_seps(path@))->0, k, key),
            forall|s: int|
                old(self).matcher().len() <= s < final(self).matcher().len() && (#[trigger] final(
                    self).endpoint(s)) is Some ==> exists|o: int|
                    0 <= o < other.matcher().len() && other.endpoint(o) == final(self).endpoint(s)
                        && other.matcher().accepting(o) == final(self).matcher().accepting(s),
            exists|pairs: Seq<(usize, usize)>|
                {
                    &&& final(self).matcher().copies(
                        &other.matcher(),
                        pairs,
                        final(self).target(trim_trailing_seps(path@))->0,
                        0,
                    )
                    &&& forall|j: int|
                        0 <= j < pairs.len() ==> final(self).matcher().copy_of(
                            &other.matcher(),
                            pairs,
                            (#[trigger] pairs[j]).0,
                            pairs[j].1,
                        )
                    &&& forall|j: int| 0 <= j < pairs.len() ==> (#[trigger] pairs[j]).0 >= old(self).matcher().len()
                    &&& forall|i: int, j: int| 0 <= i < j < pairs.len() ==> (#[trigger] pairs[i]).0 < (#[trigger] pairs[j]).0
                    &&& forall|j: int|
                        0 <= j < pairs.len() && donor_once(pairs, j) ==> final(self).endpoint(
                            (#[trigger] pairs[j]).0 as int,
                        ) == other.endpoint(pairs[j].1 as int)
                },
    {
        let mount_path = trim_end_seps(path);
        let state = self.tree.locate(mount_path);
        self.sync_endpoints();
        let ghost mid = *self;
        let ghost orig = other;
        let mut other = other;
        let right = other.tree.start_state();
        let pairs = self.tree.merge(state, &other.tree, right);
        proof {
            mid.tree.lemma_follow_stable(&self.tree, template_patterns(mount_path@), state);
        }
        self.sync_endpoints();
        let ghost after = self.tree;
        let mut k: usize = 0;
        while k < pairs.len()
            invariant
                self.wf(),
                self.tree == after,
                after.follow(template_patterns(mount_path@)) == Some(state),
                after.len() >= mid.tree.len(),
                mid.tree.len() >= old(self).tree.len(),
                mid.endpoints@.len() == mid.tree.len(),
                forall|s: int|
                    0 <= s < old(self).tree.len() ==> #[trigger] mid.endpoints@[s] == old(self).endpoints@[s],
                forall|s: int|
                    old(self).tree.len() <= s < mid.tree.len() ==> #[trigger] mid.endpoints@[s] is None,
                other.tree == orig.tree,
                other.endpoints@.len() == orig.endpoints@.len(),
                orig.wf(),
                k <= pairs@.len(),
                forall|j: int|
                    0 <= j < pairs@.len() ==> mid.tree.len() <= (#[trigger] pairs@[j]).0 < self.tree.len()
                        && pairs@[j].1 < orig.tree.len() && self.tree.accepting(pairs@[j].0 as int)
                        == orig.tree.accepting(pairs@[j].1 as int),
                forall|s: int|
                    0 <= s < mid.tree.len() ==> #[trigger] self.endpoints@[s] == mid.endpoints@[s],
                forall|o: int|
                    0 <= o < orig.tree.len() ==> #[trigger] other.endpoints@[o] is None
                        || other.endpoints@[o] == orig.endpoints@[o],
                forall|s: int|
                    mid.tree.len() <= s < self.tree.len() && (#[trigger] self.endpoints@[s]) is Some
                        ==> exists|o: int|
                        0 <= o < orig.tree.len() && orig.endpoints@[o] == self.endpoints@[s]
                            && orig.tree.accepting(o) == self.tree.accepting(s),
                forall|j: int| 0 <= j < pairs@.len() ==> (#[trigger] pairs@[j]).0 == mid.tree.len() + j,
                forall|j: int| k <= j < pairs@.len() ==> self.endpoints@[(#[trigger] pairs@[j]).0 as int] is None,
                forall|j: int|
                    0 <= j < k && donor_once(pairs@, j) ==> self.endpoints@[(#[trigger] pairs@[j]).0 as int]
                        == orig.endpoints@[pairs@[j].1 as int],
                forall|o: int|
                    0 <= o < orig.tree.len() && (forall|j: int| 0 <= j < k ==> (#[trigger] pairs@[j]).1 != o)
                        ==> #[trigger] other.endpoints@[o] == orig.endpoints@[o],
            decreases pairs@.len() - k,
        {
            let (new_state, old_state) = pairs[k];
            let ghost before = other.endpoints@[old_state as int];
            let slot = &mut other.endpoints[old_state];
            let ep = slot.take();
            if ep.is_some() {
                proof {
                    assert(ep == orig.endpoints@[old_state as int]);
                }
                self.endpoints.set(new_state, ep);
                proof {
                    assert(self.tree.accepting(new_state as int) == orig.tree.accepting(old_state as int));
                }
            }
            proof {
                assert forall|o: int|
                    0 <= o < orig.tree.len() implies #[trigger] other.endpoints@[o] is None
                        || other.endpoints@[o] == orig.endpoints@[o] by {
                    if o != old_state {
                    }
                }
                assert forall|j: int|
                    0 <= j < k + 1 && donor_once(pairs@, j) implies self.endpoints@[(#[trigger] pairs@[j]).0 as int]
                        == orig.endpoints@[pairs@[j].1 as int] by {
                    if j == k {
                        assert forall|i: int| 0 <= i < k implies (#[trigger] pairs@[i]).1 != old_state by {
                            assert(pairs@[i].1 != pairs@[k as int].1);
                        }
                        assert(before == orig.endpoints@[old_state as int]);
                    } else {
                        assert(pairs@[j].0 != new_state);
                    }
                }
                assert forall|j: int| k + 1 <= j < pairs@.len() implies self.endpoints@[(#[trigger] pairs@[j]).0 as int] is None by {
                    assert(pairs@[j].0 != new_state);
                }
                assert forall|o: int|
                    0 <= o < orig.tree.len() && (forall|j: int| 0 <= j < k + 1 ==> (#[trigger] pairs@[j]).1 != o)
                        implies #[trigger] other.endpoints@[o] == orig.endpoints@[o] by {
                    assert(pairs@[k as int].1 != o);
                }
            }
            k = k + 1;
        }
        proof {
            assert forall|s: usize, k: Kind, key: Seq<char>|
                s < old(self).matcher().len() && s != state && old(self).matcher().step(s, k, key) is Some
                    implies #[trigger] self.matcher().step(s, k, key) == old(self).matcher().step(s, k, key) by {
                old(self).tree.lemma_extends_step(&mid.tree, s, k, key);
                mid.tree.lemma_same_trans_step(&self.tree, s, k, key);
            }
            assert forall|k: Kind, key: Seq<char>|
                old(self).matcher().step(state, k, key) is Some && orig.matcher().step(0, k, key) is None
                    implies #[trigger] self.matcher().step(state, k, key) == old(self).matcher().step(state, k, key) by {
                old(self).tree.lemma_extends_step(&mid.tree, state, k, key);
            }
            assert(self.matcher().copies(&orig.matcher(), pairs@, state, 0));
            assert(forall|j: int|
                0 <= j < pairs@.len() ==> self.matcher().copy_of(
                    &orig.matcher(),
                    pairs@,
                    (#[trigger] pairs@[j]).0,
                    pairs@[j].1,
                ));
            assert forall|s: int|
                old(self).tree.len() <= s < self.tree.len() && (#[trigger] self.endpoints@[s]) is Some implies exists|o: int|
                    0 <= o < orig.tree.len() && orig.endpoints@[o] == self.endpoints@[s]
                        && orig.tree.accepting(o) == self.tree.accepting(s) by {
                if s < mid.tree.len() {
                    assert(mid.endpoints@[s] is None);
                }
            }
            assert forall|s: int|
                old(self).matcher().len() <= s < self.matcher().len() && (#[trigger] self.endpoint(s)) is Some implies exists|o: int|
                    0 <= o < orig.matcher().len() && orig.endpoint(o) == self.endpoint(s)
                        && orig.matcher().accepting(o) == self.matcher().accepting(s) by {
                assert(self.endpoints@[s] is Some);
                let o = choose|o: int| 0 <= o < orig.tree.len() && orig.endpoints@[o] == self.endpoints@[s]
                        && orig.tree.accepting(o) == self.tree.accepting(s);
                assert(orig.endpoint(o) == self.endpoint(s));
            }
        }
    }
}

impl<T> Default for Router<T> {
    fn default() -> (r: Router<T>)
        ensures
            r.wf(),
            forall|p: Seq<char>| #[trigger] r.routed(p) is None,
    {
        Router::new()
    }
}

impl<T: Default> Router<T> {
    /// The data bound to the template `path`; a template with none gets a
    /// default value bound first.
    pub fn at_or_default(&mut self, path: &str) -> (r: &mut T)
        requires
            old(self).wf(),
        ensures
            final(self).wf(),
            final(self).target(path@) is Some,
            final(self).matcher().accepting(final(self).target(path@)->0 as int),
            final(self).endpoint(final(self).target(path@)->0 as int) == Some(*final(r)),
            old(self).matcher().extends(&final(self).matcher()),
            final(self).matcher().grown(&old(self).matcher(), template_patterns(path@), final(self).target(path@)->0),
            forall|s: int|
                old(self).matcher().len() <= s < final(self).matcher().len() && s != final(self).target(path@)->0
                    ==> !#[trigger] final(self).matcher().accepting(s) && final(self).endpoint(s) is None,
            old(self).target(path@) is Some ==> final(self).target(path@) == old(self).target(
                path@,
            ),
            old(self).target(path@) is Some && old(self).endpoint(
                old(self).target(path@)->0 as int,
            ) is Some ==> *r == old(self).endpoint(old(self).target(path@)->0 as int)->0,
            final(self).target(path@)->0 >= old(self).matcher().len() || old(self).endpoint(
                final(self).target(path@)->0 as int,
            ) is None ==> call_ensures(T::default, (), *r),
            forall|s: int|
                0 <= s < old(self).matcher().len() && s != final(self).target(path@)->0 ==> #[trigger] final(self).endpoint(s)
                    == old(self).endpoint(s) && final(self).matcher().accepting(s)
                    == old(self).matcher().accepting(s),
    {
        let state = self.tree.insert(path);
        self.sync_endpoints();
        let ghost mut fresh: Option<T> = None;
        if self.endpoints[state].is_none() {
            let d = T::default();
            proof {
                fresh = Some(d);
                assert(call_ensures(T::default, (), d));
            }
            self.endpoints.set(state, Some(d));
        }
        proof {
            if state >= old(self).tree.len() || old(self).endpoints@[state as int] is None {
                assert(fresh is Some);
                assert(self.endpoints@[state as int] == fresh);
            }
        }
        let slot = &mut self.endpoints[state];
        match slot.as_mut() {
            Some(x) => x,
            None => vstd::pervasive::unreached(),
        }
    }
}

/// Routes paths to data bound to templates, with the trie matcher: the path
/// descends greedily, a literal child before a parameter child before a
/// wildcard child, and falls back to the closest wildcard above where it
/// cannot go on.
#[derive(Debug)]
pub struct Router2<T> {
    pub tree: Tree<T>,
}

impl<T> Router2<T> {
    pub open spec fn wf(&self) -> bool {
        self.tree.wf()
    }

    /// The trie.
    pub open spec fn trie(&self) -> Tree<T> {
        self.tree
    }

    /// The node of the trie that the template `pattern` ends in.
    pub open spec fn target(&self, pattern: Seq<char>) -> Option<usize> {
        self.trie().follow(tree_patterns(pattern))
    }

    /// What routing `path` gives: the data of the node the descent settles
    /// on, with the named captures along the way.
    pub open spec fn routed(&self, path: Seq<char>) -> Option<(T, Map<Seq<char>, Seq<char>>)> {
        match self.trie().found(path) {
            Some(n) => match self.trie().data_at(n as int) {
                Some(d) => Some((d, named_params(self.trie().captured_params(path, n as int)))),
                None => None,
            },
            None => None,
        }
    }

    pub fn new() -> (r: Router2<T>)
        ensures
            r.wf(),
            r.trie().len() == 1,
            r.trie().data_at(0) is None,
            forall|key: Seq<char>| #[trigger] r.trie().child(0, key) is None,
            forall|p: Seq<char>| #[trigger] r.routed(p) is None,
    {
        let r = Router2 { tree: Tree::new() };
        proof {
            assert forall|p: Seq<char>| #[trigger] r.routed(p) is None by {
                assert(r.trie().found(p) is None);
            }
        }
        r
    }

    /// Binds `endpoint` to the template `pattern`, in place of any data
    /// bound to it before.
    pub fn add(&mut self, pattern: &str, endpoint: T)
        requires
            old(self).wf(),
        ensures
            final(self).wf(),
            final(self).target(pattern@) is Some,
            final(self).trie().data_at(final(self).target(pattern@)->0 as int) == Some(endpoint),
            old(self).trie().extends(&final(self).trie()),
            forall|s: int|
                0 <= s < old(self).trie().len() && s != final(self).target(pattern@)->0 ==> #[trigger] final(self).trie().data_at(s)
                    == old(self).trie().data_at(s),
            forall|s: int|
                old(self).trie().len() <= s < final(self).trie().len() && s != final(self).target(pattern@)->0 ==> #[trigger] final(self).trie().data_at(s) is None,
            final(self).trie().grown(&old(self).trie(), tree_patterns(pattern@), final(self).target(pattern@)->0),
            old(self).target(pattern@) is Some ==> final(self).trie().len() == old(self).trie().len(),
    {
        self.tree.insert(pattern, endpoint);
    }

    /// Mounts the templates of `other` under the template `path` (without
    /// its closing separators), moving `other`'s data along.
    pub fn merge(&mut self, path: &str, other: Router2<T>)
        requires
            old(self).wf(),
            other.wf(),
        ensures
            final(self).wf(),
            final(self).target(trim_trailing_seps(path@)) is Some,
            final(self).trie().len() >= old(self).trie().len(),
            forall|s: int|
                0 <= s < old(self).trie().len() ==> #[trigger] final(self).trie().data_at(s)
                    == old(self).trie().data_at(s),
            forall|s: int|
                old(self).trie().len() <= s < final(self).trie().len() && (#[trigger] final(
                    self).trie().data_at(s)) is Some ==> exists|o: int|
                    0 <= o < other.trie().len() && other.trie().data_at(o) == final(self).trie().data_at(s),
            exists|pairs: Seq<(usize, usize)>|
                {
                    &&& final(self).trie().copies(
                        other.trie().arena(),
                        pairs,
                        final(self).target(trim_trailing_seps(path@))->0,
                        0,
                    )
                    &&& forall|j: int|
                        0 <= j < pairs.len() ==> final(self).trie().copy_of(
                            other.trie().arena(),
                            pairs,
                            (#[trigger] pairs[j]).0,
                            pairs[j].1,
                        )
                    &&& forall|j: int| 0 <= j < pairs.len() ==> (#[trigger] pairs[j]).0 >= old(self).trie().len()
                    &&& forall|i: int, j: int| 0 <= i < j < pairs.len() ==> (#[trigger] pairs[i]).0 < (#[trigger] pairs[j]).0
                    &&& forall|j: int|
                        0 <= j < pairs.len() && donor_once(pairs, j) ==> final(self).trie().data_at(
                            (#[trigger] pairs[j]).0 as int,
                        ) == other.trie().data_at(pairs[j].1 as int)
                },
            forall|s: int, key: Seq<char>|
                0 <= s < old(self).trie().len() && s != final(self).target(trim_trailing_seps(path@))->0
                    && old(self).trie().child(s, key) is Some ==> #[trigger] final(self).trie().child(s, key)
                    == old(self).trie().child(s, key),
    {
        let mount_path = trim_end_seps(path);
        let ghost donor = other.tree;
        self.tree.merge(mount_path, other.tree);
        proof {
            assert forall|s: int|
                old(self).trie().len() <= s < self.trie().len() && (#[trigger] self.trie().data_at(s))
                    is Some implies exists|o: int|
                    0 <= o < other.trie().len() && other.trie().data_at(o) == self.trie().data_at(s) by {
                let o = choose|o: int| 0 <= o < donor.len() && donor.data_at(o) == self.tree.data_at(s);
                assert(other.trie().data_at(o) == self.trie().data_at(s));
            }
        }
    }

    /// Finds the template that `path` descends to, and gives its data with
    /// the named captures.
    pub fn route(&self, path: &str) -> (r: Option<(&T, Params)>)
        requires
            self.wf(),
        ensures
            match r {
                Some((d, p)) => self.routed(path@) == Some((*d, p@)),
                None => self.routed(path@) is None,
            },
            r matches Some((_, p)) ==> forall|k: Seq<char>| #[trigger] p@.contains_key(k) ==> k.len() > 0,
    {
        match self.tree.search(path) {
            None => None,
            Some((endpoint, found)) => {
                let mut params = Params::new();
                let ghost pairs = found@.map_values(|q: (String, String)| (q.0@, q.1@));
                let mut j: usize = 0;
                assert(pairs.take(0) =~= seq![]);
                while j < found.len()
                    invariant
                        pairs == found@.map_values(|q: (String, String)| (q.0@, q.1@)),
                        j <= pairs.len(),
                        params@ == named_params(pairs.take(j as int)),
                    decreases pairs.len() - j,
                {
                    let (n, v) = &found[j];
                    proof {
                        assert(pairs.take(j + 1).drop_last() =~= pairs.take(j as int));
                        assert(pairs.take(j + 1).last() == (n@, v@));
                    }
                    if !n.as_str().is_empty() {
                        params.insert(n.as_str(), v.as_str());
                    }
                    j = j + 1;
                }
                proof {
                    assert(pairs.take(j as int) =~= pairs);
                    lemma_named_params_have_names(pairs);
                }
                Some((endpoint, params))
            },
        }
    }
}

impl<T> Default for Router2<T> {
    fn default() -> (r: Router2<T>)
        ensures
            r.wf(),
            r.trie().len() == 1,
            forall|p: Seq<char>| #[trigger] r.routed(p) is None,
    {
        Router2::new()
    }
}

impl<T: Default> Router2<T> {
    /// The data bound to the template `pattern`; a template with none gets a
    /// default value bound first.
    pub fn at_or_default(&mut self, pattern: &str) -> (r: &mut T)
        requires
            old(self).wf(),
        ensures
            final(self).wf(),
            final(self).target(pattern@) is Some,
            final(self).trie().data_at(final(self).target(pattern@)->0 as int) == Some(*final(r)),
            old(self).trie().extends(&final(self).trie()),
            old(self).target(pattern@) is Some && old(self).trie().data_at(
                old(self).target(pattern@)->0 as int,
            ) is Some ==> *r == old(self).trie().data_at(old(self).target(pattern@)->0 as int)->0,
            final(self).target(pattern@)->0 >= old(self).trie().len() || old(self).trie().data_at(
                final(self).target(pattern@)->0 as int,
            ) is None ==> call_ensures(T::default, (), *r),
            forall|s: int|
                0 <= s < old(self).trie().len() && s != final(self).target(pattern@)->0 ==> #[trigger] final(self).trie().data_at(s)
                    == old(self).trie().data_at(s),
            forall|s: int|
                old(self).trie().len() <= s < final(self).trie().len() && s != final(self).target(pattern@)->0 ==> #[trigger] final(self).trie().data_at(s) is None,
            final(self).trie().grown(&old(self).trie(), tree_patterns(pattern@), final(self).target(pattern@)->0),
    {
        let data = self.tree.at(pattern);
        if data.is_none() {
            let d = T::default();
            *data = Some(d);
        }
        match data.as_mut() {
            Some(ep) => ep,
            None => vstd::pervasive::unreached(),
        }
    }
}

} // verus!
