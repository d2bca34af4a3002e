//! The trie matcher: an arena of nodes forming a prefix tree over template
//! segments, searched by greedy descent with a fall back to the closest
//! wildcard above.
use vstd::prelude::*;
use crate::nfa::{lookup, lemma_lookup_in, lemma_lookup_push, lemma_lookup_update, paired, pairs_within, donor_once};
use crate::path::{
    Kind, Pattern, pattern_of, pattern_key, one_leading_sep, segments, remainder,
    count_one_leading_sep, split_segments, text_from, PARAM_MARK, WILDCARD_MARK,
};

verus! {

/// The segments of a path as the trie reads it: one leading separator is
/// skipped.
pub open spec fn tree_segments(p: Seq<char>) -> Seq<Seq<char>> {
    segments(p, one_leading_sep(p) as int)
}

/// For each segment of a path as the trie reads it, the path from that
/// segment on.
pub open spec fn tree_rests(p: Seq<char>) -> Seq<Seq<char>> {
    Seq::new(tree_segments(p).len(), |j: int| remainder(p, one_leading_sep(p) as int, j))
}

/// The patterns of a template as the trie reads it.
pub open spec fn tree_patterns(p: Seq<char>) -> Seq<(Kind, Seq<char>)> {
    tree_segments(p).map_values(|s: Seq<char>| pattern_of(s))
}

/// The key under which a parameter child is kept.
pub open spec fn param_key() -> Seq<char> {
    seq![PARAM_MARK]
}

/// The key under which a wildcard child is kept.
pub open spec fn wildcard_key() -> Seq<char> {
    seq![WILDCARD_MARK]
}

/// A pattern that a template segment can compile to: a literal text never
/// starts with a parameter or wildcard mark.
pub open spec fn compiled(p: (Kind, Seq<char>)) -> bool {
    p.0 == Kind::Static ==> !(p.1.len() > 0 && (p.1[0] == PARAM_MARK || p.1[0] == WILDCARD_MARK))
}

/// The parameter and wildcard keys belong to parameter and wildcard patterns only.
pub proof fn lemma_key_kind(p: (Kind, Seq<char>))
    requires
        compiled(p),
    ensures
        (pattern_key(p) == param_key()) == (p.0 == Kind::Param),
        (pattern_key(p) == wildcard_key()) == (p.0 == Kind::Wildcard),
{
    if p.0 == Kind::Static {
        if p.1 == param_key() {
            assert(p.1[0] == PARAM_MARK);
        }
        if p.1 == wildcard_key() {
            assert(p.1[0] == WILDCARD_MARK);
        }
    }
    assert(param_key() != wildcard_key()) by {
        assert(param_key()[0] != wildcard_key()[0]);
    }
}

/// Walks a path through a sequence of segments, and tells from where the
/// rest of the path starts.
#[derive(Debug)]
pub struct Segments {
    pub s: String,
    pub segs: Vec<String>,
    pub starts: Vec<usize>,
    pub pos: usize,
}

impl Segments {
    /// The path it walks.
    pub open spec fn path(&self) -> Seq<char> {
        self.s@
    }

    /// How many segments it has handed out.
    pub open spec fn pos(&self) -> nat {
        self.pos as nat
    }

    pub open spec fn wf(&self) -> bool {
        &&& self.segs@.len() == tree_segments(self.s@).len()
        &&& self.starts@.len() == self.segs@.len()
        &&& self.pos <= self.segs@.len()
        &&& forall|k: int|
            0 <= k < self.segs@.len() ==> (#[trigger] self.segs@[k])@ == tree_segments(self.s@)[k]
        &&& forall|k: int|
            0 <= k < self.starts@.len() ==> #[trigger] self.starts@[k] as int
                == crate::path::segment_spans(self.s@, one_leading_sep(self.s@) as int)[k].0
        &&& forall|k: int| 0 <= k < self.starts@.len() ==> #[trigger] self.starts@[k] <= self.s@.len()
    }

    pub fn new(s: &str) -> (r: Segments)
        ensures
            r.wf(),
            r.path() == s@,
            r.pos() == 0,
    {
        let lead = count_one_leading_sep(s);
        let (segs, starts) = split_segments(s, lead);
        Segments { s: s.to_owned(), segs, starts, pos: 0 }
    }

    /// The next segment, if any is left.
    pub fn next(&mut self) -> (r: Option<String>)
        requires
            old(self).wf(),
        ensures
            final(self).wf(),
            final(self).path() == old(self).path(),
            old(self).pos() < tree_segments(old(self).path()).len() ==> r is Some && r->0@
                == tree_segments(old(self).path())[old(self).pos() as int] && final(self).pos()
                == old(self).pos() + 1,
            old(self).pos() >= tree_segments(old(self).path()).len() ==> r is None && final(self).pos()
                == old(self).pos(),
    {
        if self.pos < self.segs.len() {
            let seg = self.segs[self.pos].clone();
            self.pos = self.pos + 1;
            Some(seg)
        } else {
            None
        }
    }

    /// The path from the start of the segment handed out last (from the
    /// first segment before any was).
    pub fn reminder(&self) -> (r: String)
        requires
            self.wf(),
        ensures
            r@ == tree_rests(self.path())[if self.pos() == 0 {
                0
            } else {
                self.pos() - 1
            }],
    {
        proof {
            crate::path::lemma_spans_bounds(self.s@, one_leading_sep(self.s@) as int, one_leading_sep(self.s@) as int);
        }
        let k = if self.pos == 0 {
            0
        } else {
            self.pos - 1
        };
        let s: &str = self.s.as_str();
        text_from(s, self.starts[k])
    }
}

/// One node of the trie: its place in the arena, its parent, the pattern of
/// its segment, and its children by key.
#[derive(Debug)]
pub struct Node {
    pub index: usize,
    pub parent: usize,
    pub pattern: Pattern,
    pub children: Vec<(String, usize)>,
    pub has_param_child: bool,
    pub has_wildcard_child: bool,
}

impl Node {
    pub fn new(index: usize, parent: usize, pat: Pattern) -> (r: Node)
        ensures
            r.index == index,
            r.parent == parent,
            r.pattern@ == pat@,
            r.children@.len() == 0,
            !r.has_param_child,
            !r.has_wildcard_child,
    {
        Node {
            index,
            parent,
            pattern: pat,
            children: Vec::new(),
            has_param_child: false,
            has_wildcard_child: false,
        }
    }

    pub open spec fn node_wf(&self, s: int, n: int) -> bool {
        &&& self.index == s
        &&& (s > 0 ==> self.parent < s)
        &&& compiled(self.pattern@)
        &&& forall|i: int, j: int|
            0 <= i < j < self.children@.len() ==> (#[trigger] self.children@[i]).0@
                != (#[trigger] self.children@[j]).0@
        &&& forall|i: int| 0 <= i < self.children@.len() ==> s < (#[trigger] self.children@[i]).1 < n
        &&& self.has_param_child == lookup(self.children@, param_key()) is Some
        &&& self.has_wildcard_child == lookup(self.children@, wildcard_key()) is Some
    }
}

/// The child of node `s` of `nodes` under `key`.
pub open spec fn child_in(nodes: Seq<Node>, s: int, key: Seq<char>) -> Option<usize> {
    if 0 <= s < nodes.len() {
        lookup(nodes[s].children@, key)
    } else {
        None
    }
}

/// The node of `nodes` that the patterns `pats` lead to from the root.
pub open spec fn follow_in(nodes: Seq<Node>, pats: Seq<(Kind, Seq<char>)>) -> Option<usize>
    decreases pats.len(),
{
    if pats.len() == 0 {
        Some(0)
    } else {
        match follow_in(nodes, pats.drop_last()) {
            Some(s) => child_in(nodes, s as int, pattern_key(pats.last())),
            None => None,
        }
    }
}

/// The (name, value) captures among `caps` whose name is not empty.
pub open spec fn named_pairs(caps: Seq<(Kind, Seq<char>, Seq<char>)>) -> Seq<(Seq<char>, Seq<char>)>
    decreases caps.len(),
{
    if caps.len() == 0 {
        seq![]
    } else if caps.last().0 != Kind::Static && caps.last().1.len() > 0 {
        named_pairs(caps.drop_last()).push((caps.last().1, caps.last().2))
    } else {
        named_pairs(caps.drop_last())
    }
}

/// Without a named parameter or wildcard there is nothing to capture.
pub proof fn lemma_named_pairs_none(caps: Seq<(Kind, Seq<char>, Seq<char>)>)
    requires
        forall|j: int|
            0 <= j < caps.len() ==> (#[trigger] caps[j]).0 == Kind::Static || caps[j].1.len() == 0,
    ensures
        named_pairs(caps) == Seq::<(Seq<char>, Seq<char>)>::empty(),
    decreases caps.len(),
{
    if caps.len() > 0 {
        lemma_named_pairs_none(caps.drop_last());
    }
}

/// The position of the entry with key `key` in `children`.
fn position_of(children: &Vec<(String, usize)>, key: &String) -> (r: Option<usize>)
    ensures
        match r {
            Some(j) => j < children@.len() && children@[j as int].0@ == key@ && forall|i: int|
                0 <= i < j ==> (#[trigger] children@[i]).0@ != key@,
            None => forall|i: int| 0 <= i < children@.len() ==> (#[trigger] children@[i]).0@ != key@,
        },
{
    let mut i: usize = 0;
    while i < children.len()
        invariant
            i <= children@.len(),
            forall|j: int| 0 <= j < i ==> (#[trigger] children@[j]).0@ != key@,
        decreases children@.len() - i,
    {
        if children[i].0 == *key {
            return Some(i);
        }
        i = i + 1;
    }
    None
}

/// A trie of templates over an arena of nodes; node 0 is the root. The data
/// bound to node `s` is in slot `s` of `data`.
#[derive(Debug)]
pub struct Tree<T> {
    pub nodes: Vec<Node>,
    pub data: Vec<Option<T>>,
}

impl<T> Tree<T> {
    /// The number of nodes.
    pub open spec fn len(&self) -> nat {
        self.nodes@.len()
    }

    /// Node `s`.
    pub open spec fn node(&self, s: int) -> Node {
        self.nodes@[s]
    }

    /// The nodes of the arena.
    pub open spec fn arena(&self) -> Seq<Node> {
        self.nodes@
    }

    /// The data bound to node `s`.
    pub open spec fn data_at(&self, s: int) -> Option<T> {
        self.data@[s]
    }

    pub open spec fn wf(&self) -> bool {
        &&& self.nodes@.len() >= 1
        &&& self.data@.len() == self.nodes@.len()
        &&& self.nodes@[0].parent == 0
        &&& forall|s: int|
            0 <= s < self.nodes@.len() ==> (#[trigger] self.nodes@[s]).node_wf(s, self.nodes@.len() as int)
        &&& forall|s: int, i: int|
            0 <= s < self.nodes@.len() && 0 <= i < self.nodes@[s].children@.len() ==> {
                let c = (#[trigger] self.nodes@[s].children@[i]).1 as int;
                &&& self.nodes@[c].parent == s
                &&& self.nodes@[s].children@[i].0@ == pattern_key(self.nodes@[c].pattern@)
            }
    }

    /// The child of node `s` under `key`.
    pub open spec fn child(&self, s: int, key: Seq<char>) -> Option<usize> {
        child_in(self.nodes@, s, key)
    }

    /// The node that the patterns `pats` lead to from the root.
    pub open spec fn follow(&self, pats: Seq<(Kind, Seq<char>)>) -> Option<usize> {
        follow_in(self.nodes@, pats)
    }

    /// The child that segment `seg` descends to from node `s`: the literal
    /// child for it, else the parameter child, else the wildcard child.
    pub open spec fn search_child_spec(&self, s: int, seg: Seq<char>) -> Option<usize> {
        match self.child(s, seg) {
            Some(c) => Some(c),
            None => if self.nodes@[s].has_param_child {
                self.child(s, param_key())
            } else if self.nodes@[s].has_wildcard_child {
                self.child(s, wildcard_key())
            } else {
                None
            },
        }
    }

    /// The wildcard child of the closest strict ancestor of `s` that has one.
    pub open spec fn closest_wildcard(&self, s: int) -> Option<usize>
        decreases s,
    {
        if s <= 0 || s >= self.nodes@.len() || self.nodes@[s].parent >= s {
            None
        } else {
            let p = self.nodes@[s].parent as int;
            if self.nodes@[p].has_wildcard_child {
                self.child(p, wildcard_key())
            } else {
                self.closest_wildcard(p)
            }
        }
    }

    /// Where a descent that ends at `s` settles: `s` if it holds data, else
    /// the closest wildcard above it if that holds data.
    pub open spec fn settle(&self, s: int) -> Option<usize> {
        if self.data@[s] is Some {
            Some(s as usize)
        } else {
            match self.closest_wildcard(s) {
                Some(w) => if self.data@[w as int] is Some {
                    Some(w)
                } else {
                    None
                },
                None => None,
            }
        }
    }

    /// The greedy descent from node `s` over `segs[i..]`.
    pub open spec fn descend(&self, s: int, segs: Seq<Seq<char>>, i: int) -> Option<usize>
        decreases segs.len() - i,
    {
        if i >= segs.len() {
            self.settle(s)
        } else {
            match self.search_child_spec(s, segs[i]) {
                Some(n) => if self.nodes@[n as int].pattern@.0 == Kind::Wildcard {
                    Some(n)
                } else {
                    self.descend(n as int, segs, i + 1)
                },
                None => match self.closest_wildcard(s) {
                    Some(w) => self.settle(w as int),
                    None => None,
                },
            }
        }
    }

    /// The node that `path` is routed to.
    pub open spec fn found(&self, path: Seq<char>) -> Option<usize> {
        self.descend(0, tree_segments(path), 0)
    }

    /// The nodes from below the root down to `s`.
    pub open spec fn chain(&self, s: int) -> Seq<usize>
        decreases s,
    {
        if s <= 0 || s >= self.nodes@.len() || self.nodes@[s].parent >= s {
            seq![]
        } else {
            self.chain(self.nodes@[s].parent as int).push(s as usize)
        }
    }

    /// What each node of the chain down to `n` captures when `path` is
    /// replayed along it, one segment per node.
    pub open spec fn chain_caps(&self, path: Seq<char>, n: int) -> Seq<(Kind, Seq<char>, Seq<char>)> {
        let ch = self.chain(n);
        let segs = tree_segments(path);
        let len = if ch.len() < segs.len() {
            ch.len()
        } else {
            segs.len()
        };
        Seq::new(
            len,
            |j: int|
                {
                    let p = self.nodes@[ch[j] as int].pattern@;
                    (p.0, p.1, if p.0 == Kind::Wildcard {
                        tree_rests(path)[j]
                    } else if p.0 == Kind::Param {
                        segs[j]
                    } else {
                        seq![]
                    })
                },
        )
    }

    /// Some node on the chain down to `n` captures under a name.
    pub open spec fn chain_named(&self, n: int) -> bool {
        exists|j: int|
            0 <= j < self.chain(n).len() && self.nodes@[#[trigger] self.chain(n)[j] as int].pattern@.0
                != Kind::Static && self.nodes@[self.chain(n)[j] as int].pattern@.1.len() > 0
    }

    /// The named captures of `path` routed to node `n`, in path order.
    pub open spec fn captured_params(&self, path: Seq<char>, n: int) -> Seq<(Seq<char>, Seq<char>)> {
        named_pairs(self.chain_caps(path, n))
    }

    /// Every child of node `o` of `other` has a copy among the children of
    /// node `n`, under the same key and paired with it.
    pub open spec fn copies(&self, other: Seq<Node>, pairs: Seq<(usize, usize)>, n: usize, o: usize) -> bool {
        forall|key: Seq<char>|
            #[trigger] child_in(other, o as int, key) is Some ==> self.child(n as int, key) is Some && paired(
                pairs,
                self.child(n as int, key)->0,
                child_in(other, o as int, key)->0,
            )
    }

    /// Node `n` is a copy of node `o` of `other`: the same pattern, and a
    /// copy of each child of `o` and no other child.
    pub open spec fn copy_of(&self, other: Seq<Node>, pairs: Seq<(usize, usize)>, n: usize, o: usize) -> bool {
        &&& self.copies(other, pairs, n, o)
        &&& forall|key: Seq<char>|
            #[trigger] self.child(n as int, key) is Some ==> child_in(other, o as int, key) is Some
        &&& self.nodes@[n as int].pattern@ == other[o as int].pattern@
    }

    proof fn lemma_copies_widen(
        &self,
        other: Seq<Node>,
        pairs: Seq<(usize, usize)>,
        more: Seq<(usize, usize)>,
        n: usize,
        o: usize,
    )
        requires
            self.copies(other, pairs, n, o),
            pairs_within(pairs, more),
        ensures
            self.copies(other, more, n, o),
    {
        assert forall|key: Seq<char>|
            #[trigger] child_in(other, o as int, key) is Some implies self.child(n as int, key) is Some && paired(
                more,
                self.child(n as int, key)->0,
                child_in(other, o as int, key)->0,
            ) by {
            let j = choose|j: int|
                0 <= j < pairs.len() && pairs[j] == (self.child(n as int, key)->0, child_in(other, o as int, key)->0);
            assert(paired(more, pairs[j].0, pairs[j].1));
        }
    }

    proof fn lemma_copy_of_moved(
        &self,
        later: &Tree<T>,
        other: Seq<Node>,
        pairs: Seq<(usize, usize)>,
        more: Seq<(usize, usize)>,
        n: usize,
        o: usize,
    )
        requires
            self.copy_of(other, pairs, n, o),
            pairs_within(pairs, more),
            n < self.len(),
            n < later.len(),
            later.nodes@[n as int] == self.nodes@[n as int],
        ensures
            later.copy_of(other, more, n, o),
    {
        assert forall|key: Seq<char>| true implies #[trigger] later.child(n as int, key) == self.child(n as int, key) by {}
        self.lemma_copies_widen(other, pairs, more, n, o);
    }

    /// `later` keeps every node of `self` with all its children.
    pub open spec fn extends(&self, later: &Tree<T>) -> bool {
        &&& later.nodes@.len() >= self.nodes@.len()
        &&& forall|s: int|
            0 <= s < self.nodes@.len() ==> {
                let a = #[trigger] self.nodes@[s];
                let b = later.nodes@[s];
                &&& a.index == b.index
                &&& a.parent == b.parent
                &&& a.pattern@ == b.pattern@
                &&& forall|key: Seq<char>|
                    #[trigger] lookup(a.children@, key) is Some ==> lookup(b.children@, key)
                        == lookup(a.children@, key)
            }
    }

    pub proof fn lemma_extends_trans(&self, b: &Tree<T>, c: &Tree<T>)
        requires
            self.extends(b),
            b.extends(c),
        ensures
            self.extends(c),
    {
        assert forall|s: int| 0 <= s < self.nodes@.len() implies {
            let x = #[trigger] self.nodes@[s];
            let z = c.nodes@[s];
            &&& x.index == z.index
            &&& x.parent == z.parent
            &&& x.pattern@ == z.pattern@
            &&& forall|key: Seq<char>|
                #[trigger] lookup(x.children@, key) is Some ==> lookup(z.children@, key)
                    == lookup(x.children@, key)
        } by {
            let y = b.nodes@[s];
            assert forall|key: Seq<char>|
                #[trigger] lookup(self.nodes@[s].children@, key) is Some implies lookup(
                    c.nodes@[s].children@,
                    key,
                ) == lookup(self.nodes@[s].children@, key) by {
                assert(lookup(y.children@, key) is Some);
            }
        }
    }

    pub proof fn lemma_extends_follow(&self, later: &Tree<T>, pats: Seq<(Kind, Seq<char>)>)
        requires
            self.wf(),
            self.extends(later),
            self.follow(pats) is Some,
        ensures
            later.follow(pats) == self.follow(pats),
            self.follow(pats)->0 < self.len(),
        decreases pats.len(),
    {
        if pats.len() > 0 {
            self.lemma_extends_follow(later, pats.drop_last());
            let s = self.follow(pats.drop_last())->0;
            lemma_lookup_in(self.nodes@[s as int].children@, pattern_key(pats.last()));
            assert(self.nodes@[s as int].node_wf(s as int, self.len() as int));
        }
    }

    /// How many leading patterns of `pats`, from the `i`-th on, the trie
    /// already has nodes for.
    pub open spec fn known(&self, pats: Seq<(Kind, Seq<char>)>, i: nat) -> nat
        decreases pats.len() - i,
    {
        if i < pats.len() && self.follow(pats.take(i as int + 1)) is Some {
            self.known(pats, i + 1)
        } else {
            i
        }
    }

    pub proof fn lemma_known(&self, pats: Seq<(Kind, Seq<char>)>, i: nat)
        requires
            i <= pats.len(),
            self.follow(pats.take(i as int)) is Some,
        ensures
            i <= self.known(pats, i) <= pats.len(),
            self.follow(pats.take(self.known(pats, i) as int)) is Some,
            self.known(pats, i) < pats.len() ==> self.follow(
                pats.take(self.known(pats, i) as int + 1),
            ) is None,
        decreases pats.len() - i,
    {
        if i < pats.len() && self.follow(pats.take(i as int + 1)) is Some {
            self.lemma_known(pats, i + 1);
        }
    }

    /// Following a prefix of a way that can be followed succeeds.
    pub proof fn lemma_follow_prefix(&self, pats: Seq<(Kind, Seq<char>)>, j: int)
        requires
            self.follow(pats) is Some,
            0 <= j <= pats.len(),
        ensures
            self.follow(pats.take(j)) is Some,
        decreases pats.len() - j,
    {
        if j < pats.len() {
            assert(pats.take(j + 1).drop_last() =~= pats.take(j));
            if j + 1 == pats.len() {
                assert(pats.take(j + 1) =~= pats);
            } else {
                self.lemma_follow_prefix(pats, j + 1);
            }
        } else {
            assert(pats.take(j) =~= pats);
        }
    }

    /// `self` is `old` after locating the template patterns `pats`, which end
    /// in node `r`: with `m` the number of leading patterns `old` already had
    /// nodes for, node `b` where they end, and `L` the old number of nodes,
    /// `b` gains only the child for pattern `m`, the fresh node `L`; fresh
    /// node `L + j` has pattern `m + j`, its parent is the node before it,
    /// and it has exactly one child, for the next pattern, `L + j + 1`, the
    /// last one none; every other old node is unchanged, and `r` is the last
    /// fresh node (or `b` when nothing was missing).
    pub open spec fn grown(&self, old: &Tree<T>, pats: Seq<(Kind, Seq<char>)>, r: usize) -> bool {
        self.grown_in(self.nodes@, old, pats, r)
    }

    pub open spec fn grown_in(&self, nodes: Seq<Node>, old: &Tree<T>, pats: Seq<(Kind, Seq<char>)>, r: usize) -> bool {
        let m = old.known(pats, 0) as int;
        let n = pats.len() as int;
        let l = old.len() as int;
        let b = old.follow(pats.take(m))->0 as int;
        &&& nodes.len() == l + n - m
        &&& forall|s: int| 0 <= s < l && s != b ==> #[trigger] nodes[s] == old.node(s)
        &&& (m == n ==> nodes[b] == old.node(b) && r == b)
        &&& (m < n ==> r == l + n - m - 1)
        &&& (m < n ==> nodes[b].pattern@ == old.node(b).pattern@ && nodes[b].parent == old.node(b).parent)
        &&& (m < n ==> forall|key: Seq<char>|
            #[trigger] child_in(nodes, b, key) == if key == pattern_key(pats[m]) {
                Some(l as usize)
            } else {
                old.child(b, key)
            })
        &&& forall|j: int|
            0 <= j < n - m ==> (#[trigger] nodes[l + j]).pattern@ == pats[m + j]
                && nodes[l + j].parent == if j == 0 { b } else { l + j - 1 }
        &&& forall|j: int, key: Seq<char>|
            0 <= j < n - m ==> #[trigger] child_in(nodes, l + j, key) == if j + 1 < n - m && key
                == pattern_key(pats[m + 1 + j]) {
                Some((l + j + 1) as usize)
            } else {
                None
            }
    }

    pub fn new() -> (r: Tree<T>)
        ensures
            r.wf(),
            r.len() == 1,
            r.data_at(0) is None,
            forall|key: Seq<char>| r.child(0, key) is None,
            forall|p: Seq<char>| #[trigger] r.found(p) is None,
    {
        let root = Node::new(0, 0, Pattern::from_str("/"));
        proof {
            reveal_strlit("/");
        }
        let mut nodes: Vec<Node> = Vec::new();
        nodes.push(root);
        let mut data: Vec<Option<T>> = Vec::new();
        data.push(None);
        let r = Tree { nodes, data };
        proof {
            assert forall|p: Seq<char>| #[trigger] r.found(p) is None by {
                let lead = one_leading_sep(p) as int;
                crate::path::lemma_spans_bounds(p, lead, lead);
                assert(tree_segments(p).len() >= 1);
                assert(r.search_child_spec(0, tree_segments(p)[0]) is None);
            }
        }
        r
    }

    fn get(&self, index: usize) -> (r: &Node)
        requires
            index < self.len(),
        ensures
            *r == self.node(index as int),
    {
        &self.nodes[index]
    }

    fn get_mut(&mut self, index: usize) -> (r: &mut Node)
        requires
            index < old(self).len(),
        ensures
            *r == old(self).nodes@[index as int],
            final(self).nodes@ == old(self).nodes@.update(index as int, *final(r)),
            final(self).data@ == old(self).data@,
    {
        &mut self.nodes[index]
    }

    /// The child of `node` for pattern `pat`.
    fn get_child(&self, node: usize, pat: &Pattern) -> (r: Option<usize>)
        requires
            self.wf(),
            node < self.len(),
        ensures
            r == self.child(node as int, pattern_key(pat@)),
    {
        let key = pat.as_pat();
        let children = &self.nodes[node].children;
        let mut i: usize = 0;
        assert(children@.skip(0) =~= children@);
        while i < children.len()
            invariant
                i <= children@.len(),
                node < self.nodes@.len(),
                children@ == self.nodes@[node as int].children@,
                key@ == pattern_key(pat@),
                lookup(children@, key@) == lookup(children@.skip(i as int), key@),
            decreases children@.len() - i,
        {
            assert(children@.skip(i as int).drop_first() =~= children@.skip(i + 1));
            if children[i].0 == key {
                return Some(children[i].1);
            }
            i = i + 1;
        }
        None
    }

    /// Finds the node that the template `path` ends in, adding a fresh node
    /// for each segment that has none yet.
    #[verifier::rlimit(100)]
    fn locate_node(&mut self, path: &str) -> (r: usize)
        requires
            old(self).wf(),
        ensures
            final(self).wf(),
            old(self).extends(final(self)),
            final(self).len() >= old(self).len(),
            r < final(self).len(),
            final(self).follow(tree_patterns(path@)) == Some(r),
            forall|s: int|
                0 <= s < old(self).len() ==> #[trigger] final(self).data@[s] == old(self).data@[s],
            forall|s: int|
                old(self).len() <= s < final(self).len() ==> #[trigger] final(self).data@[s] is None,
            old(self).follow(tree_patterns(path@)) is Some ==> *final(self) == *old(self),
            final(self).grown(old(self), tree_patterns(path@), r),
    {
        let ghost pats = tree_patterns(path@);
        let mut node: usize = 0;
        let mut segs = Segments::new(path);
        proof {
            assert(pats.take(0) =~= seq![]);
            assert(self.extends(self));
            self.lemma_known(pats, 0);
        }
        let ghost m = self.known(pats, 0) as int;
        let ghost l = self.len() as int;
        let ghost b = self.follow(pats.take(m))->0 as int;
        proof {
            self.lemma_extends_follow(self, pats.take(m));
        }
        loop
            invariant
                self.wf(),
                old(self).wf(),
                old(self).extends(self),
                self.len() >= old(self).len(),
                segs.wf(),
                segs.path() == path@,
                segs.pos() <= pats.len(),
                pats == tree_patterns(path@),
                node < self.len(),
                self.follow(pats.take(segs.pos() as int)) == Some(node),
                forall|s: int|
                    0 <= s < old(self).len() ==> #[trigger] self.data@[s] == old(self).data@[s],
                forall|s: int|
                    old(self).len() <= s < self.len() ==> #[trigger] self.data@[s] is None,
                old(self).follow(pats.take(segs.pos() as int)) is Some ==> *self == *old(self),
                m == old(self).known(pats, 0),
                0 <= m <= pats.len(),
                l == old(self).len(),
                old(self).follow(pats.take(m)) == Some(b as usize),
                0 <= b < l,
                m < pats.len() ==> old(self).follow(pats.take(m + 1)) is None,
                segs.pos() <= m ==> *self == *old(self) && old(self).follow(pats.take(segs.pos() as int)) is Some,
                segs.pos() > m ==> self.len() == l + segs.pos() - m && node == l + segs.pos() - m - 1,
                segs.pos() > m ==> forall|s: int| 0 <= s < l && s != b ==> #[trigger] self.node(s) == old(self).node(s),
                segs.pos() > m ==> self.node(b).pattern@ == old(self).node(b).pattern@ && self.node(b).parent == old(self).node(b).parent,
                segs.pos() > m ==> forall|key: Seq<char>|
                    #[trigger] self.child(b, key) == if key == pattern_key(pats[m]) {
                        Some(l as usize)
                    } else {
                        old(self).child(b, key)
                    },
                segs.pos() > m ==> forall|j: int|
                    0 <= j < segs.pos() - m ==> (#[trigger] self.node(l + j)).pattern@ == pats[m + j]
                        && self.node(l + j).parent == if j == 0 { b } else { l + j - 1 },
                segs.pos() > m ==> forall|j: int, key: Seq<char>|
                    0 <= j < segs.pos() - m ==> #[trigger] self.child(l + j, key) == if j + 1 < segs.pos() - m && key
                        == pattern_key(pats[m + 1 + j]) {
                        Some((l + j + 1) as usize)
                    } else {
                        None
                    },
            decreases pats.len() - segs.pos(),
        {
            let ghost i = segs.pos() as int;
            match segs.next() {
                None => {
                    proof {
                        assert(pats.take(i) =~= pats);
                        if m == pats.len() {
                            assert(*self == *old(self));
                        } else {
                            let nodes = self.nodes@;
                            assert forall|s: int| 0 <= s < l && s != b implies #[trigger] nodes[s] == old(self).node(s) by {
                                assert(self.node(s) == old(self).node(s));
                            }
                            assert forall|key: Seq<char>| true implies #[trigger] child_in(nodes, b, key) == if key == pattern_key(pats[m]) {
                                Some(l as usize)
                            } else {
                                old(self).child(b, key)
                            } by {
                                assert(self.child(b, key) == child_in(nodes, b, key));
                            }
                            assert forall|j: int| 0 <= j < pats.len() - m implies (#[trigger] nodes[l + j]).pattern@ == pats[m + j]
                                && nodes[l + j].parent == if j == 0 { b } else { l + j - 1 } by {
                                assert(self.node(l + j) == nodes[l + j]);
                            }
                            assert forall|j: int, key: Seq<char>| 0 <= j < pats.len() - m implies #[trigger] child_in(nodes, l + j, key) == if j + 1 < pats.len() - m && key
                                == pattern_key(pats[m + 1 + j]) {
                                Some((l + j + 1) as usize)
                            } else {
                                None
                            } by {
                                assert(self.child(l + j, key) == child_in(nodes, l + j, key));
                            }
                        }
                    }
                    return node;
                },
                Some(seg) => {
                    let pat = Pattern::from_str(seg.as_str());
                    proof {
                        assert(pat@ == pats[i]);
                        assert(pats.take(i + 1).drop_last() =~= pats.take(i));
                        assert(pats.take(i + 1).last() == pats[i]);
                    }
                    let ghost before = *self;
                    let ghost pv = pat@;
                    proof {
                        if i > m {
                            let j = i - m - 1;
                            assert(self.child(l + j, pattern_key(pv)) is None);
                        } else if i < m {
                            old(self).lemma_follow_prefix(pats.take(m), i + 1);
                            assert(pats.take(m).take(i + 1) =~= pats.take(i + 1));
                        } else {
                            assert(pats.take(m + 1).drop_last() =~= pats.take(m));
                        }
                    }
                    match self.get_child(node, &pat) {
                        Some(n) => {
                            proof {
                                lemma_lookup_in(self.nodes@[node as int].children@, pattern_key(pv));
                                assert(self.nodes@[node as int].node_wf(node as int, self.len() as int));
                                assert(i < m);
                            }
                            node = n;
                        },
                        None => {
                            node = self.add_child(node, pat);
                            proof {
                                assert(i >= m);
                                if i == m {
                                    assert(before == *old(self));
                                    assert forall|j: int|
                                        0 <= j < i + 1 - m implies (#[trigger] self.node(l + j)).pattern@ == pats[m + j]
                                            && self.node(l + j).parent == if j == 0 { b } else { l + j - 1 } by {
                                        assert(j == 0);
                                    }
                                    assert forall|j: int, key: Seq<char>|
                                        0 <= j < i + 1 - m implies #[trigger] self.child(l + j, key) == if j + 1 < i + 1 - m && key
                                            == pattern_key(pats[m + 1 + j]) {
                                            Some((l + j + 1) as usize)
                                        } else {
                                            None
                                        } by {
                                        assert(j == 0);
                                    }
                                } else {
                                    let bn = (l + i - m - 1) as usize;
                                    assert forall|s: int| 0 <= s < l && s != b implies #[trigger] self.node(s) == old(self).node(s) by {
                                        assert(self.node(s) == before.node(s));
                                    }
                                    assert(self.node(b) == before.node(b));
                                    assert forall|key: Seq<char>| true implies #[trigger] self.child(b, key) == before.child(b, key) by {}
                                    assert forall|j: int|
                                        0 <= j < i + 1 - m implies (#[trigger] self.node(l + j)).pattern@ == pats[m + j]
                                            && self.node(l + j).parent == if j == 0 { b } else { l + j - 1 } by {
                                        if j < i - m - 1 {
                                            assert(self.node(l + j) == before.node(l + j));
                                        } else if j == i - m - 1 {
                                            assert(self.node(l + j).pattern@ == before.node(l + j).pattern@);
                                        }
                                    }
                                    assert forall|j: int, key: Seq<char>|
                                        0 <= j < i + 1 - m implies #[trigger] self.child(l + j, key) == if j + 1 < i + 1 - m && key
                                            == pattern_key(pats[m + 1 + j]) {
                                            Some((l + j + 1) as usize)
                                        } else {
                                            None
                                        } by {
                                        if j < i - m - 1 {
                                            assert(self.node(l + j) == before.node(l + j));
                                            assert(self.child(l + j, key) == before.child(l + j, key));
                                        } else if j == i - m - 1 {
                                            assert(m + 1 + j == i);
                                            if key != pattern_key(pv) {
                                                assert(before.child(l + j, key) is None);
                                            }
                                        }
                                    }
                                }
                                old(self).lemma_extends_trans(&before, &*self);
                                before.lemma_extends_follow(&*self, pats.take(i));
                                if old(self).follow(pats.take(i + 1)) is Some {
                                    assert(before == *old(self));
                                }
                            }
                        },
                    }
                },
            }
        }
    }

    /// The data slot of node `n`.
    fn data_mut(&mut self, n: usize) -> (r: &mut Option<T>)
        requires
            n < old(self).len(),
            old(self).wf(),
        ensures
            *r == old(self).data@[n as int],
            final(self).nodes == old(self).nodes,
            final(self).data@ == old(self).data@.update(n as int, *final(r)),
    {
        &mut self.data[n]
    }

    /// The data slot of the node that the template `path` ends in, adding
    /// fresh nodes for segments that have none yet.
    pub fn at(&mut self, path: &str) -> (r: &mut Option<T>)
        requires
            old(self).wf(),
        ensures
            final(self).wf(),
            old(self).extends(final(self)),
            final(self).len() >= old(self).len(),
            final(self).follow(tree_patterns(path@)) is Some,
            ({
                let n = final(self).follow(tree_patterns(path@))->0 as int;
                &&& final(self).data_at(n) == *final(r)
                &&& (n < old(self).len() ==> *r == old(self).data_at(n))
                &&& (n >= old(self).len() ==> *r is None)
                &&& forall|s: int|
                    0 <= s < old(self).len() && s != n ==> #[trigger] final(self).data_at(s)
                        == old(self).data_at(s)
                &&& forall|s: int|
                    old(self).len() <= s < final(self).len() && s != n ==> #[trigger] final(self).data_at(s) is None
                &&& final(self).grown(old(self), tree_patterns(path@), n as usize)
            }),
            old(self).follow(tree_patterns(path@)) is Some ==> final(self).len() == old(self).len()
                && final(self).follow(tree_patterns(path@)) == old(self).follow(tree_patterns(path@))
                && old(self).follow(tree_patterns(path@))->0 < old(self).len(),
    {
        let node = self.locate_node(path);
        proof {
            if old(self).follow(tree_patterns(path@)) is Some {
                old(self).lemma_extends_follow(&*self, tree_patterns(path@));
            }
        }
        self.data_mut(node)
    }

    /// Binds `data` to the template `path`, in place of what was bound
    /// before.
    pub fn insert(&mut self, path: &str, data: T)
        requires
            old(self).wf(),
        ensures
            final(self).wf(),
            old(self).extends(final(self)),
            final(self).follow(tree_patterns(path@)) is Some,
            final(self).data_at(final(self).follow(tree_patterns(path@))->0 as int) == Some(data),
            forall|s: int|
                0 <= s < old(self).len() && s != final(self).follow(tree_patterns(path@))->0 ==> #[trigger] final(self).data_at(s)
                    == old(self).data_at(s),
            forall|s: int|
                old(self).len() <= s < final(self).len() && s != final(self).follow(tree_patterns(path@))->0 ==> #[trigger] final(self).data_at(s) is None,
            final(self).grown(old(self), tree_patterns(path@), final(self).follow(tree_patterns(path@))->0),
            old(self).follow(tree_patterns(path@)) is Some ==> final(self).len() == old(self).len(),
    {
        let got = self.at(path);
        *got = Some(data);
    }

    /// The child that segment `pat` descends to from `node`.
    fn search_child(&self, node: usize, pat: &String) -> (r: Option<usize>)
        requires
            self.wf(),
            node < self.len(),
        ensures
            r == self.search_child_spec(node as int, pat@),
            r matches Some(c) ==> node < c < self.len(),
    {
        let n = self.get(node);
        proof {
            assert(n.node_wf(node as int, self.len() as int));
        }
        let direct = self.get_child(node, &Pattern::Static(pat.clone()));
        let r = match direct {
            Some(c) => Some(c),
            None => {
                if n.has_param_child {
                    let p = Pattern::Param(String::new());
                    proof { assert(pattern_key(p@) == param_key()); }
                    self.get_child(node, &p)
                } else if n.has_wildcard_child {
                    let p = Pattern::Wildcard(String::new());
                    proof { assert(pattern_key(p@) == wildcard_key()); }
                    self.get_child(node, &p)
                } else {
                    None
                }
            },
        };
        proof {
            if r is Some {
                let key = if direct is Some { pat@ } else if n.has_param_child { param_key() } else { wildcard_key() };
                lemma_lookup_in(n.children@, key);
            }
        }
        r
    }

    /// The wildcard child of the closest strict ancestor of `node` that has one.
    fn search_cloest_wildcard_node(&self, node: usize) -> (r: Option<usize>)
        requires
            self.wf(),
            node < self.len(),
        ensures
            r == self.closest_wildcard(node as int),
            r matches Some(w) ==> w < self.len(),
    {
        let mut index = node;
        loop
            invariant
                self.wf(),
                index < self.len(),
                self.closest_wildcard(node as int) == self.closest_wildcard(index as int),
            decreases index,
        {
            let n = self.get(index);
            proof {
                assert(n.node_wf(index as int, self.len() as int));
            }
            if n.index == 0 {
                return None;
            }
            let p = self.get(n.parent);
            proof {
                assert(p.node_wf(n.parent as int, self.len() as int));
            }
            if p.has_wildcard_child {
                let w = Pattern::Wildcard(String::new());
                proof { assert(pattern_key(w@) == wildcard_key()); }
                let r = self.get_child(n.parent, &w);
                proof {
                    if r is Some {
                        lemma_lookup_in(p.children@, wildcard_key());
                    }
                }
                return r;
            } else {
                index = n.parent;
            }
        }
    }

    fn settle_node(&self, node: usize) -> (r: Option<usize>)
        requires
            self.wf(),
            node < self.len(),
        ensures
            r == self.settle(node as int),
            r matches Some(n) ==> n < self.len(),
    {
        let mut node = node;
        if self.data[node].is_none() {
            if let Some(n) = self.search_cloest_wildcard_node(node) {
                node = n;
            }
        }
        if self.data[node].is_some() {
            Some(node)
        } else {
            None
        }
    }

    /// Descends greedily from the root along `path`: at each segment the
    /// literal child, else the parameter child, else the wildcard child,
    /// which takes the rest; where no child fits, the closest wildcard above.
    fn search_node(&self, path: &str) -> (r: Option<usize>)
        requires
            self.wf(),
        ensures
            r == self.found(path@),
            r matches Some(n) ==> n < self.len(),
    {
        let ghost segs = tree_segments(path@);
        let mut node: usize = 0;
        let mut it = Segments::new(path);
        loop
            invariant
                self.wf(),
                it.wf(),
                it.path() == path@,
                segs == tree_segments(path@),
                it.pos() <= segs.len(),
                node < self.len(),
                self.found(path@) == self.descend(node as int, segs, it.pos() as int),
            decreases segs.len() - it.pos(),
        {
            let ghost i = it.pos() as int;
            match it.next() {
                None => {
                    return self.settle_node(node);
                },
                Some(seg) => {
                    match self.search_child(node, &seg) {
                        Some(n) => {
                            if self.get(n).pattern.kind() == Kind::Wildcard {
                                return Some(n);
                            }
                            node = n;
                        },
                        None => {
                            match self.search_cloest_wildcard_node(node) {
                                Some(n) => {
                                    return self.settle_node(n);
                                },
                                None => {
                                    return None;
                                },
                            }
                        },
                    }
                },
            }
        }
    }

    /// The nodes from below the root down to `node`.
    fn collect_chain(&self, node: usize) -> (r: Vec<usize>)
        requires
            self.wf(),
            node < self.len(),
        ensures
            r@ == self.chain(node as int),
        decreases node,
    {
        let n = self.get(node);
        proof {
            assert(n.node_wf(node as int, self.len() as int));
        }
        if n.index == 0 {
            Vec::new()
        } else {
            let mut v = self.collect_chain(n.parent);
            v.push(node);
            v
        }
    }

    /// Whether node `node` captures under a name.
    fn is_named(&self, node: usize) -> (r: bool)
        requires
            node < self.len(),
        ensures
            r == (self.nodes@[node as int].pattern@.0 != Kind::Static
                && self.nodes@[node as int].pattern@.1.len() > 0),
    {
        match &self.get(node).pattern {
            Pattern::Param(p) => !p.as_str().is_empty(),
            Pattern::Wildcard(p) => !p.as_str().is_empty(),
            Pattern::Static(_) => false,
        }
    }

    /// The nodes from below the root down to `node`, or none when none of
    /// them captures under a name.
    fn get_route_path(&self, node: usize) -> (r: Vec<usize>)
        requires
            self.wf(),
            node < self.len(),
        ensures
            self.chain_named(node as int) ==> r@ == self.chain(node as int),
            !self.chain_named(node as int) ==> r@.len() == 0,
    {
        let path = self.collect_chain(node);
        proof {
            self.lemma_chain_bound(node as int);
        }
        let mut k: usize = 0;
        while k < path.len()
            invariant
                self.wf(),
                path@ == self.chain(node as int),
                forall|j: int| 0 <= j < path@.len() ==> #[trigger] path@[j] < self.len(),
                k <= path@.len(),
                forall|j: int|
                    0 <= j < k ==> !(self.nodes@[#[trigger] path@[j] as int].pattern@.0 != Kind::Static
                        && self.nodes@[path@[j] as int].pattern@.1.len() > 0),
            decreases path@.len() - k,
        {
            if self.is_named(path[k]) {
                proof {
                    assert(self.chain_named(node as int)) by {
                        assert(path@[k as int] == self.chain(node as int)[k as int]);
                    }
                }
                return path;
            }
            k = k + 1;
        }
        Vec::new()
    }

    proof fn lemma_chain_bound(&self, s: int)
        requires
            self.wf(),
        ensures
            forall|j: int| 0 <= j < self.chain(s).len() ==> #[trigger] self.chain(s)[j] < self.len(),
        decreases s,
    {
        if !(s <= 0 || s >= self.nodes@.len() || self.nodes@[s].parent >= s) {
            let p = self.nodes@[s].parent as int;
            self.lemma_chain_bound(p);
            assert(self.chain(s) == self.chain(p).push(s as usize));
            assert forall|j: int| 0 <= j < self.chain(s).len() implies #[trigger] self.chain(s)[j] < self.len() by {
                if j < self.chain(p).len() {
                    assert(self.chain(s)[j] == self.chain(p)[j]);
                }
            }
        }
    }

    /// The named captures of `path` along the nodes down to `node`.
    fn capture_params(&self, path: &str, node: usize) -> (r: Vec<(String, String)>)
        requires
            self.wf(),
            node < self.len(),
        ensures
            r@.map_values(|p: (String, String)| (p.0@, p.1@)) == self.captured_params(path@, node as int),
    {
        let mut params: Vec<(String, String)> = Vec::new();
        let mut segs = Segments::new(path);
        let route = self.get_route_path(node);
        let ghost caps = self.chain_caps(path@, node as int);
        let ghost ch = self.chain(node as int);
        proof {
            self.lemma_chain_bound(node as int);
            if !self.chain_named(node as int) {
                assert forall|j: int| 0 <= j < caps.len() implies (#[trigger] caps[j]).0 == Kind::Static || caps[j].1.len() == 0 by {
                    assert(!(self.nodes@[ch[j] as int].pattern@.0 != Kind::Static && self.nodes@[ch[j] as int].pattern@.1.len() > 0));
                }
                lemma_named_pairs_none(caps);
            }
        }
        let mut k: usize = 0;
        assert(caps.take(0) =~= seq![]);
        while k < route.len()
            invariant
                self.wf(),
                segs.wf(),
                segs.path() == path@,
                caps == self.chain_caps(path@, node as int),
                ch == self.chain(node as int),
                route@ == ch || route@.len() == 0,
                forall|j: int| 0 <= j < ch.len() ==> #[trigger] ch[j] < self.len(),
                k <= route@.len(),
                segs.pos() == if k < caps.len() { k as nat } else { caps.len() },
                params@.map_values(|p: (String, String)| (p.0@, p.1@)) == named_pairs(
                    caps.take(if k < caps.len() { k as int } else { caps.len() as int }),
                ),
            decreases route@.len() - k,
        {
            let index = route[k];
            let ghost before = params@;
            if let Some(seg) = segs.next() {
                proof {
                    assert(k < caps.len());
                    assert(caps.take(k + 1).drop_last() =~= caps.take(k as int));
                    assert(caps.take(k + 1).last() == caps[k as int]);
                }
                match &self.get(index).pattern {
                    Pattern::Param(p) => {
                        if !p.as_str().is_empty() {
                            params.push((p.clone(), seg));
                        }
                    },
                    Pattern::Wildcard(p) => {
                        if !p.as_str().is_empty() {
                            params.push((p.clone(), segs.reminder()));
                        }
                    },
                    Pattern::Static(_) => {},
                }
                proof {
                    assert(params@.map_values(|p: (String, String)| (p.0@, p.1@)) =~= named_pairs(
                        caps.take(k + 1),
                    ));
                }
            }
            k = k + 1;
        }
        proof {
            if route@ == ch {
                assert(caps.take(caps.len() as int) =~= caps);
            } else {
                assert(caps.take(0) =~= seq![]);
            }
        }
        params
    }

    /// The data bound to the template that `path` routes to, with the named
    /// captures in path order.
    pub fn search(&self, path: &str) -> (r: Option<(&T, Vec<(String, String)>)>)
        requires
            self.wf(),
        ensures
            match r {
                Some((d, p)) => self.found(path@) is Some && self.data_at(self.found(path@)->0 as int)
                    == Some(*d) && p@.map_values(|q: (String, String)| (q.0@, q.1@))
                    == self.captured_params(path@, self.found(path@)->0 as int),
                None => self.found(path@) is None || self.data_at(self.found(path@)->0 as int) is None,
            },
    {
        match self.search_node(path) {
            Some(node) => {
                let params = self.capture_params(path, node);
                match self.data[node].as_ref() {
                    Some(data) => Some((data, params)),
                    None => None,
                }
            },
            None => None,
        }
    }

    /// Appends a fresh node for `pat` as the child of `parent` under its key,
    /// in place of any child under that key before.
    fn fresh_child(&mut self, parent: usize, pat: Pattern) -> (r: usize)
        requires
            old(self).wf(),
            parent < old(self).len(),
            compiled(pat@),
        ensures
            final(self).wf(),
            r == old(self).len(),
            final(self).len() == old(self).len() + 1,
            final(self).data@ == old(self).data@.push(None),
            final(self).child(parent as int, pattern_key(pat@)) == Some(r),
            forall|key: Seq<char>|
                key != pattern_key(pat@) ==> #[trigger] final(self).child(parent as int, key)
                    == old(self).child(parent as int, key),
            forall|s: int|
                0 <= s < old(self).len() && s != parent ==> #[trigger] final(self).nodes@[s]
                    == old(self).nodes@[s],
            final(self).nodes@[parent as int].pattern@ == old(self).nodes@[parent as int].pattern@,
            final(self).nodes@[parent as int].parent == old(self).nodes@[parent as int].parent,
            final(self).nodes@[r as int].pattern@ == pat@,
            forall|key: Seq<char>| #[trigger] final(self).child(r as int, key) is None,
    {
        let ghost s0 = *self;
        let ghost pv = pat@;
        let key = pat.as_pat();
        let kind = pat.kind();
        let child = self.next_node(parent, pat);
        let ghost s1 = *self;
        let n = self.get_mut(parent);
        let ghost a = n.children@;
        let x = (key, child);
        let pos = position_of(&n.children, &x.0);
        let found = pos.is_some();
        let i: usize = match pos {
            Some(j) => j,
            None => 0,
        };
        proof {
            lemma_lookup_in(a, key@);
            lemma_key_kind(pv);
            assert(s1.nodes@[parent as int] == s0.nodes@[parent as int]);
            assert(s0.nodes@[parent as int].node_wf(parent as int, s0.len() as int));
        }
        if found {
            proof {
                if lookup(a, key@) != Some(a[i as int].1) {
                    let j = choose|j: int| 0 <= j < a.len() && (#[trigger] a[j]).0@ == key@ && a[j].1
                        == lookup(a, key@)->0;
                    assert(a[i as int].0@ == a[j].0@);
                }
                assert forall|k2: Seq<char>| true implies #[trigger] lookup(a.update(i as int, x), k2) == if k2 == x.0@ {
                    Some(x.1)
                } else {
                    lookup(a, k2)
                } by {
                    lemma_lookup_update(a, i as int, x, k2);
                }
            }
            n.children.set(i, x);
        } else {
            proof {
                assert forall|k2: Seq<char>| true implies #[trigger] lookup(a.push(x), k2) == if k2 == x.0@ {
                    Some(x.1)
                } else {
                    lookup(a, k2)
                } by {
                    lemma_lookup_push(a, x, k2);
                }
            }
            n.children.push(x);
        }
        if kind == Kind::Param {
            n.has_param_child = true;
        }
        if kind == Kind::Wildcard {
            n.has_wildcard_child = true;
        }
        proof {
            let b = self.nodes@[parent as int];
            assert(forall|k2: Seq<char>| #[trigger] lookup(b.children@, k2) == if k2 == key@ {
                Some(child)
            } else {
                lookup(a, k2)
            });
            assert(lookup(b.children@, param_key()) == if pv.0 == Kind::Param { Some(child) } else { lookup(a, param_key()) });
            assert(lookup(b.children@, wildcard_key()) == if pv.0 == Kind::Wildcard { Some(child) } else { lookup(a, wildcard_key()) });
            assert(b.node_wf(parent as int, self.len() as int)) by {
                assert forall|i2: int, j2: int|
                    0 <= i2 < j2 < b.children@.len() implies (#[trigger] b.children@[i2]).0@
                        != (#[trigger] b.children@[j2]).0@ by {
                    if found {
                        if i2 != i && j2 != i {
                            assert(a[i2].0@ != a[j2].0@);
                        } else if i2 == i {
                            assert(a[i2].0@ != a[j2].0@);
                        } else {
                            assert(a[i2].0@ != a[j2].0@);
                        }
                    } else if j2 < a.len() {
                        assert(a[i2].0@ != a[j2].0@);
                    } else {
                        assert(b.children@[i2] == a[i2]);
                    }
                }
                assert forall|i2: int| 0 <= i2 < b.children@.len() implies parent < (
                #[trigger] b.children@[i2]).1 < self.len() by {
                    if b.children@[i2].1 != child {
                        assert(b.children@[i2] == a[i2]);
                    }
                }
            }
            assert forall|s: int| 0 <= s < self.nodes@.len() implies (
            #[trigger] self.nodes@[s]).node_wf(s, self.nodes@.len() as int) by {
                if s != parent {
                    assert(self.nodes@[s] == s1.nodes@[s]);
                    if s < s0.len() {
                        assert(s0.nodes@[s].node_wf(s, s0.len() as int));
                    }
                }
            }
            assert forall|s: int, i2: int|
                0 <= s < self.nodes@.len() && 0 <= i2 < self.nodes@[s].children@.len() implies {
                    let c = (#[trigger] self.nodes@[s].children@[i2]).1 as int;
                    &&& self.nodes@[c].parent == s
                    &&& self.nodes@[s].children@[i2].0@ == pattern_key(self.nodes@[c].pattern@)
                } by {
                if s == parent {
                    if self.nodes@[s].children@[i2].1 != child {
                        assert(b.children@[i2] == a[i2]);
                        assert(s0.nodes@[s].children@[i2] == a[i2]);
                        let c = a[i2].1 as int;
                        assert(self.nodes@[c] == s1.nodes@[c]);
                    }
                } else {
                    assert(self.nodes@[s] == s1.nodes@[s]);
                    if s < s0.len() {
                        assert(s0.nodes@[s].children@[i2] == self.nodes@[s].children@[i2]);
                        let c = self.nodes@[s].children@[i2].1 as int;
                        assert(s0.nodes@[s].node_wf(s, s0.len() as int));
                        if c != parent {
                            assert(self.nodes@[c] == s1.nodes@[c]);
                        }
                    }
                }
            }
        }
        child
    }

    /// Copies the children of `other`'s node `right`, and all below them,
    /// as fresh nodes under `left`, moving their data over. Gives each fresh
    /// node with the node of `other` it copies.
    #[verifier::rlimit(100)]
    fn graft(&mut self, left: usize, other: &mut Tree<T>, right: usize) -> (r: Vec<(usize, usize)>)
        requires
            old(self).wf(),
            old(other).wf(),
            left < old(self).len(),
            right < old(other).len(),
        ensures
            final(self).wf(),
            final(other).wf(),
            final(other).nodes == old(other).nodes,
            final(self).len() >= old(self).len(),
            forall|s: int|
                0 <= s < old(self).len() ==> #[trigger] final(self).data@[s] == old(self).data@[s],
            forall|s: int|
                0 <= s < old(self).len() && s != left ==> #[trigger] final(self).nodes@[s]
                    == old(self).nodes@[s],
            final(self).nodes@[left as int].pattern@ == old(self).nodes@[left as int].pattern@,
            final(self).nodes@[left as int].parent == old(self).nodes@[left as int].parent,
            forall|j: int|
                0 <= j < r@.len() ==> old(self).len() <= (#[trigger] r@[j]).0 < final(self).len()
                    && r@[j].1 < old(other).len(),
            forall|s: int|
                old(self).len() <= s < final(self).len() && (#[trigger] final(self).data@[s]) is Some
                    ==> exists|o: int| 0 <= o < old(other).len() && old(other).data@[o] == final(self).data@[s],
            forall|o: int|
                0 <= o < old(other).len() ==> #[trigger] final(other).data@[o] is None
                    || final(other).data@[o] == old(other).data@[o],
            final(self).copies(old(other).nodes@, r@, left, right),
            forall|key: Seq<char>|
                #[trigger] old(other).child(right as int, key) is None ==> final(self).child(left as int, key)
                    == old(self).child(left as int, key),
            forall|j: int|
                0 <= j < r@.len() ==> final(self).copy_of(old(other).nodes@, r@, (#[trigger] r@[j]).0, r@[j].1),
            r@.len() == final(self).len() - old(self).len(),
            forall|j: int| 0 <= j < r@.len() ==> (#[trigger] r@[j]).0 == old(self).len() + j,
            forall|j: int|
                0 <= j < r@.len() && donor_once(r@, j) ==> final(self).data@[(#[trigger] r@[j]).0 as int]
                    == old(other).data@[r@[j].1 as int],
            forall|o: int|
                0 <= o < old(other).len() && (forall|j: int| 0 <= j < r@.len() ==> (#[trigger] r@[j]).1 != o)
                    ==> #[trigger] final(other).data@[o] == old(other).data@[o],
        decreases old(other).len() - right,
    {
        let mut returned: Vec<(usize, usize)> = Vec::new();
        let ghost orig = *other;
        proof {
            assert(other.nodes@[right as int].node_wf(right as int, other.len() as int));
        }
        let nkids = other.get(right).children.len();
        let ghost kids = orig.nodes@[right as int].children@;
        let ghost mut made: Seq<usize> = seq![];
        let mut i: usize = 0;
        while i < nkids
            invariant
                kids == orig.nodes@[right as int].children@,
                made.len() == i,
                forall|j: int|
                    0 <= j < i ==> self.child(left as int, (#[trigger] kids[j]).0@) == Some(made[j])
                        && paired(returned@, made[j], kids[j].1),
                forall|key: Seq<char>|
                    (forall|j: int| 0 <= j < i ==> (#[trigger] kids[j]).0@ != key) ==> #[trigger] self.child(
                        left as int,
                        key,
                    ) == old(self).child(left as int, key),
                forall|j: int|
                    0 <= j < returned@.len() ==> self.copy_of(orig.nodes@, returned@, (#[trigger] returned@[j]).0, returned@[j].1),
                returned@.len() == self.len() - old(self).len(),
                forall|j: int| 0 <= j < returned@.len() ==> (#[trigger] returned@[j]).0 == old(self).len() + j,
                forall|j: int|
                    0 <= j < returned@.len() && donor_once(returned@, j) ==> self.data@[(#[trigger] returned@[j]).0 as int]
                        == orig.data@[returned@[j].1 as int],
                forall|o: int|
                    0 <= o < orig.len() && (forall|j: int| 0 <= j < returned@.len() ==> (#[trigger] returned@[j]).1 != o)
                        ==> #[trigger] other.data@[o] == orig.data@[o],
                self.wf(),
                other.wf(),
                orig.wf(),
                old(self).wf(),
                *old(other) == orig,
                other.nodes == orig.nodes,
                right < orig.len(),
                left < old(self).len(),
                nkids == orig.nodes@[right as int].children@.len(),
                orig.nodes@[right as int].node_wf(right as int, orig.len() as int),
                i <= nkids,
                self.len() >= old(self).len(),
                forall|s: int|
                    0 <= s < old(self).len() ==> #[trigger] self.data@[s] == old(self).data@[s],
                forall|s: int|
                    0 <= s < old(self).len() && s != left ==> #[trigger] self.nodes@[s]
                        == old(self).nodes@[s],
                self.nodes@[left as int].pattern@ == old(self).nodes@[left as int].pattern@,
                self.nodes@[left as int].parent == old(self).nodes@[left as int].parent,
                forall|j: int|
                    0 <= j < returned@.len() ==> old(self).len() <= (#[trigger] returned@[j]).0 < self.len()
                        && returned@[j].1 < orig.len(),
                forall|s: int|
                    old(self).len() <= s < self.len() && (#[trigger] self.data@[s]) is Some
                        ==> exists|o: int| 0 <= o < orig.len() && orig.data@[o] == self.data@[s],
                forall|o: int|
                    0 <= o < orig.len() ==> #[trigger] other.data@[o] is None
                        || other.data@[o] == orig.data@[o],
            decreases nkids - i,
        {
            let oc = other.get(right).children[i].1;
            proof {
                assert(other.nodes@[oc as int].node_wf(oc as int, other.len() as int));
            }
            let pat = other.get(oc).pattern.copy();
            let ghost s0 = *self;
            let ghost prev = returned@;
            let ghost key_i = kids[i as int].0@;
            proof {
                assert(kids[i as int].0@ == pattern_key(orig.nodes@[oc as int].pattern@));
            }
            let ghost pv = pat@;
            let new_node = self.fresh_child(left, pat);
            let ghost s1 = *self;
            proof {
                assert(pattern_key(pv) == key_i);
            }
            let slot = &mut other.data[oc];
            let d = slot.take();
            proof {
                assert(d is Some ==> d == orig.data@[oc as int]);
            }
            self.data.set(new_node, d);
            proof {
                assert forall|s: int|
                    old(self).len() <= s < self.len() && (#[trigger] self.data@[s]) is Some
                        implies exists|o: int| 0 <= o < orig.len() && orig.data@[o] == self.data@[s] by {
                    if s == new_node {
                        assert(orig.data@[oc as int] == self.data@[s]);
                    } else {
                        assert(self.data@[s] == s0.data@[s]);
                    }
                }
                assert forall|o: int|
                    0 <= o < orig.len() implies #[trigger] other.data@[o] is None
                        || other.data@[o] == orig.data@[o] by {
                    if o != oc {
                    }
                }
            }
            returned.push((new_node, oc));
            let ghost s2 = *self;
            let ghost o2 = *other;
            let below = self.graft(new_node, other, oc);
            proof {
                assert forall|s: int|
                    old(self).len() <= s < self.len() && (#[trigger] self.data@[s]) is Some
                        implies exists|o: int| 0 <= o < orig.len() && orig.data@[o] == self.data@[s] by {
                    if s < s2.len() {
                        assert(self.data@[s] == s2.data@[s]);
                    } else {
                        let o = choose|o: int| 0 <= o < o2.len() && o2.data@[o] == self.data@[s];
                        assert(o2.data@[o] is None || o2.data@[o] == orig.data@[o]);
                    }
                }
                assert forall|o: int|
                    0 <= o < orig.len() implies #[trigger] other.data@[o] is None
                        || other.data@[o] == orig.data@[o] by {
                    assert(other.data@[o] is None || other.data@[o] == o2.data@[o]);
                    assert(o2.data@[o] is None || o2.data@[o] == orig.data@[o]);
                }
                assert forall|j: int|
                    0 <= j < returned@.len() implies old(self).len() <= (#[trigger] returned@[j]).0 < self.len()
                        && returned@[j].1 < orig.len() by {}
            }
            let mut k: usize = 0;
            let ghost r0 = returned@;
            while k < below.len()
                invariant
                    k <= below@.len(),
                    returned@.len() == r0.len() + k,
                    forall|j: int| 0 <= j < r0.len() ==> #[trigger] returned@[j] == r0[j],
                    forall|j: int|
                        r0.len() <= j < returned@.len() ==> #[trigger] returned@[j] == below@[j - r0.len()],
                decreases below@.len() - k,
            {
                returned.push(below[k]);
                k = k + 1;
            }
            proof {
                let fin = returned@;
                assert forall|j: int| 0 <= j < fin.len() implies (#[trigger] fin[j]).0 == old(self).len() + j by {
                    if j < r0.len() {
                        assert(fin[j] == r0[j]);
                    } else {
                        assert(fin[j] == below@[j - r0.len()]);
                    }
                }
                assert forall|j: int|
                    0 <= j < fin.len() && donor_once(fin, j) implies self.data@[(#[trigger] fin[j]).0 as int]
                        == orig.data@[fin[j].1 as int] by {
                    if j < prev.len() {
                        assert(fin[j] == prev[j]);
                        assert(donor_once(prev, j)) by {
                            assert forall|i: int| 0 <= i < prev.len() && i != j implies (#[trigger] prev[i]).1 != prev[j].1 by {
                                assert(fin[i] == prev[i]);
                            }
                        }
                        assert(self.data@[prev[j].0 as int] == s2.data@[prev[j].0 as int]);
                    } else if j == prev.len() {
                        assert(fin[j] == (new_node, oc));
                        assert forall|i: int| 0 <= i < prev.len() implies (#[trigger] prev[i]).1 != oc by {
                            assert(fin[i] == prev[i]);
                            assert(fin[i].1 != fin[j].1);
                        }
                        assert(self.data@[new_node as int] == s2.data@[new_node as int]);
                    } else {
                        let jb = j - r0.len();
                        assert(fin[j] == below@[jb]);
                        assert(donor_once(below@, jb)) by {
                            assert forall|i: int| 0 <= i < below@.len() && i != jb implies (#[trigger] below@[i]).1 != below@[jb].1 by {
                                assert(fin[r0.len() + i] == below@[i]);
                            }
                        }
                        let o = below@[jb].1;
                        assert forall|i: int| 0 <= i < r0.len() implies (#[trigger] r0[i]).1 != o by {
                            assert(fin[i] == r0[i]);
                        }
                        assert(forall|i: int| 0 <= i < prev.len() ==> (#[trigger] prev[i]).1 != o) by {
                            assert forall|i: int| 0 <= i < prev.len() implies (#[trigger] prev[i]).1 != o by {
                                assert(r0[i] == prev[i]);
                            }
                        }
                        assert(o != oc) by {
                            assert(r0[prev.len() as int] == (new_node, oc));
                        }
                        assert(o2.data@[o as int] == orig.data@[o as int]);
                    }
                }
                assert forall|o: int|
                    0 <= o < orig.len() && (forall|j: int| 0 <= j < fin.len() ==> (#[trigger] fin[j]).1 != o)
                        implies #[trigger] other.data@[o] == orig.data@[o] by {
                    assert forall|j: int| 0 <= j < below@.len() implies (#[trigger] below@[j]).1 != o by {
                        assert(fin[r0.len() + j] == below@[j]);
                    }
                    assert forall|i: int| 0 <= i < prev.len() implies (#[trigger] prev[i]).1 != o by {
                        assert(fin[i] == r0[i]);
                    }
                    assert(fin[prev.len() as int] == r0[prev.len() as int]);
                }
                assert forall|j: int|
                    0 <= j < fin.len() implies old(self).len() <= (#[trigger] fin[j]).0 < self.len()
                        && fin[j].1 < orig.len() by {
                    if j < r0.len() {
                        assert(fin[j] == r0[j]);
                    } else {
                        assert(fin[j] == below@[j - r0.len()]);
                    }
                }
                assert(pairs_within(prev, fin)) by {
                    assert forall|j: int| 0 <= j < prev.len() implies paired(fin, prev[j].0, prev[j].1) by {
                        assert(fin[j] == r0[j]);
                    }
                }
                assert(pairs_within(below@, fin)) by {
                    assert forall|j: int| 0 <= j < below@.len() implies paired(fin, below@[j].0, below@[j].1) by {
                        assert(fin[r0.len() + j] == below@[j]);
                    }
                }
                assert(paired(fin, new_node, oc)) by {
                    assert(fin[prev.len() as int] == r0[prev.len() as int]);
                }
                assert(self.copy_of(orig.nodes@, fin, new_node, oc)) by {
                    self.lemma_copies_widen(orig.nodes@, below@, fin, new_node, oc);
                    assert forall|key: Seq<char>|
                        #[trigger] self.child(new_node as int, key) is Some implies orig.child(oc as int, key) is Some by {
                        if orig.child(oc as int, key) is None {
                            assert(o2.child(oc as int, key) is None);
                            assert(s2.nodes@[new_node as int] == s1.nodes@[new_node as int]);
                            assert(s1.child(new_node as int, key) is None);
                        }
                    }
                    assert forall|key: Seq<char>|
                        #[trigger] orig.child(oc as int, key) is Some implies self.child(new_node as int, key) is Some && paired(
                            fin,
                            self.child(new_node as int, key)->0,
                            orig.child(oc as int, key)->0,
                        ) by {
                        assert(o2.child(oc as int, key) == orig.child(oc as int, key));
                    }
                }
                assert forall|j: int|
                    0 <= j < fin.len() implies self.copy_of(orig.nodes@, fin, (#[trigger] fin[j]).0, fin[j].1) by {
                    if j < prev.len() {
                        assert(fin[j] == prev[j]);
                        let n = prev[j].0;
                        assert(s0.copy_of(orig.nodes@, prev, n, prev[j].1));
                        assert(self.nodes@[n as int] == s0.nodes@[n as int]) by {
                            assert(s1.nodes@[n as int] == s0.nodes@[n as int]);
                            assert(s2.nodes@[n as int] == self.nodes@[n as int]);
                        }
                        s0.lemma_copy_of_moved(&*self, orig.nodes@, prev, fin, n, prev[j].1);
                    } else if j == prev.len() {
                        assert(fin[j] == (new_node, oc));
                    } else {
                        assert(fin[j] == below@[j - r0.len()]);
                        let n = fin[j].0;
                        let o = fin[j].1;
                        self.lemma_copy_of_moved(&*self, orig.nodes@, below@, fin, n, o);
                    }
                }
                assert(self.nodes@[left as int] == s2.nodes@[left as int]);
                assert(s2.nodes == s1.nodes);
                assert(self.child(left as int, key_i) == Some(new_node));
                assert forall|j: int|
                    0 <= j < i + 1 implies self.child(left as int, (#[trigger] kids[j]).0@) == Some(made.push(new_node)[j])
                        && paired(fin, made.push(new_node)[j], kids[j].1) by {
                    if j < i {
                        assert(orig.nodes@[right as int].node_wf(right as int, orig.len() as int));
                        assert(kids[j].0@ != kids[i as int].0@);
                        assert(s1.child(left as int, kids[j].0@) == s0.child(left as int, kids[j].0@));
                        assert(self.child(left as int, kids[j].0@) == s1.child(left as int, kids[j].0@));
                        assert(paired(prev, made[j], kids[j].1));
                        let w = choose|w: int| 0 <= w < prev.len() && prev[w] == (made[j], kids[j].1);
                        assert(paired(fin, prev[w].0, prev[w].1));
                    }
                }
                assert forall|key: Seq<char>|
                    (forall|j: int| 0 <= j < i + 1 ==> (#[trigger] kids[j]).0@ != key) implies #[trigger] self.child(
                        left as int,
                        key,
                    ) == old(self).child(left as int, key) by {
                    assert(kids[i as int].0@ != key);
                    assert(s1.child(left as int, key) == s0.child(left as int, key));
                    assert(self.child(left as int, key) == s1.child(left as int, key));
                    assert(s0.child(left as int, key) == old(self).child(left as int, key));
                }
                made = made.push(new_node);
            }
            i = i + 1;
        }
        proof {
            assert forall|key: Seq<char>|
                #[trigger] child_in(orig.nodes@, right as int, key) is Some implies self.child(left as int, key) is Some && paired(
                    returned@,
                    self.child(left as int, key)->0,
                    child_in(orig.nodes@, right as int, key)->0,
                ) by {
                lemma_lookup_in(kids, key);
                let j = choose|j: int| 0 <= j < kids.len() && (#[trigger] kids[j]).0@ == key && kids[j].1 == lookup(kids, key)->0;
                assert(self.child(left as int, kids[j].0@) == Some(made[j]));
            }
            assert(self.copies(orig.nodes@, returned@, left, right));
            assert forall|key: Seq<char>|
                #[trigger] orig.child(right as int, key) is None implies self.child(left as int, key) == old(self).child(left as int, key) by {
                lemma_lookup_in(kids, key);
                assert forall|j: int| 0 <= j < i implies (#[trigger] kids[j]).0@ != key by {}
            }
        }
        returned
    }

    /// Following `pats` reads only the nodes before the one it ends in.
    proof fn lemma_follow_stable(&self, later: &Tree<T>, pats: Seq<(Kind, Seq<char>)>, t: usize)
        requires
            self.wf(),
            later.len() >= self.len(),
            self.follow(pats) is Some,
            self.follow(pats)->0 <= t,
            forall|s: int| 0 <= s < self.len() && s < t ==> #[trigger] later.nodes@[s] == self.nodes@[s],
        ensures
            later.follow(pats) == self.follow(pats),
        decreases pats.len(),
    {
        if pats.len() > 0 {
            let y = follow_in(self.nodes@, pats.drop_last())->0;
            self.lemma_extends_follow(self, pats.drop_last());
            lemma_lookup_in(self.nodes@[y as int].children@, pattern_key(pats.last()));
            assert(self.nodes@[y as int].node_wf(y as int, self.len() as int));
            self.lemma_follow_stable(later, pats.drop_last(), t);
            assert(later.nodes@[y as int] == self.nodes@[y as int]);
        }
    }

    /// Mounts the templates of `other` under the template `path`: a copy of
    /// `other`'s nodes below its root is grafted under the node that `path`
    /// ends in, and `other`'s data moves along.
    pub fn merge(&mut self, path: &str, other: Tree<T>)
        requires
            old(self).wf(),
            other.wf(),
        ensures
            final(self).wf(),
            final(self).follow(tree_patterns(path@)) is Some,
            final(self).len() >= old(self).len(),
            forall|s: int|
                0 <= s < old(self).len() ==> #[trigger] final(self).data_at(s) == old(self).data_at(s),
            forall|s: int|
                old(self).len() <= s < final(self).len() && (#[trigger] final(self).data_at(s)) is Some
                    ==> exists|o: int| 0 <= o < other.len() && other.data_at(o) == final(self).data_at(s),
            exists|pairs: Seq<(usize, usize)>|
                {
                    &&& final(self).copies(
                        other.arena(),
                        pairs,
                        final(self).follow(tree_patterns(path@))->0,
                        0,
                    )
                    &&& forall|j: int|
                        0 <= j < pairs.len() ==> final(self).copy_of(
                            other.arena(),
                            pairs,
                            (#[trigger] pairs[j]).0,
                            pairs[j].1,
                        )
                    &&& forall|j: int| 0 <= j < pairs.len() ==> (#[trigger] pairs[j]).0 >= old(self).len()
                    &&& forall|i: int, j: int| 0 <= i < j < pairs.len() ==> (#[trigger] pairs[i]).0 < (#[trigger] pairs[j]).0
                    &&& forall|j: int|
                        0 <= j < pairs.len() && donor_once(pairs, j) ==> final(self).data_at(
                            (#[trigger] pairs[j]).0 as int,
                        ) == other.data_at(pairs[j].1 as int)
                },
            forall|s: int, key: Seq<char>|
                0 <= s < old(self).len() && s != final(self).follow(tree_patterns(path@))->0
                    && old(self).child(s, key) is Some ==> #[trigger] final(self).child(s, key) == old(self).child(s, key),
            forall|key: Seq<char>|
                old(self).follow(tree_patterns(path@)) is Some && old(self).child(final(self).follow(tree_patterns(path@))->0 as int, key) is Some
                    && child_in(other.arena(), 0, key) is None ==> #[trigger] final(self).child(
                    final(self).follow(tree_patterns(path@))->0 as int,
                    key,
                ) == old(self).child(final(self).follow(tree_patterns(path@))->0 as int, key),
    {
        let node = self.locate_node(path);
        let ghost mid = *self;
        let ghost orig = other;
        let mut other = other;
        proof {
            assert(self.extends(self));
            self.lemma_extends_follow(self, tree_patterns(path@));
        }
        let pairs = self.graft(node, &mut other, 0);
        proof {
            assert(self.copies(orig.arena(), pairs@, node, 0));
            mid.lemma_follow_stable(&*self, tree_patterns(path@), node);
            assert forall|s: int, key: Seq<char>|
                0 <= s < old(self).len() && s != node && old(self).child(s, key) is Some
                    implies #[trigger] self.child(s, key) == old(self).child(s, key) by {
                assert(old(self).nodes@[s] == old(self).nodes@[s]);
                assert(lookup(old(self).nodes@[s].children@, key) is Some);
                assert(self.nodes@[s] == mid.nodes@[s]);
            }
            assert forall|key: Seq<char>|
                old(self).follow(tree_patterns(path@)) is Some && old(self).child(node as int, key) is Some
                    && child_in(orig.arena(), 0, key) is None implies #[trigger] self.child(node as int, key) == old(self).child(node as int, key) by {
                assert(*old(self) == mid);
                assert(orig.child(0, key) is None);
                assert(self.child(node as int, key) == mid.child(node as int, key));
            }
            assert forall|j: int|
                0 <= j < pairs@.len() && donor_once(pairs@, j) implies self.data_at((#[trigger] pairs@[j]).0 as int)
                    == orig.data_at(pairs@[j].1 as int) by {}
            assert forall|s: int|
                old(self).len() <= s < self.len() && (#[trigger] self.data_at(s)) is Some
                    implies exists|o: int| 0 <= o < orig.len() && orig.data_at(o) == self.data_at(s) by {
                if s < mid.len() {
                    assert(self.data@[s] == mid.data@[s]);
                } else {
                    let o = choose|o: int| 0 <= o < orig.len() && orig.data@[o] == self.data@[s];
                    assert(orig.data_at(o) == self.data_at(s));
                }
            }
            assert forall|s: int|
                0 <= s < old(self).len() implies #[trigger] self.data_at(s) == old(self).data_at(s) by {
                assert(self.data@[s] == mid.data@[s]);
            }
        }
    }

    /// The child of `node` for `pat`, made fresh if there is none yet.
    fn add_child(&mut self, node: usize, pat: Pattern) -> (r: usize)
        requires
            old(self).wf(),
            node < old(self).len(),
            compiled(pat@),
        ensures
            final(self).wf(),
            old(self).extends(final(self)),
            final(self).len() >= old(self).len(),
            r < final(self).len(),
            r > node,
            final(self).child(node as int, pattern_key(pat@)) == Some(r),
            forall|s: int|
                0 <= s < old(self).len() ==> #[trigger] final(self).data@[s] == old(self).data@[s],
            forall|s: int|
                old(self).len() <= s < final(self).len() ==> #[trigger] final(self).data@[s] is None,
            old(self).child(node as int, pattern_key(pat@)) is Some ==> *final(self) == *old(self),
            old(self).child(node as int, pattern_key(pat@)) is None ==> {
                &&& final(self).len() == old(self).len() + 1
                &&& r == old(self).len()
                &&& final(self).node(r as int).parent == node
                &&& final(self).node(r as int).pattern@ == pat@
                &&& final(self).data_at(r as int) is None
                &&& (forall|key: Seq<char>| #[trigger] final(self).child(r as int, key) is None)
                &&& (forall|s: int| 0 <= s < old(self).len() && s != node ==> #[trigger] final(self).node(s) == old(self).node(s))
                &&& (forall|key: Seq<char>| key != pattern_key(pat@) ==> #[trigger] final(self).child(node as int, key) == old(self).child(node as int, key))
                &&& final(self).node(node as int).pattern@ == old(self).node(node as int).pattern@
                &&& final(self).node(node as int).parent == old(self).node(node as int).parent
            },
    {
        if let Some(child) = self.get_child(node, &pat) {
            proof {
                lemma_lookup_in(self.nodes@[node as int].children@, pattern_key(pat@));
                assert(self.nodes@[node as int].node_wf(node as int, self.len() as int));
                assert(self.extends(self));
            }
            return child;
        }
        let ghost s0 = *self;
        let ghost pv = pat@;
        let key = pat.as_pat();
        let kind = pat.kind();
        let child = self.next_node(node, pat);
        let ghost s1 = *self;
        let n = self.get_mut(node);
        n.children.push((key, child));
        if kind == Kind::Param {
            n.has_param_child = true;
        }
        if kind == Kind::Wildcard {
            n.has_wildcard_child = true;
        }
        proof {
            let a = s1.nodes@[node as int];
            let b = self.nodes@[node as int];
            let x = (key, child);
            assert(b.children@ == a.children@.push(x));
            assert(a == s0.nodes@[node as int]);
            assert(a.node_wf(node as int, s0.len() as int));
            lemma_lookup_in(a.children@, key@);
            lemma_key_kind(pv);
            lemma_lookup_push(a.children@, x, param_key());
            lemma_lookup_push(a.children@, x, wildcard_key());
            assert forall|key2: Seq<char>| #[trigger] lookup(a.children@, key2) is Some implies lookup(
                b.children@,
                key2,
            ) == lookup(a.children@, key2) by {
                lemma_lookup_push(a.children@, x, key2);
            }
            lemma_lookup_push(a.children@, x, key@);
            assert(b.node_wf(node as int, self.len() as int)) by {
                assert forall|i: int, j: int|
                    0 <= i < j < b.children@.len() implies (#[trigger] b.children@[i]).0@
                        != (#[trigger] b.children@[j]).0@ by {
                    if j < a.children@.len() {
                        assert(a.children@[i].0@ != a.children@[j].0@);
                    } else {
                        assert(b.children@[i] == a.children@[i]);
                    }
                }
                assert forall|i: int| 0 <= i < b.children@.len() implies node < (
                #[trigger] b.children@[i]).1 < self.len() by {
                    if i < a.children@.len() {
                        assert(b.children@[i] == a.children@[i]);
                    }
                }
            }
            assert forall|s: int| 0 <= s < self.nodes@.len() implies (
            #[trigger] self.nodes@[s]).node_wf(s, self.nodes@.len() as int) by {
                if s != node {
                    assert(self.nodes@[s] == s1.nodes@[s]);
                    if s < s0.len() {
                        assert(s0.nodes@[s].node_wf(s, s0.len() as int));
                    }
                }
            }
            assert forall|s: int, i: int|
                0 <= s < self.nodes@.len() && 0 <= i < self.nodes@[s].children@.len() implies {
                    let c = (#[trigger] self.nodes@[s].children@[i]).1 as int;
                    &&& self.nodes@[c].parent == s
                    &&& self.nodes@[s].children@[i].0@ == pattern_key(self.nodes@[c].pattern@)
                } by {
                if s == node {
                    if i < a.children@.len() {
                        assert(b.children@[i] == a.children@[i]);
                        assert(s0.nodes@[s].children@[i] == a.children@[i]);
                        let c = a.children@[i].1 as int;
                        assert(s0.nodes@[s].node_wf(s, s0.len() as int));
                        assert(self.nodes@[c] == s1.nodes@[c]);
                    }
                } else {
                    assert(self.nodes@[s] == s1.nodes@[s]);
                    if s < s0.len() {
                        assert(s0.nodes@[s].children@[i] == self.nodes@[s].children@[i]);
                        let c = self.nodes@[s].children@[i].1 as int;
                        assert(s0.nodes@[s].node_wf(s, s0.len() as int));
                        if c == node {
                        } else {
                            assert(self.nodes@[c] == s1.nodes@[c]);
                        }
                    }
                }
            }
            assert forall|s: int| 0 <= s < s0.nodes@.len() implies {
                let a2 = #[trigger] s0.nodes@[s];
                let b2 = self.nodes@[s];
                &&& a2.index == b2.index
                &&& a2.parent == b2.parent
                &&& a2.pattern@ == b2.pattern@
                &&& forall|key2: Seq<char>|
                    #[trigger] lookup(a2.children@, key2) is Some ==> lookup(b2.children@, key2)
                        == lookup(a2.children@, key2)
            } by {
                if s != node {
                    assert(self.nodes@[s] == s1.nodes@[s]);
                }
            }
            assert forall|s: int| 0 <= s < s0.len() implies #[trigger] self.data@[s] == s0.data@[s] by {
                if s != node {
                    assert(self.nodes@[s] == s1.nodes@[s]);
                }
            }
            assert forall|k2: Seq<char>| true implies #[trigger] self.child(child as int, k2) is None by {
                assert(self.nodes@[child as int] == s1.nodes@[child as int]);
            }
            assert forall|k2: Seq<char>| k2 != pattern_key(pv) implies #[trigger] self.child(node as int, k2) == s0.child(node as int, k2) by {
                lemma_lookup_push(a.children@, x, k2);
            }
            assert forall|s: int| 0 <= s < s0.len() && s != node implies #[trigger] self.node(s) == s0.node(s) by {
                assert(self.nodes@[s] == s1.nodes@[s]);
            }
        }
        child
    }

    /// Appends a fresh node for `pat` under `parent`.
    fn next_node(&mut self, parent: usize, pat: Pattern) -> (r: usize)
        requires
            old(self).wf(),
            parent < old(self).len(),
            compiled(pat@),
        ensures
            r == old(self).len(),
            final(self).len() == old(self).len() + 1,
            forall|s: int| 0 <= s < old(self).len() ==> #[trigger] final(self).nodes@[s] == old(self).nodes@[s],
            final(self).nodes@[r as int].index == r,
            final(self).nodes@[r as int].parent == parent,
            final(self).nodes@[r as int].pattern@ == pat@,
            final(self).nodes@[r as int].children@.len() == 0,
            !final(self).nodes@[r as int].has_param_child,
            !final(self).nodes@[r as int].has_wildcard_child,
            final(self).data@ == old(self).data@.push(None),
    {
        let next = self.nodes.len();
        self.nodes.push(Node::new(next, parent, pat));
        self.data.push(None);
        next
    }
}

} // verus!
