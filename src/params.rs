//! The captures of a match: a map from names to captured texts.
use vstd::prelude::*;
use vstd::string::*;

verus! {

/// The map that a list of (name, value) entries stands for; a later entry
/// wins over an earlier one with the same name.
pub open spec fn map_of(s: Seq<(String, String)>) -> Map<Seq<char>, Seq<char>>
    decreases s.len(),
{
    if s.len() == 0 {
        Map::empty()
    } else {
        map_of(s.drop_last()).insert(s.last().0@, s.last().1@)
    }
}

/// `a` comes before `b` in the order of names: compared character by
/// character, by code point, a proper prefix first.
pub open spec fn key_lt(a: Seq<char>, b: Seq<char>) -> bool
    decreases a.len(),
{
    if b.len() == 0 {
        false
    } else if a.len() == 0 {
        true
    } else if a[0] != b[0] {
        (a[0] as int) < (b[0] as int)
    } else {
        key_lt(a.drop_first(), b.drop_first())
    }
}

/// No name comes before itself.
pub proof fn lemma_key_lt_irrefl(a: Seq<char>)
    ensures
        !key_lt(a, a),
    decreases a.len(),
{
    if a.len() > 0 {
        lemma_key_lt_irrefl(a.drop_first());
    }
}

/// The order of names is transitive.
pub proof fn lemma_key_lt_trans(a: Seq<char>, b: Seq<char>, c: Seq<char>)
    requires
        key_lt(a, b),
        key_lt(b, c),
    ensures
        key_lt(a, c),
    decreases a.len(),
{
    if a.len() > 0 && b.len() > 0 && c.len() > 0 && a[0] == b[0] && b[0] == c[0] {
        lemma_key_lt_trans(a.drop_first(), b.drop_first(), c.drop_first());
    }
}

/// Two different names are ordered one way.
pub proof fn lemma_key_lt_total(a: Seq<char>, b: Seq<char>)
    requires
        a != b,
    ensures
        key_lt(a, b) || key_lt(b, a),
    decreases a.len(),
{
    if a.len() == 0 && b.len() == 0 {
        assert(a =~= b);
    } else if a.len() > 0 && b.len() > 0 && a[0] == b[0] {
        if a.drop_first() == b.drop_first() {
            assert(a =~= seq![a[0]] + a.drop_first());
            assert(b =~= seq![b[0]] + b.drop_first());
        }
        lemma_key_lt_total(a.drop_first(), b.drop_first());
    } else if a.len() > 0 && b.len() > 0 {
        assert((a[0] as int) != (b[0] as int));
    }
}

/// The names of the entries are in ascending order.
pub open spec fn sorted_keys(s: Seq<(String, String)>) -> bool {
    forall|i: int, j: int| 0 <= i < j < s.len() ==> key_lt((#[trigger] s[i]).0@, (#[trigger] s[j]).0@)
}

/// Names in ascending order are unique.
pub proof fn lemma_sorted_unique(s: Seq<(String, String)>)
    requires
        sorted_keys(s),
    ensures
        keys_unique(s),
{
    assert forall|i: int, j: int| 0 <= i < j < s.len() implies (#[trigger] s[i]).0@ != (#[trigger] s[j]).0@ by {
        lemma_key_lt_irrefl(s[i].0@);
    }
}

/// Whether name `a` comes before name `b`.
pub fn name_lt(a: &str, b: &str) -> (r: bool)
    ensures
        r == key_lt(a@, b@),
{
    let n = a.unicode_len();
    let m = b.unicode_len();
    let mut i: usize = 0;
    assert(a@.skip(0) =~= a@);
    assert(b@.skip(0) =~= b@);
    while i < n && i < m
        invariant
            n == a@.len(),
            m == b@.len(),
            i <= n,
            i <= m,
            key_lt(a@, b@) == key_lt(a@.skip(i as int), b@.skip(i as int)),
        decreases n - i,
    {
        let x = a.get_char(i);
        let y = b.get_char(i);
        assert(a@.skip(i as int)[0] == x);
        assert(b@.skip(i as int)[0] == y);
        if x != y {
            return (x as u32) < (y as u32);
        }
        assert(a@.skip(i as int).drop_first() =~= a@.skip(i + 1));
        assert(b@.skip(i as int).drop_first() =~= b@.skip(i + 1));
        i = i + 1;
    }
    i < m
}

/// No two entries share a name.
pub open spec fn keys_unique(s: Seq<(String, String)>) -> bool {
    forall|i: int, j: int| 0 <= i < j < s.len() ==> (#[trigger] s[i]).0@ != (#[trigger] s[j]).0@
}

/// With unique names, the map holds exactly the entries' names, each with its value.
pub proof fn lemma_map_of(s: Seq<(String, String)>)
    requires
        keys_unique(s),
    ensures
        forall|k: Seq<char>|
            #[trigger] map_of(s).contains_key(k) <==> exists|j: int|
                0 <= j < s.len() && (#[trigger] s[j]).0@ == k,
        forall|j: int| 0 <= j < s.len() ==> map_of(s)[(#[trigger] s[j]).0@] == s[j].1@,
    decreases s.len(),
{
    if s.len() > 0 {
        let p = s.drop_last();
        assert(keys_unique(p)) by {
            assert forall|i: int, j: int| 0 <= i < j < p.len() implies (#[trigger] p[i]).0@ != (
            #[trigger] p[j]).0@ by {
                assert(p[i] == s[i] && p[j] == s[j]);
            }
        }
        lemma_map_of(p);
        assert forall|k: Seq<char>|
            #[trigger] map_of(s).contains_key(k) <==> exists|j: int|
                0 <= j < s.len() && (#[trigger] s[j]).0@ == k by {
            assert(map_of(s) == map_of(p).insert(s.last().0@, s.last().1@));
            assert(s[s.len() - 1].0@ == s.last().0@);
            if map_of(s).contains_key(k) && k != s.last().0@ {
                assert(map_of(p).contains_key(k));
                let j = choose|j: int| 0 <= j < p.len() && (#[trigger] p[j]).0@ == k;
                assert(s[j] == p[j]);
            }
            if exists|j: int| 0 <= j < s.len() && (#[trigger] s[j]).0@ == k {
                let j = choose|j: int| 0 <= j < s.len() && (#[trigger] s[j]).0@ == k;
                if j < p.len() {
                    assert(p[j] == s[j]);
                }
            }
        }
        assert forall|j: int| 0 <= j < s.len() implies map_of(s)[(#[trigger] s[j]).0@] == s[j].1@ by {
            if j < p.len() {
                assert(p[j] == s[j]);
                assert(s[j].0@ != s[s.len() - 1].0@);
            }
        }
    }
}

/// The named captures of a match, kept in ascending order of names. Names
/// are unique; a later insertion under a name replaces the earlier value.
#[derive(Debug)]
pub struct Params {
    map: Vec<(String, String)>,
}

impl View for Params {
    type V = Map<Seq<char>, Seq<char>>;

    closed spec fn view(&self) -> Map<Seq<char>, Seq<char>> {
        map_of(self.map@)
    }
}

impl Params {
    #[verifier::type_invariant]
    closed spec fn inv(&self) -> bool {
        sorted_keys(self.map@)
    }

    pub fn new() -> (r: Params)
        ensures
            r@ == Map::<Seq<char>, Seq<char>>::empty(),
    {
        Params { map: Vec::new() }
    }

    /// The position of the entry named `key`.
    fn position(&self, key: &String) -> (r: Option<usize>)
        ensures
            match r {
                Some(j) => j < self.map@.len() && self.map@[j as int].0@ == key@,
                None => forall|j: int| 0 <= j < self.map@.len() ==> (#[trigger] self.map@[j]).0@ != key@,
            },
    {
        let mut j: usize = 0;
        while j < self.map.len()
            invariant
                j <= self.map@.len(),
                forall|i: int| 0 <= i < j ==> (#[trigger] self.map@[i]).0@ != key@,
            decreases self.map@.len() - j,
        {
            if self.map[j].0 == *key {
                return Some(j);
            }
            j = j + 1;
        }
        None
    }

    /// The value captured under `key`, if there is one.
    pub fn find(&self, key: &str) -> (r: Option<&str>)
        ensures
            match r {
                Some(v) => self@.contains_key(key@) && v@ == self@[key@],
                None => !self@.contains_key(key@),
            },
    {
        proof {
            use_type_invariant(self);
            lemma_sorted_unique(self.map@);
            lemma_map_of(self.map@);
        }
        let k = key.to_owned();
        match self.position(&k) {
            Some(j) => Some(self.map[j].1.as_str()),
            None => None,
        }
    }

    /// Sets `key` to `value`, and gives the value it had before.
    pub fn insert(&mut self, key: &str, value: &str) -> (r: Option<String>)
        ensures
            final(self)@ == old(self)@.insert(key@, value@),
            match r {
                Some(v) => old(self)@.contains_key(key@) && v@ == old(self)@[key@],
                None => !old(self)@.contains_key(key@),
            },
    {
        proof {
            use_type_invariant(&*self);
            lemma_sorted_unique(self.map@);
            lemma_map_of(self.map@);
        }
        let k = key.to_owned();
        let v = value.to_owned();
        match self.position(&k) {
            Some(j) => {
                let before = self.map[j].1.clone();
                let ghost s = self.map@;
                let mut m: Vec<(String, String)> = Vec::new();
                std::mem::swap(&mut self.map, &mut m);
                m.set(j, (k, v));
                proof {
                    let t = m@;
                    assert(keys_unique(t)) by {
                        assert forall|a: int, b: int| 0 <= a < b < t.len() implies (
                        #[trigger] t[a]).0@ != (#[trigger] t[b]).0@ by {
                            assert(s[a].0@ != s[b].0@);
                        }
                    }
                    lemma_map_of(t);
                    assert(map_of(t) =~= map_of(s).insert(key@, value@)) by {
                        assert forall|q: Seq<char>| #[trigger] map_of(t).contains_key(q) <==> map_of(
                            s,
                        ).insert(key@, value@).contains_key(q) by {
                            if map_of(t).contains_key(q) {
                                let i = choose|i: int| 0 <= i < t.len() && (#[trigger] t[i]).0@ == q;
                                if i != j {
                                    assert(s[i] == t[i]);
                                }
                            }
                            if map_of(s).contains_key(q) {
                                let i = choose|i: int| 0 <= i < s.len() && (#[trigger] s[i]).0@ == q;
                                if i != j {
                                    assert(s[i] == t[i]);
                                }
                            }
                            assert(t[j as int].0@ == key@);
                        }
                        assert forall|q: Seq<char>| #[trigger] map_of(t).contains_key(q) implies map_of(
                            t,
                        )[q] == map_of(s).insert(key@, value@)[q] by {
                            let i = choose|i: int| 0 <= i < t.len() && (#[trigger] t[i]).0@ == q;
                            if i != j {
                                assert(s[i] == t[i]);
                            }
                        }
                    }
                }
                self.map = m;
                Some(before)
            },
            None => {
                let ghost s = self.map@;
                let mut j: usize = 0;
                while j < self.map.len() && name_lt(self.map[j].0.as_str(), key)
                    invariant
                        j <= s.len(),
                        s == self.map@,
                        forall|i: int| 0 <= i < j ==> key_lt((#[trigger] s[i]).0@, key@),
                    decreases s.len() - j,
                {
                    j = j + 1;
                }
                let mut m: Vec<(String, String)> = Vec::new();
                std::mem::swap(&mut self.map, &mut m);
                let ghost x = (k, v);
                m.insert(j, (k, v));
                proof {
                    let t = m@;
                    assert(t =~= s.insert(j as int, x));
                    assert(sorted_keys(s));
                    if j < s.len() {
                        assert(s[j as int].0@ != key@);
                        lemma_key_lt_total(s[j as int].0@, key@);
                    }
                    assert(sorted_keys(t)) by {
                        assert forall|a: int, b: int| 0 <= a < b < t.len() implies key_lt((#[trigger] t[a]).0@, (#[trigger] t[b]).0@) by {
                            if b < j {
                            } else if b == j {
                                assert(t[b] == x);
                            } else if a < j {
                                assert(t[b] == s[b - 1]);
                            } else if a == j {
                                assert(t[b] == s[b - 1]);
                                assert(t[a] == x);
                                if b - 1 > j {
                                    lemma_key_lt_trans(key@, s[j as int].0@, s[b - 1].0@);
                                }
                            } else {
                                assert(t[a] == s[a - 1]);
                                assert(t[b] == s[b - 1]);
                            }
                        }
                    }
                    lemma_sorted_unique(t);
                    lemma_map_of(t);
                    assert(map_of(t) =~= map_of(s).insert(key@, value@)) by {
                        assert forall|q: Seq<char>| #[trigger] map_of(t).contains_key(q) <==> map_of(
                            s,
                        ).insert(key@, value@).contains_key(q) by {
                            if map_of(t).contains_key(q) && q != key@ {
                                let i = choose|i: int| 0 <= i < t.len() && (#[trigger] t[i]).0@ == q;
                                let i2 = if i < j { i } else { i - 1 };
                                assert(s[i2] == t[i]);
                            }
                            if map_of(s).contains_key(q) {
                                let i = choose|i: int| 0 <= i < s.len() && (#[trigger] s[i]).0@ == q;
                                let i2 = if i < j { i } else { i + 1 };
                                assert(t[i2] == s[i]);
                            }
                            assert(t[j as int] == x);
                        }
                        assert forall|q: Seq<char>| #[trigger] map_of(t).contains_key(q) implies map_of(
                            t,
                        )[q] == map_of(s).insert(key@, value@)[q] by {
                            let i = choose|i: int| 0 <= i < t.len() && (#[trigger] t[i]).0@ == q;
                            if i != j {
                                let i2 = if i < j { i } else { i - 1 };
                                assert(s[i2] == t[i]);
                            }
                        }
                    }
                }
                self.map = m;
                None
            },
        }
    }

    /// Takes the entry named `key` out, and gives its value.
    pub fn remove(&mut self, key: &str) -> (r: Option<String>)
        ensures
            final(self)@ == old(self)@.remove(key@),
            match r {
                Some(v) => old(self)@.contains_key(key@) && v@ == old(self)@[key@],
                None => !old(self)@.contains_key(key@),
            },
    {
        proof {
            use_type_invariant(&*self);
            lemma_sorted_unique(self.map@);
            lemma_map_of(self.map@);
        }
        let k = key.to_owned();
        match self.position(&k) {
            Some(j) => {
                let ghost s = self.map@;
                let mut m: Vec<(String, String)> = Vec::new();
                std::mem::swap(&mut self.map, &mut m);
                let (_name, value) = m.remove(j);
                proof {
                    let t = m@;
                    assert forall|i: int| 0 <= i < t.len() implies #[trigger] t[i] == if i < j {
                        s[i]
                    } else {
                        s[i + 1]
                    } by {}
                    assert(keys_unique(t)) by {
                        assert forall|a: int, b: int| 0 <= a < b < t.len() implies (
                        #[trigger] t[a]).0@ != (#[trigger] t[b]).0@ by {
                            let a2 = if a < j { a } else { a + 1 };
                            let b2 = if b < j { b } else { b + 1 };
                            assert(s[a2].0@ != s[b2].0@);
                        }
                    }
                    lemma_map_of(t);
                    assert(map_of(t) =~= map_of(s).remove(key@)) by {
                        assert forall|q: Seq<char>| #[trigger] map_of(t).contains_key(q) <==> map_of(
                            s,
                        ).remove(key@).contains_key(q) by {
                            if map_of(t).contains_key(q) {
                                let i = choose|i: int| 0 <= i < t.len() && (#[trigger] t[i]).0@ == q;
                                let i2 = if i < j { i } else { i + 1 };
                                assert(s[i2] == t[i]);
                                assert(s[i2].0@ != s[j as int].0@);
                            }
                            if map_of(s).contains_key(q) && q != key@ {
                                let i = choose|i: int| 0 <= i < s.len() && (#[trigger] s[i]).0@ == q;
                                let i2 = if i < j { i } else { i - 1 };
                                assert(t[i2] == s[i]);
                            }
                        }
                        assert forall|q: Seq<char>| #[trigger] map_of(t).contains_key(q) implies map_of(
                            t,
                        )[q] == map_of(s).remove(key@)[q] by {
                            let i = choose|i: int| 0 <= i < t.len() && (#[trigger] t[i]).0@ == q;
                            let i2 = if i < j { i } else { i + 1 };
                            assert(s[i2] == t[i]);
                            assert(s[i2].0@ != s[j as int].0@);
                        }
                    }
                }
                self.map = m;
                Some(value)
            },
            None => {
                proof {
                    assert(map_of(self.map@).remove(key@) =~= map_of(self.map@));
                }
                None
            },
        }
    }

    /// The entries, in ascending order of names.
    pub fn entries(&self) -> (r: Vec<(String, String)>)
        ensures
            forall|j: int|
                0 <= j < r@.len() ==> self@.contains_key((#[trigger] r@[j]).0@) && self@[r@[j].0@]
                    == r@[j].1@,
            forall|k: Seq<char>|
                #[trigger] self@.contains_key(k) ==> exists|j: int|
                    0 <= j < r@.len() && (#[trigger] r@[j]).0@ == k,
            keys_unique(r@),
            sorted_keys(r@),
    {
        proof {
            use_type_invariant(self);
            lemma_sorted_unique(self.map@);
            lemma_map_of(self.map@);
        }
        let mut r: Vec<(String, String)> = Vec::new();
        let mut j: usize = 0;
        while j < self.map.len()
            invariant
                j <= self.map@.len(),
                r@.len() == j,
                forall|i: int|
                    0 <= i < j ==> (#[trigger] r@[i]).0@ == self.map@[i].0@ && r@[i].1@ == self.map@[i].1@,
            decreases self.map@.len() - j,
        {
            r.push((self.map[j].0.clone(), self.map[j].1.clone()));
            j = j + 1;
        }
        proof {
            assert forall|k: Seq<char>| #[trigger] self@.contains_key(k) implies exists|i: int|
                0 <= i < r@.len() && (#[trigger] r@[i]).0@ == k by {
                let i = choose|i: int| 0 <= i < self.map@.len() && (#[trigger] self.map@[i]).0@ == k;
                assert(r@[i].0@ == k);
            }
            assert forall|a: int, b: int| 0 <= a < b < r@.len() implies (#[trigger] r@[a]).0@ != (
            #[trigger] r@[b]).0@ by {
                assert(self.map@[a].0@ != self.map@[b].0@);
            }
            assert forall|a: int, b: int| 0 <= a < b < r@.len() implies key_lt((#[trigger] r@[a]).0@, (
            #[trigger] r@[b]).0@) by {
                assert(key_lt(self.map@[a].0@, self.map@[b].0@));
            }
        }
        r
    }

    /// Walks the entries, in ascending order of names.
    pub fn iter(&self) -> (r: ParamIter)
        ensures
            r.wf(),
            r.pos() == 0,
            forall|j: int|
                0 <= j < r.items().len() ==> self@.contains_key((#[trigger] r.items()[j]).0@)
                    && self@[r.items()[j].0@] == r.items()[j].1@,
            forall|k: Seq<char>|
                #[trigger] self@.contains_key(k) ==> exists|j: int|
                    0 <= j < r.items().len() && (#[trigger] r.items()[j]).0@ == k,
            keys_unique(r.items()),
            sorted_keys(r.items()),
    {
        let entries = self.entries();
        let r = ParamIter { entries, pos: 0 };
        assert forall|k: Seq<char>| #[trigger] self@.contains_key(k) implies exists|j: int|
            0 <= j < r.items().len() && (#[trigger] r.items()[j]).0@ == k by {
            let j = choose|j: int| 0 <= j < entries@.len() && (#[trigger] entries@[j]).0@ == k;
            assert(r.items()[j] == entries@[j]);
        }
        r
    }

    /// The value captured under `key`, which must be there.
    pub fn index(&self, key: &str) -> (r: &str)
        requires
            self@.contains_key(key@),
        ensures
            r@ == self@[key@],
    {
        match self.find(key) {
            Some(v) => v,
            None => vstd::pervasive::unreached(),
        }
    }

    /// Every entry of `self` is in `other` with the same value.
    fn within(&self, other: &Params) -> (r: bool)
        ensures
            r == forall|k: Seq<char>|
                #[trigger] self@.contains_key(k) ==> other@.contains_key(k) && other@[k] == self@[k],
    {
        proof {
            use_type_invariant(self);
            lemma_sorted_unique(self.map@);
            use_type_invariant(other);
            lemma_sorted_unique(other.map@);
            lemma_map_of(self.map@);
            lemma_map_of(other.map@);
        }
        let mut j: usize = 0;
        while j < self.map.len()
            invariant
                j <= self.map@.len(),
                keys_unique(self.map@),
                keys_unique(other.map@),
                forall|i: int|
                    0 <= i < j ==> other@.contains_key((#[trigger] self.map@[i]).0@) && other@[self.map@[i].0@]
                        == self.map@[i].1@,
            decreases self.map@.len() - j,
        {
            proof {
                lemma_map_of(self.map@);
                lemma_map_of(other.map@);
                assert(self@.contains_key(self.map@[j as int].0@));
            }
            match other.position(&self.map[j].0) {
                Some(p) => {
                    if !(other.map[p].1 == self.map[j].1) {
                        proof {
                            assert(other@[other.map@[p as int].0@] == other.map@[p as int].1@);
                            assert(self@[self.map@[j as int].0@] == self.map@[j as int].1@);
                        }
                        return false;
                    }
                    proof {
                        assert(other@[other.map@[p as int].0@] == other.map@[p as int].1@);
                    }
                },
                None => {
                    proof {
                        assert(!other@.contains_key(self.map@[j as int].0@));
                    }
                    return false;
                },
            }
            j = j + 1;
        }
        proof {
            assert forall|k: Seq<char>| #[trigger] self@.contains_key(k) implies other@.contains_key(k)
                && other@[k] == self@[k] by {
                let i = choose|i: int| 0 <= i < self.map@.len() && (#[trigger] self.map@[i]).0@ == k;
            }
        }
        true
    }
}

/// A walk over the entries of a [`Params`].
#[derive(Debug)]
pub struct ParamIter {
    entries: Vec<(String, String)>,
    pos: usize,
}

impl ParamIter {
    /// All the entries of the walk.
    pub closed spec fn items(&self) -> Seq<(String, String)> {
        self.entries@
    }

    /// How many entries were handed out.
    pub closed spec fn pos(&self) -> nat {
        self.pos as nat
    }

    pub closed spec fn wf(&self) -> bool {
        self.pos <= self.entries@.len()
    }

    /// The next entry, if any is left.
    pub fn next(&mut self) -> (r: Option<(String, String)>)
        requires
            old(self).wf(),
        ensures
            final(self).wf(),
            final(self).items() == old(self).items(),
            old(self).pos() < old(self).items().len() ==> r is Some && (r->0).0@ == old(self).items()[old(self).pos() as int].0@
                && (r->0).1@ == old(self).items()[old(self).pos() as int].1@
                && final(self).pos() == old(self).pos() + 1,
            old(self).pos() >= old(self).items().len() ==> r is None && final(self).pos() == old(
                self,
            ).pos(),
    {
        if self.pos < self.entries.len() {
            let e = (self.entries[self.pos].0.clone(), self.entries[self.pos].1.clone());
            self.pos = self.pos + 1;
            Some(e)
        } else {
            None
        }
    }

    /// How many entries are left, at least and at most.
    pub fn size_hint(&self) -> (r: (usize, Option<usize>))
        requires
            self.wf(),
        ensures
            r.0 == self.items().len() - self.pos(),
            r.1 == Some(r.0),
    {
        let left = self.entries.len() - self.pos;
        (left, Some(left))
    }
}

impl Default for Params {
    fn default() -> (r: Params)
        ensures
            r@ == Map::<Seq<char>, Seq<char>>::empty(),
    {
        Params::new()
    }
}

impl PartialEq for Params {
    fn eq(&self, other: &Params) -> (r: bool) {
        let r = self.within(other) && other.within(self);
        proof {
            if r {
                assert(self@ =~= other@);
            }
        }
        r
    }
}

impl vstd::std_specs::cmp::PartialEqSpecImpl for Params {
    open spec fn obeys_eq_spec() -> bool {
        true
    }

    open spec fn eq_spec(&self, other: &Params) -> bool {
        self@ == other@
    }
}

impl Eq for Params {
}

} // verus!
