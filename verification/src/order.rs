//! Order: texts compared character by character, maps and sets of names kept in that order, and
//! the stable order of a list of keys.

use crate::text::{chars_of, str_eq, texts};
use vstd::prelude::*;

verus! {

/// Whether `a` comes before `b`: at the first place where they differ `a` has the smaller
/// character, or `a` is a proper beginning of `b`.
pub open spec fn text_lt(a: Seq<char>, b: Seq<char>) -> bool
    decreases a.len(),
{
    if b.len() == 0 {
        false
    } else if a.len() == 0 {
        true
    } else if a[0] != b[0] {
        (a[0] as u32) < (b[0] as u32)
    } else {
        text_lt(a.skip(1), b.skip(1))
    }
}

/// No text comes before itself.
pub proof fn lemma_text_lt_irreflexive(a: Seq<char>)
    ensures
        !text_lt(a, a),
    decreases a.len(),
{
    if a.len() > 0 {
        lemma_text_lt_irreflexive(a.skip(1));
    }
}

/// Of two different texts one comes before the other.
pub proof fn lemma_text_lt_total(a: Seq<char>, b: Seq<char>)
    ensures
        a == b || text_lt(a, b) || text_lt(b, a),
    decreases a.len(),
{
    if a.len() > 0 && b.len() > 0 {
        if a[0] == b[0] {
            lemma_text_lt_total(a.skip(1), b.skip(1));
            if a.skip(1) == b.skip(1) {
                assert(a =~= seq![a[0]] + a.skip(1));
                assert(b =~= seq![b[0]] + b.skip(1));
                assert(a == b);
            }
        } else {
            vstd::utf8::char_u32_cast(a[0], a[0] as u32);
            vstd::utf8::char_u32_cast(b[0], b[0] as u32);
        }
    } else if a.len() == 0 && b.len() == 0 {
        assert(a =~= b);
    }
}

/// What comes before a text comes before all that come after it.
pub proof fn lemma_text_lt_transitive(a: Seq<char>, b: Seq<char>, c: Seq<char>)
    requires
        text_lt(a, b),
        text_lt(b, c),
    ensures
        text_lt(a, c),
    decreases a.len(),
{
    if a.len() > 0 && b.len() > 0 && c.len() > 0 && a[0] == b[0] && b[0] == c[0] {
        lemma_text_lt_transitive(a.skip(1), b.skip(1), c.skip(1));
    }
}

/// Whether `a` comes before `b`.
pub fn text_before(a: &str, b: &str) -> (r: bool)
    ensures
        r == text_lt(a@, b@),
{
    let x = chars_of(a);
    let y = chars_of(b);
    let mut i: usize = 0;
    assert(a@.skip(0) == a@);
    assert(b@.skip(0) == b@);
    while i < x.len() && i < y.len()
        invariant
            x@ == a@,
            y@ == b@,
            i <= x@.len(),
            i <= y@.len(),
            text_lt(a@, b@) == text_lt(a@.skip(i as int), b@.skip(i as int)),
        decreases x@.len() - i,
    {
        assert(a@.skip(i as int)[0] == a@[i as int]);
        assert(b@.skip(i as int)[0] == b@[i as int]);
        assert(a@.skip(i as int).skip(1) == a@.skip(i + 1));
        assert(b@.skip(i as int).skip(1) == b@.skip(i + 1));
        if x[i] != y[i] {
            return (x[i] as u32) < (y[i] as u32);
        }
        i += 1;
    }
    i < y.len()
}

/// Whether every text comes before those behind it.
pub open spec fn ascending(s: Seq<Seq<char>>) -> bool {
    forall|i: int, j: int| 0 <= i < j < s.len() ==> text_lt(#[trigger] s[i], #[trigger] s[j])
}

/// An ascending list names nothing twice.
pub proof fn lemma_ascending_distinct(s: Seq<Seq<char>>, i: int, j: int)
    requires
        ascending(s),
        0 <= i < s.len(),
        0 <= j < s.len(),
        s[i] == s[j],
    ensures
        i == j,
{
    lemma_text_lt_irreflexive(s[i]);
}

/// Putting a text between those before it and those after it keeps the list ascending.
pub proof fn lemma_ascending_insert(s: Seq<Seq<char>>, at: int, x: Seq<char>)
    requires
        ascending(s),
        0 <= at <= s.len(),
        forall|i: int| 0 <= i < at ==> text_lt(#[trigger] s[i], x),
        forall|i: int| at <= i < s.len() ==> text_lt(x, #[trigger] s[i]),
    ensures
        ascending(s.insert(at, x)),
{
    let t = s.insert(at, x);
    assert forall|i: int, j: int| 0 <= i < j < t.len() implies text_lt(
        #[trigger] t[i],
        #[trigger] t[j],
    ) by {
        if i < at && j > at {
            assert(t[i] == s[i] && t[j] == s[j - 1]);
        } else if i < at && j < at {
            assert(t[i] == s[i] && t[j] == s[j]);
        } else if i < at {
            assert(t[i] == s[i]);
        } else if i == at {
            assert(t[j] == s[j - 1]);
        } else {
            assert(t[i] == s[i - 1] && t[j] == s[j - 1]);
        }
    }
}

/// Where a name stands in an ascending list.
enum Place {
    /// At this index.
    Found(usize),
    /// Nowhere; it would have to be put in at this index.
    Missing(usize),
}

/// A set of names, kept in ascending order.
pub struct NameSet {
    names: Vec<String>,
}

impl View for NameSet {
    type V = Set<Seq<char>>;

    open spec fn view(&self) -> Set<Seq<char>> {
        self.listed().to_set()
    }
}

impl NameSet {
    /// The names, in order.
    pub closed spec fn listed(&self) -> Seq<Seq<char>> {
        texts(self.names@)
    }

    /// The names stand in ascending order, none twice.
    pub open spec fn wf(&self) -> bool {
        ascending(self.listed())
    }

    /// The empty set.
    pub fn new() -> (r: NameSet)
        ensures
            r.wf(),
            r@ == Set::<Seq<char>>::empty(),
            r.listed().len() == 0,
    {
        let r = NameSet { names: Vec::new() };
        assert(r@ =~= Set::<Seq<char>>::empty());
        r
    }

    /// Where `name` stands.
    fn place(&self, name: &str) -> (r: Place)
        requires
            self.wf(),
        ensures
            match r {
                Place::Found(i) => i < self.names@.len() && self.names@[i as int]@ == name@,
                Place::Missing(at) => {
                    &&& at <= self.names@.len()
                    &&& forall|i: int|
                        0 <= i < at ==> text_lt(#[trigger] texts(self.names@)[i], name@)
                    &&& forall|i: int|
                        at <= i < self.names@.len() ==> text_lt(
                            name@,
                            #[trigger] texts(self.names@)[i],
                        )
                },
            },
    {
        let ghost t = texts(self.names@);
        let mut at: usize = 0;
        while at < self.names.len() && text_before(self.names[at].as_str(), name)
            invariant
                t == texts(self.names@),
                at <= self.names@.len(),
                forall|i: int| 0 <= i < at ==> text_lt(#[trigger] t[i], name@),
            decreases self.names@.len() - at,
        {
            assert(t[at as int] == self.names@[at as int]@);
            at += 1;
        }
        if at < self.names.len() {
            assert(t[at as int] == self.names@[at as int]@);
            if str_eq(self.names[at].as_str(), name) {
                return Place::Found(at);
            }
            proof {
                lemma_text_lt_total(t[at as int], name@);
                assert forall|i: int| at <= i < t.len() implies text_lt(name@, #[trigger] t[i]) by {
                    if i > at {
                        lemma_text_lt_transitive(name@, t[at as int], t[i]);
                    }
                }
            }
        }
        Place::Missing(at)
    }

    /// Whether `name` is in the set.
    pub fn contains(&self, name: &str) -> (r: bool)
        requires
            self.wf(),
        ensures
            r == self@.contains(name@),
    {
        match self.place(name) {
            Place::Found(i) => {
                assert(texts(self.names@)[i as int] == name@);
                true
            },
            Place::Missing(at) => {
                proof {
                    let t = texts(self.names@);
                    assert forall|i: int| 0 <= i < t.len() implies t[i] != name@ by {
                        lemma_text_lt_irreflexive(name@);
                        if i < at {
                            assert(text_lt(t[i], name@));
                        } else {
                            assert(text_lt(name@, t[i]));
                        }
                    }
                }
                false
            },
        }
    }

    /// Puts `name` into the set. The result says whether it was not there before.
    pub fn insert(&mut self, name: &str) -> (r: bool)
        requires
            old(self).wf(),
        ensures
            final(self).wf(),
            final(self)@ == old(self)@.insert(name@),
            r == !old(self)@.contains(name@),
            final(self).listed().len() == old(self).listed().len() + if r {
                1nat
            } else {
                0
            },
    {
        let ghost t = texts(self.names@);
        match self.place(name) {
            Place::Found(i) => {
                proof {
                    assert(t[i as int] == name@);
                    assert(self@ =~= self@.insert(name@));
                }
                false
            },
            Place::Missing(at) => {
                proof {
                    assert forall|i: int| 0 <= i < t.len() implies t[i] != name@ by {
                        lemma_text_lt_irreflexive(name@);
                        if i < at {
                            assert(text_lt(t[i], name@));
                        } else {
                            assert(text_lt(name@, t[i]));
                        }
                    }
                }
                self.names.insert(at, name.to_owned());
                proof {
                    assert(texts(self.names@) =~= t.insert(at as int, name@));
                    lemma_ascending_insert(t, at as int, name@);
                    assert forall|x: Seq<char>| #[trigger]
                        t.insert(at as int, name@).to_set().contains(x) <==> t.to_set().insert(
                            name@,
                        ).contains(x) by {
                        let u = t.insert(at as int, name@);
                        if t.contains(x) {
                            let i = choose|i: int| 0 <= i < t.len() && t[i] == x;
                            if i < at {
                                assert(u[i] == x);
                            } else {
                                assert(u[i + 1] == x);
                            }
                        }
                        assert(u[at as int] == name@);
                        if u.contains(x) && x != name@ {
                            let i = choose|i: int| 0 <= i < u.len() && u[i] == x;
                            if i < at {
                                assert(t[i] == x);
                            } else {
                                assert(t[i - 1] == x);
                            }
                        }
                    }
                    assert(self@ =~= t.to_set().insert(name@));
                }
                true
            },
        }
    }

    /// How many names the set holds.
    pub fn len(&self) -> (r: usize)
        ensures
            r == self.listed().len(),
    {
        self.names.len()
    }

    /// The name at a place.
    pub fn name(&self, i: usize) -> (r: &str)
        requires
            i < self.listed().len(),
        ensures
            r@ == self.listed()[i as int],
    {
        self.names[i].as_str()
    }

    /// The names as a list, in order.
    pub fn to_list(&self) -> (r: Vec<String>)
        ensures
            texts(r@) == self.listed(),
    {
        let mut out: Vec<String> = Vec::new();
        let mut i: usize = 0;
        while i < self.names.len()
            invariant
                i <= self.names@.len(),
                out@.len() == i,
                forall|j: int| 0 <= j < i ==> #[trigger] out@[j] == self.names@[j],
            decreases self.names@.len() - i,
        {
            out.push(self.names[i].clone());
            i += 1;
        }
        assert(texts(out@) =~= texts(self.names@));
        out
    }
}

/// A map from names, kept in ascending order of the names.
pub struct NameMap<T> {
    entries: Vec<(String, T)>,
}

impl<T> NameMap<T> {
    /// The names, in order.
    pub closed spec fn keys(&self) -> Seq<Seq<char>> {
        Seq::new(self.entries@.len(), |i: int| self.entries@[i].0@)
    }

    /// What stands under the names, in their order.
    pub closed spec fn values(&self) -> Seq<T> {
        Seq::new(self.entries@.len(), |i: int| self.entries@[i].1)
    }

    /// The names stand in ascending order, none twice.
    pub open spec fn wf(&self) -> bool {
        ascending(self.keys())
    }
}

impl<T> View for NameMap<T> {
    type V = Map<Seq<char>, T>;

    open spec fn view(&self) -> Map<Seq<char>, T> {
        Map::new(
            |k: Seq<char>| self.keys().contains(k),
            |k: Seq<char>| self.values()[self.keys().index_of(k)],
        )
    }
}

impl<T> NameMap<T> {
    /// What an entry says of its name.
    pub proof fn lemma_entry(&self, i: int)
        requires
            self.wf(),
            0 <= i < self.keys().len(),
        ensures
            self@.dom().contains(self.keys()[i]),
            self@[self.keys()[i]] == self.values()[i],
    {
        let k = self.keys()[i];
        assert(self.keys()[i] == k);
        let j = self.keys().index_of(k);
        assert(0 <= j < self.keys().len() && self.keys()[j] == k);
        lemma_ascending_distinct(self.keys(), i, j);
    }

    /// The empty map.
    pub fn new() -> (r: NameMap<T>)
        ensures
            r.wf(),
            r@ == Map::<Seq<char>, T>::empty(),
            r.keys().len() == 0,
    {
        let r = NameMap { entries: Vec::new() };
        assert(r@ =~= Map::<Seq<char>, T>::empty());
        r
    }

    /// Where `name` stands.
    fn place(&self, name: &str) -> (r: Place)
        requires
            self.wf(),
        ensures
            match r {
                Place::Found(i) => i < self.entries@.len() && self.entries@[i as int].0@ == name@,
                Place::Missing(at) => {
                    &&& at <= self.entries@.len()
                    &&& forall|i: int| 0 <= i < at ==> text_lt(#[trigger] self.keys()[i], name@)
                    &&& forall|i: int|
                        at <= i < self.entries@.len() ==> text_lt(name@, #[trigger] self.keys()[i])
                },
            },
    {
        let ghost t = self.keys();
        let mut at: usize = 0;
        while at < self.entries.len() && text_before(self.entries[at].0.as_str(), name)
            invariant
                t == self.keys(),
                at <= self.entries@.len(),
                forall|i: int| 0 <= i < at ==> text_lt(#[trigger] t[i], name@),
            decreases self.entries@.len() - at,
        {
            assert(t[at as int] == self.entries@[at as int].0@);
            at += 1;
        }
        if at < self.entries.len() {
            assert(t[at as int] == self.entries@[at as int].0@);
            if str_eq(self.entries[at].0.as_str(), name) {
                return Place::Found(at);
            }
            proof {
                lemma_text_lt_total(t[at as int], name@);
                assert forall|i: int| at <= i < t.len() implies text_lt(name@, #[trigger] t[i]) by {
                    if i > at {
                        lemma_text_lt_transitive(name@, t[at as int], t[i]);
                    }
                }
            }
        }
        Place::Missing(at)
    }

    /// What the map holds under `name`.
    pub fn get(&self, name: &str) -> (r: Option<&T>)
        requires
            self.wf(),
        ensures
            match r {
                Some(v) => self@.dom().contains(name@) && self@[name@] == *v,
                None => !self@.dom().contains(name@),
            },
    {
        match self.place(name) {
            Place::Found(i) => {
                proof {
                    self.lemma_entry(i as int);
                }
                Some(&self.entries[i].1)
            },
            Place::Missing(at) => {
                proof {
                    let t = self.keys();
                    assert forall|i: int| 0 <= i < t.len() implies t[i] != name@ by {
                        lemma_text_lt_irreflexive(name@);
                        if i < at {
                            assert(text_lt(t[i], name@));
                        } else {
                            assert(text_lt(name@, t[i]));
                        }
                    }
                }
                None
            },
        }
    }

    /// Puts `value` under `name`, in place of what stood there.
    pub fn insert(&mut self, name: String, value: T)
        requires
            old(self).wf(),
        ensures
            final(self).wf(),
            final(self)@ == old(self)@.insert(name@, value),
    {
        let ghost before = *self;
        let ghost t = self.keys();
        let ghost k = name@;
        match self.place(name.as_str()) {
            Place::Found(i) => {
                self.entries.set(i, (name, value));
                proof {
                    assert(self.keys() =~= t);
                    before.lemma_entry(i as int);
                    self.lemma_entry(i as int);
                    assert forall|x: Seq<char>| #[trigger] self@.dom().contains(x) && x != k implies self@[x]
                        == before@[x] by {
                        let j = t.index_of(x);
                        assert(0 <= j < t.len() && t[j] == x);
                        before.lemma_entry(j);
                        self.lemma_entry(j);
                    }
                    assert(self@ =~= before@.insert(k, value));
                }
            },
            Place::Missing(at) => {
                self.entries.insert(at, (name, value));
                proof {
                    let u = t.insert(at as int, k);
                    assert(self.keys() =~= u);
                    lemma_ascending_insert(t, at as int, k);
                    self.lemma_entry(at as int);
                    assert forall|x: Seq<char>| x != k implies (#[trigger] self@.dom().contains(x)
                        <==> before@.dom().contains(x)) && (before@.dom().contains(x) ==> self@[x]
                        == before@[x]) by {
                        if t.contains(x) {
                            let i = choose|i: int| 0 <= i < t.len() && t[i] == x;
                            before.lemma_entry(i);
                            if i < at {
                                assert(u[i] == x);
                                self.lemma_entry(i);
                            } else {
                                assert(u[i + 1] == x);
                                self.lemma_entry(i + 1);
                            }
                        }
                        if u.contains(x) {
                            let i = choose|i: int| 0 <= i < u.len() && u[i] == x;
                            if i < at {
                                assert(t[i] == x);
                            } else {
                                assert(t[i - 1] == x);
                            }
                        }
                    }
                    assert(self@ =~= before@.insert(k, value));
                }
            },
        }
    }
}

impl<T> NameMap<T> {
    /// How many names the map holds.
    pub fn len(&self) -> (r: usize)
        ensures
            r == self.keys().len(),
    {
        self.entries.len()
    }

    /// The name at a place.
    pub fn key(&self, i: usize) -> (r: &str)
        requires
            i < self.keys().len(),
        ensures
            r@ == self.keys()[i as int],
    {
        self.entries[i].0.as_str()
    }

    /// What stands under the name at a place.
    pub fn value(&self, i: usize) -> (r: &T)
        requires
            i < self.keys().len(),
        ensures
            *r == self.values()[i as int],
    {
        &self.entries[i].1
    }
}

/// Whether index `a` comes before index `b` in the stable order of `keys`.
pub open spec fn key_before(keys: Seq<u64>, a: usize, b: usize) -> bool {
    keys[a as int] < keys[b as int] || (keys[a as int] == keys[b as int] && a < b)
}

/// Whether `order` lists each index below `n` once, in the stable order of `keys`.
pub open spec fn is_stable_order(keys: Seq<u64>, n: int, order: Seq<usize>) -> bool {
    &&& order.len() == n
    &&& forall|i: int| 0 <= i < order.len() ==> 0 <= #[trigger] order[i] < n
    &&& forall|k: usize| k < n ==> #[trigger] order.contains(k)
    &&& forall|i: int, j: int|
        0 <= i < j < order.len() ==> key_before(keys, #[trigger] order[i], #[trigger] order[j])
}

/// The indices of `keys` from the smallest key to the largest; equal keys stay in their order.
pub fn stable_order(keys: &Vec<u64>) -> (order: Vec<usize>)
    ensures
        is_stable_order(keys@, keys@.len() as int, order@),
{
    let mut order: Vec<usize> = Vec::new();
    let mut i: usize = 0;
    while i < keys.len()
        invariant
            i <= keys@.len(),
            is_stable_order(keys@, i as int, order@),
        decreases keys@.len() - i,
    {
        let mut at: usize = order.len();
        while at > 0 && keys[order[at - 1]] > keys[i]
            invariant
                i < keys@.len(),
                at <= order@.len(),
                is_stable_order(keys@, i as int, order@),
                forall|j: int|
                    at <= j < order@.len() ==> keys@[#[trigger] order@[j] as int] > keys@[i as int],
            decreases at,
        {
            at -= 1;
        }
        let ghost before = order@;
        order.insert(at, i);
        proof {
            assert(order@ == before.insert(at as int, i));
            assert forall|a: int, b: int| 0 <= a < b < order@.len() implies key_before(
                keys@,
                #[trigger] order@[a],
                #[trigger] order@[b],
            ) by {
                if b < at {
                    assert(order@[a] == before[a] && order@[b] == before[b]);
                } else if a < at && b == at {
                    assert(order@[a] == before[a]);
                    if a < at - 1 {
                        assert(key_before(keys@, before[a], before[at - 1]));
                    }
                } else if a < at {
                    assert(order@[a] == before[a] && order@[b] == before[b - 1]);
                } else if a == at {
                    assert(order@[b] == before[b - 1]);
                } else {
                    assert(order@[a] == before[a - 1] && order@[b] == before[b - 1]);
                }
            }
            assert forall|k: usize| k < i + 1 implies #[trigger] order@.contains(k) by {
                if k == i {
                    assert(order@[at as int] == i);
                } else {
                    assert(before.contains(k));
                    let j = choose|j: int| 0 <= j < before.len() && before[j] == k;
                    if j < at {
                        assert(order@[j] == k);
                    } else {
                        assert(order@[j + 1] == k);
                    }
                }
            }
            assert forall|j: int| 0 <= j < order@.len() implies 0 <= #[trigger] order@[j] < i
                + 1 by {
                if j < at {
                    assert(order@[j] == before[j]);
                } else if j > at {
                    assert(order@[j] == before[j - 1]);
                }
            }
        }
        i += 1;
    }
    order
}

proof fn lemma_key_before(keys: Seq<u64>, a: usize, b: usize, c: usize)
    ensures
        key_before(keys, a, b) && key_before(keys, b, c) ==> key_before(keys, a, c),
        !key_before(keys, a, a),
{
}

proof fn lemma_stable_order_upto(keys: Seq<u64>, n: int, a: Seq<usize>, b: Seq<usize>, k: int)
    requires
        0 <= k <= n <= usize::MAX,
        is_stable_order(keys, n, a),
        is_stable_order(keys, n, b),
    ensures
        forall|i: int| 0 <= i < k ==> #[trigger] a[i] == b[i],
    decreases k,
{
    if k > 0 {
        let last = k - 1;
        lemma_stable_order_upto(keys, n, a, b, last);
        assert(b.contains(a[last]));
        let j = choose|j: int| 0 <= j < b.len() && b[j] == a[last];
        assert(a.contains(b[last]));
        let i = choose|i: int| 0 <= i < a.len() && a[i] == b[last];
        lemma_key_before(keys, a[last], b[last], a[last]);
        if j < last {
            assert(a[j] == b[j]);
            assert(key_before(keys, a[j], a[last]));
        }
        if i < last {
            assert(a[i] == b[i]);
            assert(key_before(keys, b[i], b[last]));
            lemma_key_before(keys, b[last], b[i], b[last]);
        }
        if j > last && i > last {
            assert(key_before(keys, b[last], b[j]));
            assert(key_before(keys, a[last], a[i]));
        }
    }
}

/// There is one stable order of a list of keys.
pub proof fn lemma_one_stable_order(keys: Seq<u64>, n: int, a: Seq<usize>, b: Seq<usize>)
    requires
        0 <= n <= usize::MAX,
        is_stable_order(keys, n, a),
        is_stable_order(keys, n, b),
    ensures
        a == b,
{
    lemma_stable_order_upto(keys, n, a, b, n);
    assert(a =~= b);
}

} // verus!
