//! Sets and maps keyed by strings, held in ascending order of key.

use vstd::prelude::*;

use crate::text::views;

verus! {

/// `a` comes before `b` in the order of strings: character by character.
pub open spec fn precedes(a: Seq<char>, b: Seq<char>) -> bool
    decreases a.len(),
{
    if b.len() == 0 {
        false
    } else if a.len() == 0 {
        true
    } else if a[0] == b[0] {
        precedes(a.drop_first(), b.drop_first())
    } else {
        a[0] < b[0]
    }
}

/// The strings stand in strictly ascending order.
pub open spec fn ascending(s: Seq<Seq<char>>) -> bool {
    forall|i: int, j: int|
        #![trigger s[i], s[j]]
        0 <= i < j < s.len() ==> precedes(s[i], s[j])
}

/// No string comes before itself.
pub proof fn lemma_precedes_irreflexive(a: Seq<char>)
    ensures
        !precedes(a, a),
    decreases a.len(),
{
    if a.len() > 0 {
        lemma_precedes_irreflexive(a.drop_first());
    }
}

/// The order of strings is transitive.
pub proof fn lemma_precedes_transitive(a: Seq<char>, b: Seq<char>, c: Seq<char>)
    requires
        precedes(a, b),
        precedes(b, c),
    ensures
        precedes(a, c),
    decreases a.len(),
{
    if a.len() > 0 && b.len() > 0 && c.len() > 0 && a[0] == b[0] && b[0] == c[0] {
        lemma_precedes_transitive(a.drop_first(), b.drop_first(), c.drop_first());
    }
}

/// Of two different strings one comes before the other.
pub proof fn lemma_precedes_total(a: Seq<char>, b: Seq<char>)
    ensures
        a == b || precedes(a, b) || precedes(b, a),
    decreases a.len(),
{
    if a.len() == 0 || b.len() == 0 {
        if a.len() == 0 && b.len() == 0 {
            assert(a == b);
        }
    } else if a[0] == b[0] {
        lemma_precedes_total(a.drop_first(), b.drop_first());
        if a.drop_first() == b.drop_first() {
            assert(a == seq![a[0]] + a.drop_first());
            assert(b == seq![b[0]] + b.drop_first());
        }
    }
}

/// Two ascending sequences with the same members are equal.
pub proof fn lemma_ascending_unique(a: Seq<Seq<char>>, b: Seq<Seq<char>>)
    requires
        ascending(a),
        ascending(b),
        forall|x: Seq<char>| #[trigger] a.contains(x) <==> b.contains(x),
    ensures
        a == b,
    decreases a.len(),
{
    if a.len() == 0 {
        if b.len() > 0 {
            assert(b.contains(b[0]));
            assert(a.contains(b[0]));
        }
        assert(a == b);
    } else {
        assert(a.contains(a[0]));
        assert(b.contains(a[0]));
        let j = choose|j: int| 0 <= j < b.len() && b[j] == a[0];
        assert(b.contains(b[0]));
        assert(a.contains(b[0]));
        let i = choose|i: int| 0 <= i < a.len() && a[i] == b[0];
        if a[0] != b[0] {
            assert(precedes(a[0], a[i]));
            assert(precedes(b[0], b[j]));
            lemma_precedes_transitive(a[0], b[0], a[0]);
            lemma_precedes_irreflexive(a[0]);
        }
        let x = a.drop_first();
        let y = b.drop_first();
        assert(ascending(x)) by {
            assert forall|i: int, j: int|
                #![trigger x[i], x[j]]
                0 <= i < j < x.len() implies precedes(x[i], x[j]) by {
                assert(x[i] == a[i + 1] && x[j] == a[j + 1]);
            }
        }
        assert(ascending(y)) by {
            assert forall|i: int, j: int|
                #![trigger y[i], y[j]]
                0 <= i < j < y.len() implies precedes(y[i], y[j]) by {
                assert(y[i] == b[i + 1] && y[j] == b[j + 1]);
            }
        }
        assert forall|s: Seq<char>| #[trigger] x.contains(s) <==> y.contains(s) by {
            if x.contains(s) {
                let k = choose|k: int| 0 <= k < x.len() && x[k] == s;
                assert(a[k + 1] == s);
                assert(a.contains(s));
                assert(b.contains(s));
                let m = choose|m: int| 0 <= m < b.len() && b[m] == s;
                assert(precedes(a[0], a[k + 1]));
                lemma_precedes_irreflexive(s);
                assert(m != 0);
                assert(y[m - 1] == s);
            }
            if y.contains(s) {
                let k = choose|k: int| 0 <= k < y.len() && y[k] == s;
                assert(b[k + 1] == s);
                assert(b.contains(s));
                assert(a.contains(s));
                let m = choose|m: int| 0 <= m < a.len() && a[m] == s;
                assert(precedes(b[0], b[k + 1]));
                lemma_precedes_irreflexive(s);
                assert(m != 0);
                assert(x[m - 1] == s);
            }
        }
        lemma_ascending_unique(x, y);
        assert(a == seq![a[0]] + x);
        assert(b == seq![b[0]] + y);
    }
}

/// What a set lists in ascending order it holds once: nothing occurs twice.
pub proof fn law_set_holds_nothing_twice(s: Seq<Seq<char>>)
    requires
        ascending(s),
    ensures
        s.no_duplicates(),
{
    assert forall|i: int, j: int| 0 <= i < s.len() && 0 <= j < s.len() && i != j implies s[i]
        != s[j] by {
        lemma_precedes_irreflexive(s[i]);
        if i < j {
            assert(precedes(s[i], s[j]));
        } else {
            assert(precedes(s[j], s[i]));
        }
    }
}

/// How one string stands to another.
#[derive(Clone, Copy, PartialEq, Eq, Structural, Debug)]
pub enum Rel {
    Before,
    Same,
    After,
}

/// Compares two strings in one pass.
pub fn relate(a: &str, b: &str) -> (r: Rel)
    ensures
        r == Rel::Before <==> precedes(a@, b@),
        r == Rel::Same <==> a@ == b@,
        r == Rel::After <==> precedes(b@, a@),
{
    let mut x = a.chars();
    let mut y = b.chars();
    let ghost mut k: int = 0;
    proof {
        lemma_precedes_irreflexive(a@);
        lemma_precedes_irreflexive(b@);
        if precedes(a@, b@) && precedes(b@, a@) {
            lemma_precedes_transitive(a@, b@, a@);
        }
        assert(a@.skip(0) == a@);
        assert(b@.skip(0) == b@);
    }
    loop
        invariant
            0 <= k <= a@.len(),
            k <= b@.len(),
            vstd::std_specs::iter::IteratorSpec::remaining(&x) == a@.skip(k),
            vstd::std_specs::iter::IteratorSpec::remaining(&y) == b@.skip(k),
            vstd::std_specs::iter::IteratorSpec::obeys_prophetic_iter_laws(&x),
            vstd::std_specs::iter::IteratorSpec::obeys_prophetic_iter_laws(&y),
            a@.take(k) == b@.take(k),
            precedes(a@, b@) == precedes(a@.skip(k), b@.skip(k)),
            precedes(b@, a@) == precedes(b@.skip(k), a@.skip(k)),
            !precedes(a@, a@),
            !precedes(b@, b@),
            !(precedes(a@, b@) && precedes(b@, a@)),
        decreases a@.len() - k,
    {
        match (x.next(), y.next()) {
            (None, None) => {
                assert(a@.take(k) == a@ && b@.take(k) == b@);
                return Rel::Same;
            },
            (None, Some(_)) => {
                return Rel::Before;
            },
            (Some(_), None) => {
                return Rel::After;
            },
            (Some(c), Some(d)) => {
                if c < d {
                    return Rel::Before;
                }
                if d < c {
                    return Rel::After;
                }
                proof {
                    assert(a@.skip(k).drop_first() == a@.skip(k + 1));
                    assert(b@.skip(k).drop_first() == b@.skip(k + 1));
                    assert(a@.take(k + 1) == a@.take(k).push(a@[k]));
                    assert(b@.take(k + 1) == b@.take(k).push(b@[k]));
                    k = k + 1;
                }
            },
        }
    }
}

/// Whether two strings are equal.
pub fn same(a: &str, b: &str) -> (r: bool)
    ensures
        r == (a@ == b@),
{
    match relate(a, b) {
        Rel::Same => true,
        _ => false,
    }
}

/// Where a string stands in an ascending sequence, or where it belongs.
pub struct Place {
    pub found: bool,
    pub at: usize,
}

/// A set of strings, held in ascending order.
pub struct StrSet {
    items: Vec<String>,
}

impl View for StrSet {
    type V = Seq<Seq<char>>;

    /// The members in ascending order.
    closed spec fn view(&self) -> Seq<Seq<char>> {
        views(self.items@)
    }
}

impl StrSet {
    #[verifier::type_invariant]
    spec fn inv(self) -> bool {
        ascending(views(self.items@))
    }

    /// The empty set.
    pub fn new() -> (r: StrSet)
        ensures
            r@ == Seq::<Seq<char>>::empty(),
    {
        let items: Vec<String> = Vec::new();
        assert(views(items@) == Seq::<Seq<char>>::empty());
        StrSet { items }
    }

    /// The set of the strings in a list.
    pub fn from_vec(list: Vec<String>) -> (r: StrSet)
        ensures
            ascending(r@),
            forall|x: Seq<char>| #[trigger] r@.contains(x) <==> views(list@).contains(x),
    {
        let items = sort_distinct(list);
        StrSet { items }
    }

    /// How many members the set has.
    pub fn len(&self) -> (r: usize)
        ensures
            r == self@.len(),
    {
        self.items.len()
    }

    /// Whether a string is a member.
    pub fn contains(&self, s: &str) -> (r: bool)
        ensures
            r == self@.contains(s@),
    {
        proof {
            use_type_invariant(self);
        }
        let place = find(&self.items, s);
        proof {
            if place.found {
                assert(views(self.items@)[place.at as int] == s@);
            } else {
                lemma_not_found(views(self.items@), s@, place.at as int);
            }
        }
        place.found
    }

    /// The members in ascending order.
    pub fn as_vec(&self) -> (r: &Vec<String>)
        ensures
            views(r@) == self@,
            ascending(self@),
    {
        proof {
            use_type_invariant(self);
        }
        &self.items
    }

    /// Adds a member.
    pub fn insert(&mut self, s: String)
        ensures
            ascending(final(self)@),
            forall|x: Seq<char>| #[trigger]
                final(self)@.contains(x) <==> old(self)@.contains(x) || x == s@,
    {
        proof {
            use_type_invariant(&*self);
        }
        let place = find(&self.items, s.as_str());
        let mut items: Vec<String> = Vec::new();
        std::mem::swap(&mut items, &mut self.items);
        let ghost before = views(items@);
        if !place.found {
            let ghost x = s@;
            items.insert(place.at, s);
            proof {
                assert(views(items@) == before.insert(place.at as int, x));
                lemma_insert_ascending(before, x, place.at as int);
            }
        } else {
            assert(before[place.at as int] == s@);
        }
        self.items = items;
    }

    /// The members that are not in `other`.
    pub fn minus(&self, other: &StrSet) -> (r: StrSet)
        ensures
            r@ == self@.filter(|x: Seq<char>| !other@.contains(x)),
            ascending(r@),
    {
        proof {
            use_type_invariant(self);
        }
        let ghost keep = |x: Seq<char>| !other@.contains(x);
        let ghost all = self@;
        let mut items: Vec<String> = Vec::new();
        let mut i: usize = 0;
        assert(all.take(0).filter(keep) == Seq::<Seq<char>>::empty()) by {
            reveal(Seq::filter);
        }
        assert(views(items@) == Seq::<Seq<char>>::empty());
        while i < self.items.len()
            invariant
                i <= self.items@.len(),
                all == self@,
                all == views(self.items@),
                keep == (|x: Seq<char>| !other@.contains(x)),
                views(items@) == all.take(i as int).filter(keep),
            decreases self.items@.len() - i,
        {
            proof {
                assert(all.take(i + 1).drop_last() == all.take(i as int));
                reveal(Seq::filter);
            }
            let ghost before = views(items@);
            if !other.contains(self.items[i].as_str()) {
                items.push(self.items[i].clone());
                assert(views(items@) == before.push(all[i as int]));
            }
            i = i + 1;
        }
        assert(all.take(all.len() as int) == all);
        proof {
            lemma_filter_ascending(all, keep);
        }
        StrSet { items }
    }

    /// How many members are also in `other`.
    pub fn count_in(&self, other: &StrSet) -> (r: usize)
        ensures
            r == self@.filter(|x: Seq<char>| other@.contains(x)).len(),
            r <= self@.len(),
    {
        let ghost keep = |x: Seq<char>| other@.contains(x);
        let ghost all = self@;
        let mut n: usize = 0;
        let mut i: usize = 0;
        assert(all.take(0).filter(keep).len() == 0) by {
            reveal(Seq::filter);
        }
        while i < self.items.len()
            invariant
                i <= self.items@.len(),
                all == self@,
                all == views(self.items@),
                keep == (|x: Seq<char>| other@.contains(x)),
                n == all.take(i as int).filter(keep).len(),
                n <= i,
            decreases self.items@.len() - i,
        {
            proof {
                assert(all.take(i + 1).drop_last() == all.take(i as int));
                reveal(Seq::filter);
            }
            if other.contains(self.items[i].as_str()) {
                n = n + 1;
            }
            i = i + 1;
        }
        assert(all.take(all.len() as int) == all);
        n
    }
}

/// The keys of a sequence of entries.
pub open spec fn entry_keys<V>(entries: Seq<(String, V)>) -> Seq<Seq<char>> {
    entries.map_values(|e: (String, V)| e.0@)
}

/// A map from strings, held in ascending order of key.
pub struct StrMap<V> {
    entries: Vec<(String, V)>,
}

impl<V> View for StrMap<V> {
    type V = Map<Seq<char>, V>;

    closed spec fn view(&self) -> Map<Seq<char>, V> {
        Map::new(
            |k: Seq<char>| entry_keys(self.entries@).contains(k),
            |k: Seq<char>| self.entries@[entry_keys(self.entries@).index_of(k)].1,
        )
    }
}

impl<V> StrMap<V> {
    #[verifier::type_invariant]
    spec fn inv(self) -> bool {
        ascending(entry_keys(self.entries@))
    }

    /// The keys in ascending order.
    pub closed spec fn keys(&self) -> Seq<Seq<char>> {
        entry_keys(self.entries@)
    }

    /// The empty map.
    pub fn new() -> (r: StrMap<V>)
        ensures
            r@ == Map::<Seq<char>, V>::empty(),
            r.keys() == Seq::<Seq<char>>::empty(),
    {
        let entries: Vec<(String, V)> = Vec::new();
        assert(entry_keys(entries@) == Seq::<Seq<char>>::empty());
        let r = StrMap { entries };
        assert(r@ == Map::<Seq<char>, V>::empty());
        r
    }

    /// How many keys the map has.
    pub fn len(&self) -> (r: usize)
        ensures
            r == self.keys().len(),
            ascending(self.keys()),
            forall|k: Seq<char>| #[trigger]
                self.keys().contains(k) <==> self@.contains_key(k),
    {
        proof {
            use_type_invariant(self);
        }
        self.entries.len()
    }

    /// The key at a position of the ascending order.
    pub fn key_at(&self, i: usize) -> (r: &String)
        requires
            i < self.keys().len(),
        ensures
            r@ == self.keys()[i as int],
            self@.contains_key(r@),
    {
        proof {
            assert(entry_keys(self.entries@)[i as int] == self.entries@[i as int].0@);
        }
        &self.entries[i].0
    }

    /// The value of the key at a position of the ascending order.
    pub fn value_at(&self, i: usize) -> (r: &V)
        requires
            i < self.keys().len(),
        ensures
            *r == self@[self.keys()[i as int]],
    {
        proof {
            use_type_invariant(self);
            lemma_ascending_index(self.keys(), i as int);
        }
        &self.entries[i].1
    }

    /// The value of a key.
    pub fn get(&self, key: &str) -> (r: Option<&V>)
        ensures
            r is Some <==> self@.contains_key(key@),
            r matches Some(v) ==> *v == self@[key@],
    {
        proof {
            use_type_invariant(self);
        }
        let place = find_key(&self.entries, key);
        if place.found {
            proof {
                assert(self.keys()[place.at as int] == key@);
                lemma_ascending_index(self.keys(), place.at as int);
            }
            Some(&self.entries[place.at].1)
        } else {
            proof {
                lemma_not_found(self.keys(), key@, place.at as int);
            }
            None
        }
    }

    /// Maps a key to a value, which takes the place of an earlier one.
    pub fn insert(&mut self, key: String, value: V)
        ensures
            final(self)@ == old(self)@.insert(key@, value),
            old(self)@.contains_key(key@) ==> final(self).keys() == old(self).keys(),
            ascending(final(self).keys()),
    {
        proof {
            use_type_invariant(&*self);
        }
        let place = find_key(&self.entries, key.as_str());
        let ghost k = key@;
        let ghost was = self@;
        let ghost before = entry_keys(self.entries@);
        let ghost list = self.entries@;
        let at: usize = place.at;
        let mut entries: Vec<(String, V)> = Vec::new();
        std::mem::swap(&mut entries, &mut self.entries);
        if place.found {
            proof {
                assert(before[at as int] == k);
            }
            entries.set(at, (key, value));
            proof {
                assert(entry_keys(entries@) == before);
                lemma_ascending_index(before, at as int);
            }
        } else {
            entries.insert(at, (key, value));
            proof {
                assert(entry_keys(entries@) == before.insert(at as int, k));
                lemma_insert_ascending(before, k, at as int);
                lemma_not_found(before, k, at as int);
            }
        }
        self.entries = entries;
        proof {
            let now = entry_keys(self.entries@);
            assert forall|x: Seq<char>| was.insert(k, value).contains_key(x) implies self@[x]
                == was.insert(k, value)[x] by {
                assert(now.contains(x));
                let i = now.index_of(x);
                assert(now[i] == x);
                lemma_ascending_index(now, i);
                if x == k {
                    lemma_ascending_index(now, at as int);
                    assert(now[at as int] == k);
                } else {
                    assert(before.contains(x));
                    let j = before.index_of(x);
                    let m = if place.found || j < at { j } else { j + 1 };
                    assert(now[m] == x);
                    lemma_ascending_index(now, m);
                    assert(self.entries@[m].1 == list[j].1);
                }
            }
            assert(self@ =~= was.insert(k, value));
        }
    }
}

/// In an ascending sequence a string stands at one place only.
pub proof fn lemma_ascending_index(s: Seq<Seq<char>>, i: int)
    requires
        ascending(s),
        0 <= i < s.len(),
    ensures
        s.index_of(s[i]) == i,
        s.contains(s[i]),
{
    let j = s.index_of(s[i]);
    assert(s.contains(s[i]));
    assert(0 <= j < s.len() && s[j] == s[i]);
    lemma_precedes_irreflexive(s[i]);
    if j < i {
        assert(precedes(s[j], s[i]));
    } else if i < j {
        assert(precedes(s[i], s[j]));
    }
}

/// Binary search by key in an ascending list of entries.
fn find_key<V>(entries: &Vec<(String, V)>, s: &str) -> (r: Place)
    requires
        ascending(entry_keys(entries@)),
    ensures
        r.found ==> r.at < entries@.len() && entry_keys(entries@)[r.at as int] == s@,
        !r.found ==> {
            &&& r.at <= entries@.len()
            &&& forall|i: int| 0 <= i < r.at ==> precedes(#[trigger] entry_keys(entries@)[i], s@)
            &&& forall|i: int|
                r.at <= i < entries@.len() ==> precedes(s@, #[trigger] entry_keys(entries@)[i])
        },
{
    let ghost all = entry_keys(entries@);
    let mut lo: usize = 0;
    let mut hi: usize = entries.len();
    while lo < hi
        invariant
            all == entry_keys(entries@),
            ascending(all),
            lo <= hi <= entries@.len(),
            forall|i: int| 0 <= i < lo ==> precedes(#[trigger] all[i], s@),
            forall|i: int| hi <= i < all.len() ==> precedes(s@, #[trigger] all[i]),
        decreases hi - lo,
    {
        let mid: usize = lo + (hi - lo) / 2;
        assert(all[mid as int] == entries@[mid as int].0@);
        match relate(entries[mid].0.as_str(), s) {
            Rel::Same => {
                return Place { found: true, at: mid };
            },
            Rel::Before => {
                proof {
                    assert forall|i: int| 0 <= i < mid + 1 implies precedes(
                        #[trigger] all[i],
                        s@,
                    ) by {
                        if i < mid {
                            lemma_precedes_transitive(all[i], all[mid as int], s@);
                        }
                    }
                }
                lo = mid + 1;
            },
            Rel::After => {
                proof {
                    assert forall|i: int| mid <= i < all.len() implies precedes(
                        s@,
                        #[trigger] all[i],
                    ) by {
                        if i > mid {
                            lemma_precedes_transitive(s@, all[mid as int], all[i]);
                        }
                    }
                }
                hi = mid;
            },
        }
    }
    Place { found: false, at: lo }
}

/// What an ascending sequence keeps of itself is ascending.
pub proof fn lemma_filter_ascending(s: Seq<Seq<char>>, keep: spec_fn(Seq<char>) -> bool)
    requires
        ascending(s),
    ensures
        ascending(s.filter(keep)),
        forall|x: Seq<char>| #[trigger] s.filter(keep).contains(x) <==> s.contains(x) && keep(x),
    decreases s.len(),
{
    reveal(Seq::filter);
    if s.len() > 0 {
        let t = s.drop_last();
        assert(ascending(t)) by {
            assert forall|i: int, j: int|
                #![trigger t[i], t[j]]
                0 <= i < j < t.len() implies precedes(t[i], t[j]) by {
                assert(t[i] == s[i] && t[j] == s[j]);
            }
        }
        lemma_filter_ascending(t, keep);
        let f = t.filter(keep);
        assert(s == t.push(s.last()));
        if keep(s.last()) {
            let g = f.push(s.last());
            assert forall|i: int, j: int|
                #![trigger g[i], g[j]]
                0 <= i < j < g.len() implies precedes(g[i], g[j]) by {
                if j == f.len() {
                    assert(f.contains(f[i]));
                    assert(t.contains(f[i]));
                    let k = choose|k: int| 0 <= k < t.len() && t[k] == f[i];
                    assert(s[k] == f[i]);
                    assert(precedes(s[k], s[s.len() - 1]));
                } else {
                    assert(g[i] == f[i] && g[j] == f[j]);
                }
            }
            assert forall|x: Seq<char>| #[trigger] g.contains(x) <==> s.contains(x) && keep(x) by {
                if g.contains(x) {
                    let k = choose|k: int| 0 <= k < g.len() && g[k] == x;
                    if k < f.len() {
                        assert(f.contains(x));
                        let m = choose|m: int| 0 <= m < t.len() && t[m] == x;
                        assert(s[m] == x);
                    } else {
                        assert(s[s.len() - 1] == x);
                    }
                }
                if s.contains(x) && keep(x) {
                    let k = choose|k: int| 0 <= k < s.len() && s[k] == x;
                    if k < t.len() {
                        assert(t[k] == x);
                        assert(f.contains(x));
                        let m = choose|m: int| 0 <= m < f.len() && f[m] == x;
                        assert(g[m] == x);
                    } else {
                        assert(g[f.len() as int] == x);
                    }
                }
            }
        } else {
            assert forall|x: Seq<char>| #[trigger] f.contains(x) <==> s.contains(x) && keep(x) by {
                if f.contains(x) {
                    let m = choose|m: int| 0 <= m < t.len() && t[m] == x;
                    assert(s[m] == x);
                }
                if s.contains(x) && keep(x) {
                    let k = choose|k: int| 0 <= k < s.len() && s[k] == x;
                    assert(t[k] == x);
                }
            }
        }
    }
}

/// Putting a string where it belongs keeps the order.
proof fn lemma_insert_ascending(s: Seq<Seq<char>>, x: Seq<char>, at: int)
    requires
        ascending(s),
        0 <= at <= s.len(),
        forall|i: int| 0 <= i < at ==> precedes(#[trigger] s[i], x),
        forall|i: int| at <= i < s.len() ==> precedes(x, #[trigger] s[i]),
    ensures
        ascending(s.insert(at, x)),
        forall|y: Seq<char>| #[trigger] s.insert(at, x).contains(y) <==> s.contains(y) || y == x,
{
    let t = s.insert(at, x);
    assert forall|i: int, j: int|
        #![trigger t[i], t[j]]
        0 <= i < j < t.len() implies precedes(t[i], t[j]) by {
        let a = if i <= at { i } else { i - 1 };
        let b = if j <= at { j } else { j - 1 };
        if i != at {
            assert(t[i] == s[a]);
        }
        if j != at {
            assert(t[j] == s[b]);
        }
    }
    assert forall|y: Seq<char>| #[trigger] t.contains(y) <==> s.contains(y) || y == x by {
        if t.contains(y) {
            let i = choose|i: int| 0 <= i < t.len() && t[i] == y;
            if i < at {
                assert(s[i] == y);
            } else if i > at {
                assert(s[i - 1] == y);
            }
        }
        if s.contains(y) {
            let i = choose|i: int| 0 <= i < s.len() && s[i] == y;
            if i < at {
                assert(t[i] == y);
            } else {
                assert(t[i + 1] == y);
            }
        }
        if y == x {
            assert(t[at] == y);
        }
    }
}

/// A string whose place is between its neighbours is no member.
proof fn lemma_not_found(s: Seq<Seq<char>>, x: Seq<char>, at: int)
    requires
        0 <= at <= s.len(),
        forall|i: int| 0 <= i < at ==> precedes(#[trigger] s[i], x),
        forall|i: int| at <= i < s.len() ==> precedes(x, #[trigger] s[i]),
    ensures
        !s.contains(x),
{
    if s.contains(x) {
        let i = choose|i: int| 0 <= i < s.len() && s[i] == x;
        lemma_precedes_irreflexive(x);
        assert(precedes(s[i], x) || precedes(x, s[i]));
    }
}

/// Binary search in an ascending list.
fn find(items: &Vec<String>, s: &str) -> (r: Place)
    requires
        ascending(views(items@)),
    ensures
        r.found ==> r.at < items@.len() && views(items@)[r.at as int] == s@,
        !r.found ==> {
            &&& r.at <= items@.len()
            &&& forall|i: int| 0 <= i < r.at ==> precedes(#[trigger] views(items@)[i], s@)
            &&& forall|i: int|
                r.at <= i < items@.len() ==> precedes(s@, #[trigger] views(items@)[i])
        },
{
    let ghost all = views(items@);
    let mut lo: usize = 0;
    let mut hi: usize = items.len();
    while lo < hi
        invariant
            all == views(items@),
            ascending(all),
            lo <= hi <= items@.len(),
            forall|i: int| 0 <= i < lo ==> precedes(#[trigger] all[i], s@),
            forall|i: int| hi <= i < all.len() ==> precedes(s@, #[trigger] all[i]),
        decreases hi - lo,
    {
        let mid: usize = lo + (hi - lo) / 2;
        match relate(items[mid].as_str(), s) {
            Rel::Same => {
                return Place { found: true, at: mid };
            },
            Rel::Before => {
                proof {
                    assert forall|i: int| 0 <= i < mid + 1 implies precedes(
                        #[trigger] all[i],
                        s@,
                    ) by {
                        if i < mid {
                            lemma_precedes_transitive(all[i], all[mid as int], s@);
                        }
                    }
                }
                lo = mid + 1;
            },
            Rel::After => {
                proof {
                    assert forall|i: int| mid <= i < all.len() implies precedes(
                        s@,
                        #[trigger] all[i],
                    ) by {
                        if i > mid {
                            lemma_precedes_transitive(s@, all[mid as int], all[i]);
                        }
                    }
                }
                hi = mid;
            },
        }
    }
    Place { found: false, at: lo }
}

/// Sorts a list of strings and drops what occurs more than once.
fn sort_distinct(list: Vec<String>) -> (r: Vec<String>)
    ensures
        ascending(views(r@)),
        forall|x: Seq<char>| #[trigger] views(r@).contains(x) <==> views(list@).contains(x),
    decreases list@.len(),
{
    if list.len() <= 1 {
        return list;
    }
    let ghost all = views(list@);
    let mut left = list;
    let mid: usize = left.len() / 2;
    let right = left.split_off(mid);
    let ghost l = views(left@);
    let ghost s = views(right@);
    proof {
        assert(all == l + s);
        assert forall|x: Seq<char>| #[trigger] all.contains(x) <==> l.contains(x) || s.contains(x) by {
            if l.contains(x) {
                let i = choose|i: int| 0 <= i < l.len() && l[i] == x;
                assert(all[i] == x);
            }
            if s.contains(x) {
                let i = choose|i: int| 0 <= i < s.len() && s[i] == x;
                assert(all[i + l.len()] == x);
            }
        }
    }
    let left = sort_distinct(left);
    let right = sort_distinct(right);
    let r = merge_distinct(&left, &right);
    proof {
        assert forall|x: Seq<char>| #[trigger] views(r@).contains(x) <==> all.contains(x) by {
            assert(views(left@).contains(x) <==> l.contains(x));
            assert(views(right@).contains(x) <==> s.contains(x));
        }
    }
    r
}

/// Merges two ascending lists into one.
fn merge_distinct(left: &Vec<String>, right: &Vec<String>) -> (r: Vec<String>)
    requires
        ascending(views(left@)),
        ascending(views(right@)),
    ensures
        ascending(views(r@)),
        forall|x: Seq<char>| #[trigger]
            views(r@).contains(x) <==> views(left@).contains(x) || views(right@).contains(x),
{
    let ghost l = views(left@);
    let ghost s = views(right@);
    let mut out: Vec<String> = Vec::new();
    let mut i: usize = 0;
    let mut j: usize = 0;
    while i < left.len() || j < right.len()
        invariant
            l == views(left@),
            s == views(right@),
            ascending(l),
            ascending(s),
            i <= left@.len(),
            j <= right@.len(),
            ascending(views(out@)),
            forall|k: int, m: int|
                #![trigger views(out@)[k], l[m]]
                0 <= k < out@.len() && i <= m < l.len() ==> precedes(views(out@)[k], l[m]),
            forall|k: int, m: int|
                #![trigger views(out@)[k], s[m]]
                0 <= k < out@.len() && j <= m < s.len() ==> precedes(views(out@)[k], s[m]),
            forall|k: int| 0 <= k < i ==> views(out@).contains(#[trigger] l[k]),
            forall|k: int| 0 <= k < j ==> views(out@).contains(#[trigger] s[k]),
            forall|k: int|
                0 <= k < out@.len() ==> l.contains(#[trigger] views(out@)[k]) || s.contains(
                    views(out@)[k],
                ),
        decreases left@.len() - i + right@.len() - j,
    {
        let ghost before = views(out@);
        let rel: Rel = if i >= left.len() {
            Rel::After
        } else if j >= right.len() {
            Rel::Before
        } else {
            relate(left[i].as_str(), right[j].as_str())
        };
        let next: String = match rel {
            Rel::After => right[j].clone(),
            _ => left[i].clone(),
        };
        let ghost x = next@;
        let take_left: bool = match rel {
            Rel::After => false,
            _ => true,
        };
        let take_right: bool = match rel {
            Rel::Before => false,
            _ => true,
        };
        out.push(next);
        proof {
            let now = views(out@);
            assert(now == before.push(x));
            assert(take_left ==> x == l[i as int]);
            assert(take_right ==> x == s[j as int]);
            let i2 = if take_left { i + 1 } else { i as int };
            let j2 = if take_right { j + 1 } else { j as int };
            assert forall|m: int| i2 <= m < l.len() implies precedes(x, #[trigger] l[m]) by {
                if take_left {
                    assert(precedes(l[i as int], l[m]));
                } else {
                    assert(precedes(s[j as int], l[i as int]));
                    if m > i {
                        lemma_precedes_transitive(x, l[i as int], l[m]);
                    }
                }
            }
            assert forall|m: int| j2 <= m < s.len() implies precedes(x, #[trigger] s[m]) by {
                if take_right {
                    assert(precedes(s[j as int], s[m]));
                } else {
                    assert(precedes(l[i as int], s[j as int]));
                    if m > j {
                        lemma_precedes_transitive(x, s[j as int], s[m]);
                    }
                }
            }
            assert forall|a: int, b: int|
                #![trigger now[a], now[b]]
                0 <= a < b < now.len() implies precedes(now[a], now[b]) by {
                if b == before.len() {
                    assert(now[a] == before[a]);
                    if take_left {
                        assert(precedes(before[a], l[i as int]));
                    } else {
                        assert(precedes(before[a], s[j as int]));
                    }
                } else {
                    assert(now[a] == before[a] && now[b] == before[b]);
                }
            }
            assert forall|k: int| 0 <= k < i2 implies now.contains(#[trigger] l[k]) by {
                if k < i {
                    assert(before.contains(l[k]));
                    let m = choose|m: int| 0 <= m < before.len() && before[m] == l[k];
                    assert(now[m] == l[k]);
                } else {
                    assert(now[before.len() as int] == l[k]);
                }
            }
            assert forall|k: int| 0 <= k < j2 implies now.contains(#[trigger] s[k]) by {
                if k < j {
                    assert(before.contains(s[k]));
                    let m = choose|m: int| 0 <= m < before.len() && before[m] == s[k];
                    assert(now[m] == s[k]);
                } else {
                    assert(now[before.len() as int] == s[k]);
                }
            }
            assert forall|k: int| 0 <= k < now.len() implies l.contains(#[trigger] now[k])
                || s.contains(now[k]) by {
                if k < before.len() {
                    assert(now[k] == before[k]);
                } else if take_left {
                    assert(l[i as int] == now[k]);
                } else {
                    assert(s[j as int] == now[k]);
                }
            }
        }
        if take_left {
            i = i + 1;
        }
        if take_right {
            j = j + 1;
        }
    }
    out
}

/// Two strings are told apart at the first character in which they differ, and the
/// smaller code point comes first; a string comes before every longer one that
/// starts with it.
pub proof fn law_order_of_strings(p: Seq<char>, c: char, x: Seq<char>, d: char, y: Seq<char>)
    ensures
        c < d ==> precedes(p + seq![c] + x, p + seq![d] + y) && !precedes(
            p + seq![d] + y,
            p + seq![c] + x,
        ),
        precedes(p, p + seq![c] + x),
        !precedes(p + seq![c] + x, p),
    decreases p.len(),
{
    let a = p + seq![c] + x;
    let b = p + seq![d] + y;
    if p.len() > 0 {
        let q = p.drop_first();
        law_order_of_strings(q, c, x, d, y);
        assert(a.drop_first() == q + seq![c] + x);
        assert(b.drop_first() == q + seq![d] + y);
    }
}

} // verus!
