//! Ordered texts, and maps and sets keyed by paths.

use crate::text::{self, chars_of};
use vstd::prelude::*;

verus! {

// ---------------------------------------------------------------------------
// The order of texts
// ---------------------------------------------------------------------------

/// The order of texts: by the first character that differs, a prefix first.
pub open spec fn lex_le(a: Seq<char>, b: Seq<char>) -> bool
    decreases a.len(),
{
    if a.len() == 0 {
        true
    } else if b.len() == 0 {
        false
    } else if a[0] != b[0] {
        a[0] < b[0]
    } else {
        lex_le(a.drop_first(), b.drop_first())
    }
}

/// Two texts are always comparable.
pub proof fn lemma_lex_total(a: Seq<char>, b: Seq<char>)
    ensures
        lex_le(a, b) || lex_le(b, a),
    decreases a.len(),
{
    if a.len() > 0 && b.len() > 0 && a[0] == b[0] {
        lemma_lex_total(a.drop_first(), b.drop_first());
    }
}

/// The order of texts is transitive.
pub proof fn lemma_lex_transitive(a: Seq<char>, b: Seq<char>, c: Seq<char>)
    requires
        lex_le(a, b),
        lex_le(b, c),
    ensures
        lex_le(a, c),
    decreases a.len(),
{
    if a.len() > 0 && b.len() > 0 && c.len() > 0 && a[0] == b[0] && b[0] == c[0] {
        lemma_lex_transitive(a.drop_first(), b.drop_first(), c.drop_first());
    }
}

/// Two texts that stand in both orders are equal.
pub proof fn lemma_lex_antisymmetric(a: Seq<char>, b: Seq<char>)
    requires
        lex_le(a, b),
        lex_le(b, a),
    ensures
        a == b,
    decreases a.len(),
{
    if a.len() > 0 && b.len() > 0 && a[0] == b[0] {
        lemma_lex_antisymmetric(a.drop_first(), b.drop_first());
        assert(a =~= seq![a[0]] + a.drop_first());
        assert(b =~= seq![b[0]] + b.drop_first());
    }
    assert(a =~= b);
}

/// Whether `a` comes before `b` or equals it.
pub fn text_le(a: &str, b: &str) -> (r: bool)
    ensures
        r == lex_le(a@, b@),
{
    let x = chars_of(a);
    let y = chars_of(b);
    let mut i: usize = 0;
    assert(a@.skip(0) =~= a@);
    assert(b@.skip(0) =~= b@);
    while i < x.len() && i < y.len() && x[i] == y[i]
        invariant
            x@ == a@,
            y@ == b@,
            i <= x@.len(),
            i <= y@.len(),
            lex_le(a@, b@) == lex_le(a@.skip(i as int), b@.skip(i as int)),
        decreases x.len() - i,
    {
        assert(a@.skip(i as int).drop_first() =~= a@.skip(i + 1));
        assert(b@.skip(i as int).drop_first() =~= b@.skip(i + 1));
        i = i + 1;
    }
    if i >= x.len() {
        true
    } else if i >= y.len() {
        false
    } else {
        x[i] < y[i]
    }
}

/// Whether a list of texts stands in order.
pub open spec fn in_order(s: Seq<Seq<char>>) -> bool {
    forall|i: int, j: int| 0 <= i <= j < s.len() ==> lex_le(s[i], s[j])
}

/// `s` with `x` put behind the last text that does not come after it.
pub open spec fn place(s: Seq<Seq<char>>, x: Seq<char>) -> Seq<Seq<char>>
    decreases s.len(),
{
    if s.len() == 0 {
        seq![x]
    } else if lex_le(s.last(), x) {
        s.push(x)
    } else {
        place(s.drop_last(), x).push(s.last())
    }
}

/// The texts of `s` in order.
pub open spec fn sorted(s: Seq<Seq<char>>) -> Seq<Seq<char>>
    decreases s.len(),
{
    if s.len() == 0 {
        seq![]
    } else {
        place(sorted(s.drop_last()), s.last())
    }
}

proof fn lemma_place(s: Seq<Seq<char>>, x: Seq<char>)
    requires
        in_order(s),
    ensures
        in_order(place(s, x)),
        place(s, x).len() == s.len() + 1,
        place(s, x).to_multiset() == s.to_multiset().insert(x),
    decreases s.len(),
{
    broadcast use vstd::seq_lib::group_to_multiset_ensures;

    if s.len() == 0 {
        assert(seq![x] =~= Seq::<Seq<char>>::empty().push(x));
        assert(s =~= Seq::<Seq<char>>::empty());
        lemma_lex_total(x, x);
    } else if lex_le(s.last(), x) {
        assert forall|i: int, j: int| 0 <= i <= j < s.push(x).len() implies lex_le(
            s.push(x)[i],
            s.push(x)[j],
        ) by {
            if j == s.len() {
                lemma_lex_total(x, x);
                if i < s.len() {
                    lemma_lex_transitive(s[i], s.last(), x);
                }
            }
        }
    } else {
        lemma_place(s.drop_last(), x);
        lemma_lex_total(s.last(), x);
        let t = place(s.drop_last(), x);
        assert(s =~= s.drop_last().push(s.last()));
        assert(s.to_multiset() == s.drop_last().to_multiset().insert(s.last()));
        assert(t.push(s.last()).to_multiset() =~= s.to_multiset().insert(x));
        assert forall|i: int| 0 <= i < t.len() implies lex_le(#[trigger] t[i], s.last()) by {
            assert(t.to_multiset().count(t[i]) > 0) by {
                t.to_multiset_ensures();
                assert(t.contains(t[i]));
            }
            if t[i] != x {
                assert(s.drop_last().to_multiset().count(t[i]) > 0);
                s.drop_last().to_multiset_ensures();
                assert(s.drop_last().contains(t[i]));
                let k = choose|k: int| 0 <= k < s.drop_last().len() && s.drop_last()[k] == t[i];
                assert(lex_le(s[k], s[s.len() - 1]));
            }
        }
        lemma_lex_total(s.last(), s.last());
        assert forall|i: int, j: int| 0 <= i <= j < t.push(s.last()).len() implies lex_le(
            t.push(s.last())[i],
            t.push(s.last())[j],
        ) by {
            if j < t.len() {
                assert(lex_le(t[i], t[j]));
            }
        }
    }
}

/// Sorting puts the texts in order, and keeps each as often as it was there.
pub proof fn law_sorted(s: Seq<Seq<char>>)
    ensures
        in_order(sorted(s)),
        sorted(s).len() == s.len(),
        sorted(s).to_multiset() == s.to_multiset(),
    decreases s.len(),
{
    broadcast use vstd::seq_lib::group_to_multiset_ensures;

    if s.len() > 0 {
        law_sorted(s.drop_last());
        lemma_place(sorted(s.drop_last()), s.last());
        assert(s =~= s.drop_last().push(s.last()));
    } else {
        assert(s =~= Seq::<Seq<char>>::empty());
    }
}

/// A text is in the sorted list exactly when it was in the list.
pub proof fn lemma_sorted_contains(s: Seq<Seq<char>>, x: Seq<char>)
    ensures
        sorted(s).contains(x) <==> s.contains(x),
{
    law_sorted(s);
    s.to_multiset_ensures();
    sorted(s).to_multiset_ensures();
    assert(sorted(s).to_multiset().count(x) == s.to_multiset().count(x));
}

/// Sorting a list without duplicates makes none.
pub proof fn lemma_sorted_no_duplicates(s: Seq<Seq<char>>)
    requires
        s.no_duplicates(),
    ensures
        sorted(s).no_duplicates(),
{
    law_sorted(s);
    let t = sorted(s);
    s.lemma_multiset_has_no_duplicates();
    t.to_multiset_ensures();
    s.to_multiset_ensures();
    t.lemma_multiset_has_no_duplicates_conv();
}

/// Whether `ps` lists the texts of `set`, each once and in order.
pub open spec fn is_listing(ps: Seq<Seq<char>>, set: Set<Seq<char>>) -> bool {
    &&& in_order(ps)
    &&& ps.no_duplicates()
    &&& forall|k: Seq<char>| ps.contains(k) <==> set.contains(k)
}

/// The texts of a finite set, each once and in order.
pub open spec fn listing(set: Set<Seq<char>>) -> Seq<Seq<char>> {
    choose|ps: Seq<Seq<char>>| is_listing(ps, set)
}

/// There is one way only to list a set in order.
pub proof fn lemma_listing_unique(a: Seq<Seq<char>>, b: Seq<Seq<char>>, set: Set<Seq<char>>)
    requires
        is_listing(a, set),
        is_listing(b, set),
    ensures
        a == b,
    decreases a.len(),
{
    if a.len() == 0 {
        if b.len() > 0 {
            assert(b.contains(b[0]));
            assert(a.contains(b[0]));
        }
        assert(a =~= b);
    } else {
        assert(a.contains(a.last()));
        assert(b.contains(a.last()));
        let i = choose|i: int| 0 <= i < b.len() && b[i] == a.last();
        assert(b.contains(b.last()));
        assert(a.contains(b.last()));
        let j = choose|j: int| 0 <= j < a.len() && a[j] == b.last();
        assert(lex_le(b[i], b[b.len() - 1]));
        assert(lex_le(a[j], a[a.len() - 1]));
        lemma_lex_antisymmetric(a.last(), b.last());
        let rest = set.remove(a.last());
        lemma_listing_init(a, set);
        lemma_listing_init(b, set);
        lemma_listing_unique(a.drop_last(), b.drop_last(), rest);
        assert(a =~= a.drop_last().push(a.last()));
        assert(b =~= b.drop_last().push(b.last()));
    }
}

proof fn lemma_listing_init(a: Seq<Seq<char>>, set: Set<Seq<char>>)
    requires
        is_listing(a, set),
        a.len() > 0,
    ensures
        is_listing(a.drop_last(), set.remove(a.last())),
{
    let init = a.drop_last();
    assert forall|k: Seq<char>| init.contains(k) <==> set.remove(a.last()).contains(k) by {
        if init.contains(k) {
            let i = choose|i: int| 0 <= i < init.len() && init[i] == k;
            assert(a[i] == k);
            assert(a.contains(k));
            assert(a[i] != a[a.len() - 1]);
        }
        if set.remove(a.last()).contains(k) {
            assert(a.contains(k));
            let i = choose|i: int| 0 <= i < a.len() && a[i] == k;
            assert(init[i] == k);
        }
    }
    assert forall|i: int, j: int| 0 <= i <= j < init.len() implies lex_le(init[i], init[j]) by {
        assert(lex_le(a[i], a[j]));
    }
}

/// A list that is in order and has each text of a set once is its listing.
pub proof fn lemma_listing(ps: Seq<Seq<char>>, set: Set<Seq<char>>)
    requires
        is_listing(ps, set),
    ensures
        listing(set) == ps,
{
    lemma_listing_unique(listing(set), ps, set);
}

/// A finite set can be listed.
pub proof fn lemma_listing_exists(set: Set<Seq<char>>)
    requires
        set.finite(),
    ensures
        is_listing(listing(set), set),
    decreases set.len(),
{
    if set.len() == 0 {
        assert(set =~= Set::<Seq<char>>::empty());
        assert(is_listing(seq![], set));
    } else {
        let a = set.choose();
        let rest = set.remove(a);
        lemma_listing_exists(rest);
        let ps = listing(rest);
        let all = ps.push(a);
        assert(!ps.contains(a));
        assert(all.no_duplicates());
        lemma_sorted_no_duplicates(all);
        law_sorted(all);
        assert forall|k: Seq<char>| sorted(all).contains(k) <==> set.contains(k) by {
            lemma_sorted_contains(all, k);
            if ps.contains(k) {
                let i = choose|i: int| 0 <= i < ps.len() && ps[i] == k;
                assert(all[i] == k);
            }
            assert(all[ps.len() as int] == a);
            if all.contains(k) && k != a {
                let i = choose|i: int| 0 <= i < all.len() && all[i] == k;
                assert(ps[i] == k);
            }
        }
        assert(is_listing(sorted(all), set));
    }
}

proof fn lemma_place_at(s: Seq<Seq<char>>, x: Seq<char>, at: int)
    requires
        0 <= at <= s.len(),
        forall|k: int| at <= k < s.len() ==> !lex_le(#[trigger] s[k], x),
        at > 0 ==> lex_le(s[at - 1], x),
    ensures
        place(s, x) == s.insert(at, x),
    decreases s.len(),
{
    if s.len() == 0 {
        assert(s.insert(at, x) =~= seq![x]);
    } else if at == s.len() {
        assert(s.insert(at, x) =~= s.push(x));
    } else {
        lemma_place_at(s.drop_last(), x, at);
        assert(s.insert(at, x) =~= s.drop_last().insert(at, x).push(s.last()));
    }
}

/// The strings of `v` in order.
pub fn sort_strings(v: Vec<String>) -> (r: Vec<String>)
    ensures
        text::views(r@) == sorted(text::views(v@)),
{
    let mut out: Vec<String> = Vec::new();
    let mut n: usize = 0;
    let ghost all = text::views(v@);
    assert(text::views(out@) =~= sorted(all.take(0)));
    while n < v.len()
        invariant
            n <= v@.len(),
            all == text::views(v@),
            text::views(out@) == sorted(all.take(n as int)),
        decreases v.len() - n,
    {
        let ghost have = text::views(out@);
        let mut at: usize = out.len();
        while at > 0 && !text_le(out[at - 1].as_str(), v[n].as_str())
            invariant
                n < v@.len(),
                all == text::views(v@),
                have == text::views(out@),
                at <= out@.len(),
                forall|k: int| at <= k < have.len() ==> !lex_le(#[trigger] have[k], all[n as int]),
            decreases at,
        {
            at = at - 1;
        }
        out.insert(at, v[n].clone());
        proof {
            lemma_place_at(have, all[n as int], at as int);
            assert(text::views(out@) =~= have.insert(at as int, all[n as int]));
            assert(all.take(n + 1).drop_last() =~= all.take(n as int));
        }
        n = n + 1;
    }
    assert(all.take(all.len() as int) =~= all);
    out
}

// ---------------------------------------------------------------------------
// Maps keyed by paths
// ---------------------------------------------------------------------------

/// A map from paths to values.
pub struct PathMap<V> {
    items: Vec<(String, V)>,
}

/// The map that a list of items makes, a later item replacing an earlier one.
pub open spec fn map_of<V>(items: Seq<(String, V)>) -> Map<Seq<char>, V>
    decreases items.len(),
{
    if items.len() == 0 {
        Map::empty()
    } else {
        map_of(items.drop_last()).insert(items.last().0@, items.last().1)
    }
}

/// Whether no two items have the same key.
pub open spec fn distinct<V>(items: Seq<(String, V)>) -> bool {
    forall|i: int, j: int| 0 <= i < j < items.len() ==> (#[trigger] items[i]).0@ != (
    #[trigger] items[j]).0@
}

/// Whether one of the first `n` items has this key.
pub open spec fn keyed<V>(items: Seq<(String, V)>, n: int, key: Seq<char>) -> bool {
    exists|k: int| 0 <= k < n && (#[trigger] items[k]).0@ == key
}

proof fn lemma_map_of<V>(items: Seq<(String, V)>)
    requires
        distinct(items),
    ensures
        map_of(items).dom().finite(),
        map_of(items).dom().len() == items.len(),
        forall|k: Seq<char>|
            map_of(items).dom().contains(k) <==> exists|i: int|
                0 <= i < items.len() && (#[trigger] items[i]).0@ == k,
        forall|i: int|
            0 <= i < items.len() ==> map_of(items)[(#[trigger] items[i]).0@] == items[i].1,
    decreases items.len(),
{
    if items.len() > 0 {
        let init = items.drop_last();
        lemma_map_of(init);
        assert forall|k: Seq<char>|
            map_of(items).dom().contains(k) <==> exists|i: int|
                0 <= i < items.len() && (#[trigger] items[i]).0@ == k by {
            if map_of(init).dom().contains(k) {
                let i = choose|i: int| 0 <= i < init.len() && (#[trigger] init[i]).0@ == k;
                assert(items[i].0@ == k);
            }
            if k == items.last().0@ {
                assert(items[items.len() - 1].0@ == k);
            }
            if exists|i: int| 0 <= i < items.len() && (#[trigger] items[i]).0@ == k {
                let i = choose|i: int| 0 <= i < items.len() && (#[trigger] items[i]).0@ == k;
                if i < init.len() {
                    assert(init[i].0@ == k);
                }
            }
        }
        assert(!map_of(init).dom().contains(items.last().0@)) by {
            if map_of(init).dom().contains(items.last().0@) {
                let i = choose|i: int|
                    0 <= i < init.len() && (#[trigger] init[i]).0@ == items.last().0@;
                assert(items[i].0@ != items[items.len() - 1].0@);
            }
        }
        assert forall|i: int| 0 <= i < items.len() implies map_of(items)[(
        #[trigger] items[i]).0@] == items[i].1 by {
            if i < init.len() {
                assert(init[i] == items[i]);
                assert(items[i].0@ != items[items.len() - 1].0@);
            }
        }
    }
}

impl<V> View for PathMap<V> {
    type V = Map<Seq<char>, V>;

    closed spec fn view(&self) -> Map<Seq<char>, V> {
        map_of(self.items@)
    }
}

impl<V> PathMap<V> {
    /// Each key occurs once.
    pub closed spec fn wf(self) -> bool {
        distinct(self.items@)
    }

    /// The items in the order in which their keys first came in.
    pub closed spec fn items(self) -> Seq<(String, V)> {
        self.items@
    }

    /// What the items say of the map.
    pub proof fn lemma_items(self)
        requires
            self.wf(),
        ensures
            self@ == map_of(self.items()),
            self@.dom().finite(),
            self@.dom().len() == self.items().len(),
            distinct(self.items()),
            forall|k: Seq<char>|
                #![trigger self@.dom().contains(k)]
                #![trigger keyed(self.items(), self.items().len() as int, k)]
                self@.dom().contains(k) <==> keyed(self.items(), self.items().len() as int, k),
            forall|i: int|
                0 <= i < self.items().len() ==> self@.dom().contains(
                    (#[trigger] self.items()[i]).0@,
                ) && self@[self.items()[i].0@] == self.items()[i].1,
    {
        lemma_map_of(self.items@);
        assert forall|i: int| 0 <= i < self.items().len() implies self@.dom().contains(
            (#[trigger] self.items()[i]).0@,
        ) by {
            assert(self.items@[i].0@ == self.items()[i].0@);
        }
    }

    /// The empty map.
    pub fn new() -> (r: Self)
        ensures
            r.wf(),
            r@ == Map::<Seq<char>, V>::empty(),
            r.items() == Seq::<(String, V)>::empty(),
    {
        PathMap { items: Vec::new() }
    }

    /// How many paths the map holds.
    pub fn len(&self) -> (r: usize)
        requires
            self.wf(),
        ensures
            r == self@.dom().len(),
            r == self.items().len(),
            self@.dom().finite(),
    {
        proof {
            self.lemma_items();
        }
        self.items.len()
    }

    /// Whether the map holds nothing.
    pub fn is_empty(&self) -> (r: bool)
        requires
            self.wf(),
        ensures
            r == (self@ == Map::<Seq<char>, V>::empty()),
    {
        proof {
            self.lemma_items();
            if self.items@.len() == 0 {
                assert(self@ =~= Map::<Seq<char>, V>::empty());
            } else {
                assert(self.items()[0].0@ == self.items@[0].0@);
                assert(self@.dom().contains(self.items()[0].0@));
            }
        }
        self.items.len() == 0
    }

    fn position(&self, path: &str) -> (r: Option<usize>)
        requires
            self.wf(),
        ensures
            match r {
                Some(i) => i < self.items@.len() && self.items@[i as int].0@ == path@
                    && self@.dom().contains(path@) && self@[path@] == self.items@[i as int].1,
                None => !self@.dom().contains(path@),
            },
    {
        proof {
            self.lemma_items();
        }
        let mut i: usize = 0;
        while i < self.items.len()
            invariant
                self.wf(),
                i <= self.items@.len(),
                forall|k: int| 0 <= k < i ==> (#[trigger] self.items@[k]).0@ != path@,
                forall|k: int|
                    0 <= k < self.items().len() ==> self@.dom().contains(
                        (#[trigger] self.items()[k]).0@,
                    ) && self@[self.items()[k].0@] == self.items()[k].1,
                self.items() == self.items@,
            decreases self.items.len() - i,
        {
            if crate::text::str_eq(self.items[i].0.as_str(), path) {
                assert(self@.dom().contains(self.items()[i as int].0@));
                return Some(i);
            }
            i = i + 1;
        }
        proof {
            self.lemma_items();
        }
        None
    }

    /// The value at `path`.
    pub fn get(&self, path: &str) -> (r: Option<&V>)
        requires
            self.wf(),
        ensures
            match r {
                Some(v) => self@.dom().contains(path@) && *v == self@[path@],
                None => !self@.dom().contains(path@),
            },
    {
        match self.position(path) {
            Some(i) => Some(&self.items[i].1),
            None => None,
        }
    }

    /// Whether the map holds `path`.
    pub fn contains_key(&self, path: &str) -> (r: bool)
        requires
            self.wf(),
        ensures
            r == self@.dom().contains(path@),
    {
        self.position(path).is_some()
    }

    /// Puts `v` at `path`, in place of what stood there.
    pub fn insert(&mut self, path: String, v: V)
        requires
            old(self).wf(),
        ensures
            final(self).wf(),
            final(self)@ == old(self)@.insert(path@, v),
            final(self)@.dom().finite(),
            old(self)@.dom().finite(),
            !old(self)@.dom().contains(path@) ==> final(self).items() == old(self).items().push(
                (path, v),
            ),
    {
        let ghost before = self.items@;
        proof {
            self.lemma_items();
        }
        match self.position(path.as_str()) {
            Some(i) => {
                self.items.set(i, (path, v));
                proof {
                    let after = self.items@;
                    assert(after == before.update(i as int, (path, v)));
                    assert forall|a: int, b: int| 0 <= a < b < after.len() implies (
                    #[trigger] after[a]).0@ != (#[trigger] after[b]).0@ by {
                        assert(before[a].0@ != before[b].0@);
                    }
                    lemma_map_of(after);
                    lemma_map_of(before);
                    assert forall|k: Seq<char>|
                        map_of(after).dom().contains(k) == map_of(before).insert(path@, v)
                            .dom().contains(k) by {
                        if map_of(after).dom().contains(k) {
                            let j = choose|j: int|
                                0 <= j < after.len() && (#[trigger] after[j]).0@ == k;
                            assert(before[j].0@ == k);
                        }
                        if map_of(before).dom().contains(k) {
                            let j = choose|j: int|
                                0 <= j < before.len() && (#[trigger] before[j]).0@ == k;
                            assert(after[j].0@ == k);
                        }
                    }
                    assert forall|k: Seq<char>| map_of(after).dom().contains(k) implies map_of(
                        after,
                    )[k] == map_of(before).insert(path@, v)[k] by {
                        let j = choose|j: int| 0 <= j < after.len() && (#[trigger] after[j]).0@ == k;
                        assert(before[j].0@ == k);
                        if j != i {
                            if j < i {
                                assert(before[j].0@ != before[i as int].0@);
                            } else {
                                assert(before[i as int].0@ != before[j].0@);
                            }
                        }
                    }
                    assert(map_of(after) =~= map_of(before).insert(path@, v));
                }
            },
            None => {
                self.items.push((path, v));
                proof {
                    let after = self.items@;
                    assert(after.drop_last() =~= before);
                    assert forall|a: int, b: int| 0 <= a < b < after.len() implies (
                    #[trigger] after[a]).0@ != (#[trigger] after[b]).0@ by {
                        if b == before.len() {
                            assert(before[a].0@ != path@) by {
                                if before[a].0@ == path@ {
                                    assert(map_of(before).dom().contains(path@));
                                }
                            }
                        } else {
                            assert(before[a].0@ != before[b].0@);
                        }
                    }
                    lemma_map_of(after);
                }
            },
        }
    }

    /// The path of item `i`.
    pub fn key(&self, i: usize) -> (r: &String)
        requires
            i < self.items().len(),
        ensures
            *r == self.items()[i as int].0,
    {
        &self.items[i].0
    }

    /// The value of item `i`.
    pub fn value(&self, i: usize) -> (r: &V)
        requires
            i < self.items().len(),
        ensures
            *r == self.items()[i as int].1,
    {
        &self.items[i].1
    }

    /// The paths of the map, in order.
    pub fn sorted_keys(&self) -> (r: Vec<String>)
        requires
            self.wf(),
        ensures
            is_listing(text::views(r@), self@.dom()),
            text::views(r@) == listing(self@.dom()),
            r@.len() == self@.dom().len(),
    {
        let mut keys: Vec<String> = Vec::new();
        let mut i: usize = 0;
        while i < self.items.len()
            invariant
                i <= self.items@.len(),
                keys@.len() == i,
                forall|k: int| 0 <= k < i ==> keys@[k] == (#[trigger] self.items@[k]).0,
            decreases self.items.len() - i,
        {
            keys.push(self.items[i].0.clone());
            i = i + 1;
        }
        let ghost raw = text::views(keys@);
        let r = sort_strings(keys);
        proof {
            self.lemma_items();
            law_sorted(raw);
            assert forall|a: int, b: int| 0 <= a < raw.len() && 0 <= b < raw.len() && a
                != b implies raw[a] != raw[b] by {
                if a < b {
                    assert(self.items()[a].0@ != self.items()[b].0@);
                } else {
                    assert(self.items()[b].0@ != self.items()[a].0@);
                }
            }
            lemma_sorted_no_duplicates(raw);
            assert forall|k: Seq<char>| text::views(r@).contains(k) <==> self@.dom().contains(k) by {
                lemma_sorted_contains(raw, k);
                if raw.contains(k) {
                    let j = choose|j: int| 0 <= j < raw.len() && raw[j] == k;
                    assert(self.items()[j].0@ == self.items@[j].0@);
                }
                if self@.dom().contains(k) {
                    let j = choose|j: int|
                        0 <= j < self.items().len() && (#[trigger] self.items()[j]).0@ == k;
                    assert(self.items@[j].0@ == k);
                    assert(raw[j] == k);
                }
            }
            lemma_listing(text::views(r@), self@.dom());
        }
        r
    }
}

// ---------------------------------------------------------------------------
// Sets of paths
// ---------------------------------------------------------------------------

/// A set of paths.
pub struct PathSet {
    items: Vec<String>,
}

impl View for PathSet {
    type V = Set<Seq<char>>;

    closed spec fn view(&self) -> Set<Seq<char>> {
        text::views(self.items@).to_set()
    }
}

impl PathSet {
    /// Each path is listed once.
    pub closed spec fn wf(self) -> bool {
        text::views(self.items@).no_duplicates()
    }

    /// The empty set.
    pub fn new() -> (r: Self)
        ensures
            r.wf(),
            r@ == Set::<Seq<char>>::empty(),
    {
        let r = PathSet { items: Vec::new() };
        assert(r@ =~= Set::<Seq<char>>::empty());
        r
    }

    /// Whether the set holds `path`.
    pub fn contains(&self, path: &str) -> (r: bool)
        ensures
            r == self@.contains(path@),
    {
        let mut i: usize = 0;
        while i < self.items.len()
            invariant
                i <= self.items@.len(),
                forall|k: int| 0 <= k < i ==> (#[trigger] self.items@[k])@ != path@,
            decreases self.items.len() - i,
        {
            if crate::text::str_eq(self.items[i].as_str(), path) {
                assert(text::views(self.items@)[i as int] == path@);
                return true;
            }
            i = i + 1;
        }
        assert(!text::views(self.items@).contains(path@)) by {
            if text::views(self.items@).contains(path@) {
                let k = choose|k: int|
                    0 <= k < self.items@.len() && text::views(self.items@)[k] == path@;
                assert(self.items@[k]@ == path@);
            }
        }
        false
    }

    /// Adds `path`; tells whether it was not there yet.
    pub fn insert(&mut self, path: String) -> (r: bool)
        requires
            old(self).wf(),
        ensures
            final(self).wf(),
            final(self)@ == old(self)@.insert(path@),
            r == !old(self)@.contains(path@),
    {
        if self.contains(path.as_str()) {
            assert(self@ =~= old(self)@.insert(path@));
            false
        } else {
            let ghost before = text::views(self.items@);
            self.items.push(path);
            proof {
                let after = text::views(self.items@);
                assert(after =~= before.push(path@));
                assert forall|k: Seq<char>| after.contains(k) <==> before.contains(k) || k
                    == path@ by {
                    if before.contains(k) {
                        let j = choose|j: int| 0 <= j < before.len() && before[j] == k;
                        assert(after[j] == k);
                    }
                    assert(after[before.len() as int] == path@);
                    if after.contains(k) && k != path@ {
                        let j = choose|j: int| 0 <= j < after.len() && after[j] == k;
                        assert(before[j] == k);
                    }
                }
                assert(self@ =~= old(self)@.insert(path@));
            }
            true
        }
    }

    /// Whether the set is empty.
    pub fn is_empty(&self) -> (r: bool)
        ensures
            r == (self@ == Set::<Seq<char>>::empty()),
    {
        proof {
            if self.items@.len() == 0 {
                assert(self@ =~= Set::<Seq<char>>::empty());
            } else {
                assert(text::views(self.items@)[0] == self.items@[0]@);
                assert(self@.contains(self.items@[0]@));
            }
        }
        self.items.len() == 0
    }

    /// The paths of the set, each once, in order.
    pub fn sorted(&self) -> (r: Vec<String>)
        requires
            self.wf(),
        ensures
            is_listing(text::views(r@), self@),
            text::views(r@) == listing(self@),
    {
        let r = sort_strings(crate::text::copy_strings(&self.items));
        proof {
            law_sorted(text::views(self.items@));
            lemma_sorted_no_duplicates(text::views(self.items@));
            assert forall|k: Seq<char>| text::views(r@).contains(k) <==> self@.contains(k) by {
                lemma_sorted_contains(text::views(self.items@), k);
            }
            lemma_listing(text::views(r@), self@);
        }
        r
    }
}

} // verus!
