//! A map keyed by strings, kept sorted by key.
use vstd::prelude::*;

use crate::text::to_chars;

verus! {

/// `a` comes strictly before `b` in lexicographic order of code points
/// (the order of `str`'s `Ord`).
pub open spec fn seq_lt(a: Seq<char>, b: Seq<char>) -> bool
    decreases a.len(),
{
    if b.len() == 0 {
        false
    } else if a.len() == 0 {
        true
    } else if (a[0] as int) < (b[0] as int) {
        true
    } else if (a[0] as int) > (b[0] as int) {
        false
    } else {
        seq_lt(a.drop_first(), b.drop_first())
    }
}

pub proof fn lemma_seq_lt_irrefl(a: Seq<char>)
    ensures
        !seq_lt(a, a),
    decreases a.len(),
{
    if a.len() > 0 {
        lemma_seq_lt_irrefl(a.drop_first());
    }
}

pub proof fn lemma_seq_lt_total(a: Seq<char>, b: Seq<char>)
    ensures
        a == b || seq_lt(a, b) || seq_lt(b, a),
        !(seq_lt(a, b) && seq_lt(b, a)),
    decreases a.len(),
{
    if a.len() > 0 && b.len() > 0 {
        lemma_seq_lt_total(a.drop_first(), b.drop_first());
        if (a[0] as int) == (b[0] as int) && a.drop_first() == b.drop_first() {
            assert(a =~= seq![a[0]] + a.drop_first());
            assert(b =~= seq![b[0]] + b.drop_first());
        }
    } else if a.len() == 0 && b.len() == 0 {
        assert(a =~= b);
    }
}

pub proof fn lemma_seq_lt_trans(a: Seq<char>, b: Seq<char>, c: Seq<char>)
    requires
        seq_lt(a, b),
        seq_lt(b, c),
    ensures
        seq_lt(a, c),
    decreases a.len(),
{
    if a.len() > 0 && b.len() > 0 && c.len() > 0 {
        if (a[0] as int) == (b[0] as int) && (b[0] as int) == (c[0] as int) {
            lemma_seq_lt_trans(a.drop_first(), b.drop_first(), c.drop_first());
        }
    }
}

/// `a` and `b` first differ at position `k` in `a`'s favour: they agree before `k`, and
/// either `a` ends there while `b` goes on, or `a`'s character there is the smaller.
pub open spec fn first_difference_favours(a: Seq<char>, b: Seq<char>, k: int) -> bool {
    &&& 0 <= k <= a.len()
    &&& k < b.len()
    &&& a.take(k) == b.take(k)
    &&& (k == a.len() || (a[k] as int) < (b[k] as int))
}

/// The order of keys is the lexicographic order of `str`: `a` comes before `b` exactly
/// when, at the first position where they differ, `a` has the smaller character or has
/// already ended.
pub proof fn law_seq_lt_is_lexicographic(a: Seq<char>, b: Seq<char>)
    ensures
        seq_lt(a, b) <==> exists|k: int| first_difference_favours(a, b, k),
    decreases a.len(),
{
    if b.len() == 0 {
    } else if a.len() == 0 {
        assert(a.take(0) =~= b.take(0));
        assert(first_difference_favours(a, b, 0));
    } else if (a[0] as int) < (b[0] as int) {
        assert(a.take(0) =~= b.take(0));
        assert(first_difference_favours(a, b, 0));
    } else if (a[0] as int) > (b[0] as int) {
        assert forall|k: int| !first_difference_favours(a, b, k) by {
            if first_difference_favours(a, b, k) && k > 0 {
                assert(a.take(k)[0] == b.take(k)[0]);
            }
        }
    } else {
        let a1 = a.drop_first();
        let b1 = b.drop_first();
        law_seq_lt_is_lexicographic(a1, b1);
        if seq_lt(a, b) {
            let k1 = choose|k: int| first_difference_favours(a1, b1, k);
            assert(a.take(k1 + 1) =~= seq![a[0]] + a1.take(k1));
            assert(b.take(k1 + 1) =~= seq![b[0]] + b1.take(k1));
            assert(a[0] == b[0]);
            if k1 < a1.len() {
                assert(a[k1 + 1] == a1[k1]);
                assert(b[k1 + 1] == b1[k1]);
            }
            assert(first_difference_favours(a, b, k1 + 1));
        }
        if exists|k: int| first_difference_favours(a, b, k) {
            let k = choose|k: int| first_difference_favours(a, b, k);
            assert(k > 0);
            assert(a1.take(k - 1) =~= a.take(k).drop_first());
            assert(b1.take(k - 1) =~= b.take(k).drop_first());
            if k < a.len() {
                assert(a1[k - 1] == a[k]);
                assert(b1[k - 1] == b[k]);
            }
            assert(first_difference_favours(a1, b1, k - 1));
        }
    }
}

/// A proper prefix comes first: `a` is before every longer string that starts with it.
pub proof fn law_prefix_comes_first(a: Seq<char>, b: Seq<char>)
    requires
        b.len() > 0,
    ensures
        seq_lt(a, a + b),
{
    assert((a + b).take(a.len() as int) =~= a.take(a.len() as int));
    assert(first_difference_favours(a, a + b, a.len() as int));
    law_seq_lt_is_lexicographic(a, a + b);
}

/// Keys strictly increasing.
pub open spec fn sorted_keys<V>(s: Seq<(String, V)>) -> bool {
    forall|i: int, j: int| 0 <= i < j < s.len() ==> seq_lt(#[trigger] s[i].0@, #[trigger] s[j].0@)
}

/// The map that the entries describe (a later entry for a key wins).
pub open spec fn entries_map<V>(s: Seq<(String, V)>) -> Map<Seq<char>, V>
    decreases s.len(),
{
    if s.len() == 0 {
        Map::empty()
    } else {
        entries_map(s.drop_last()).insert(s.last().0@, s.last().1)
    }
}

/// No key occurs twice.
pub open spec fn unique_keys<V>(s: Seq<(String, V)>) -> bool {
    forall|i: int, j: int| 0 <= i < s.len() && 0 <= j < s.len() && i != j ==> #[trigger] s[i].0@ != #[trigger] s[j].0@
}

pub proof fn lemma_sorted_unique<V>(s: Seq<(String, V)>)
    requires
        sorted_keys(s),
    ensures
        unique_keys(s),
{
    assert forall|i: int, j: int| 0 <= i < s.len() && 0 <= j < s.len() && i != j implies #[trigger] s[i].0@ != #[trigger] s[j].0@ by {
        if i < j {
            assert(seq_lt(s[i].0@, s[j].0@));
        } else {
            assert(seq_lt(s[j].0@, s[i].0@));
        }
        lemma_seq_lt_irrefl(s[i].0@);
    }
}

pub proof fn lemma_entries_lookup<V>(s: Seq<(String, V)>, k: Seq<char>)
    requires
        unique_keys(s),
    ensures
        entries_map(s).dom().contains(k) <==> exists|i: int| 0 <= i < s.len() && #[trigger] s[i].0@ == k,
        forall|i: int| 0 <= i < s.len() && #[trigger] s[i].0@ == k ==> entries_map(s)[k] == s[i].1,
    decreases s.len(),
{
    if s.len() > 0 {
        let t = s.drop_last();
        assert(unique_keys(t));
        lemma_entries_lookup(t, k);
        if entries_map(s).dom().contains(k) && s.last().0@ != k {
            let i = choose|i: int| 0 <= i < t.len() && #[trigger] t[i].0@ == k;
            assert(s[i].0@ == k);
        }
        assert forall|i: int| 0 <= i < s.len() && #[trigger] s[i].0@ == k implies entries_map(s)[k] == s[i].1 by {
            if i < s.len() - 1 {
                assert(t[i] == s[i]);
                assert(s.last().0@ != k);
            }
        }
        if exists|i: int| 0 <= i < s.len() && #[trigger] s[i].0@ == k {
            let i = choose|i: int| 0 <= i < s.len() && #[trigger] s[i].0@ == k;
            if i < s.len() - 1 {
                assert(t[i] == s[i]);
            }
        }
    }
}

pub proof fn lemma_entries_update<V>(s: Seq<(String, V)>, i: int, key: String, v: V)
    requires
        unique_keys(s),
        0 <= i < s.len(),
        s[i].0@ == key@,
    ensures
        entries_map(s.update(i, (key, v))) == entries_map(s).insert(key@, v),
    decreases s.len(),
{
    let u = s.update(i, (key, v));
    if i == s.len() - 1 {
        assert(u.drop_last() =~= s.drop_last());
    } else {
        let t = s.drop_last();
        assert(unique_keys(t));
        lemma_entries_update(t, i, key, v);
        assert(u.drop_last() =~= t.update(i, (key, v)));
        assert(s.last().0@ != key@);
        assert(entries_map(u) =~= entries_map(s).insert(key@, v));
    }
}

pub proof fn lemma_entries_insert<V>(s: Seq<(String, V)>, i: int, key: String, v: V)
    requires
        0 <= i <= s.len(),
        forall|j: int| 0 <= j < s.len() ==> #[trigger] s[j].0@ != key@,
    ensures
        entries_map(s.insert(i, (key, v))) == entries_map(s).insert(key@, v),
    decreases s.len(),
{
    let u = s.insert(i, (key, v));
    if i == s.len() {
        assert(u.drop_last() =~= s);
    } else {
        let t = s.drop_last();
        lemma_entries_insert(t, i, key, v);
        assert(u.drop_last() =~= t.insert(i, (key, v)));
        assert(s.last().0@ != key@);
        assert(entries_map(u) =~= entries_map(s).insert(key@, v));
    }
}

pub proof fn lemma_entries_remove<V>(s: Seq<(String, V)>, i: int)
    requires
        unique_keys(s),
        0 <= i < s.len(),
    ensures
        entries_map(s.remove(i)) == entries_map(s).remove(s[i].0@),
    decreases s.len(),
{
    let u = s.remove(i);
    let k = s[i].0@;
    let t = s.drop_last();
    assert(unique_keys(t));
    if i == s.len() - 1 {
        assert(u =~= t);
        lemma_entries_lookup(t, k);
        assert(!entries_map(t).dom().contains(k)) by {
            if entries_map(t).dom().contains(k) {
                let j = choose|j: int| 0 <= j < t.len() && #[trigger] t[j].0@ == k;
                assert(s[j].0@ == k);
            }
        }
        assert(entries_map(s).remove(k) =~= entries_map(t));
    } else {
        lemma_entries_remove(t, i);
        assert(u.drop_last() =~= t.remove(i));
        assert(u.last() == s.last());
        assert(s.last().0@ != k);
        assert(entries_map(u) =~= entries_map(s).remove(k));
    }
}

/// Whether `a` comes strictly before `b`.
pub fn chars_less(a: &Vec<char>, b: &Vec<char>) -> (r: bool)
    ensures
        r == seq_lt(a@, b@),
{
    let mut i: usize = 0;
    assert(a@.skip(0) =~= a@);
    assert(b@.skip(0) =~= b@);
    while i < a.len() && i < b.len()
        invariant
            i <= a.len(),
            i <= b.len(),
            seq_lt(a@, b@) == seq_lt(a@.skip(i as int), b@.skip(i as int)),
        decreases a.len() - i,
    {
        let x = a[i];
        let y = b[i];
        assert(a@.skip(i as int)[0] == a@[i as int]);
        assert(b@.skip(i as int)[0] == b@[i as int]);
        if x < y {
            return true;
        }
        if x > y {
            return false;
        }
        assert(a@.skip(i as int).drop_first() =~= a@.skip(i + 1));
        assert(b@.skip(i as int).drop_first() =~= b@.skip(i + 1));
        i = i + 1;
    }
    i < b.len()
}

/// Entries with distinct keys, in increasing key order.
pub struct StrMap<V> {
    entries: Vec<(String, V)>,
}

impl<V> StrMap<V> {
    /// The entries, in increasing key order.
    pub closed spec fn entries_seq(&self) -> Seq<(String, V)> {
        self.entries@
    }

    /// The map that this value holds.
    pub open spec fn map(&self) -> Map<Seq<char>, V> {
        entries_map(self.entries_seq())
    }

    #[verifier::type_invariant]
    closed spec fn inv(&self) -> bool {
        sorted_keys(self.entries@)
    }

    /// An empty map.
    pub fn new() -> (m: Self)
        ensures
            m.map() == Map::<Seq<char>, V>::empty(),
            m.entries_seq().len() == 0,
    {
        let m = StrMap { entries: Vec::new() };
        assert(m.map() =~= Map::<Seq<char>, V>::empty());
        m
    }

    /// The position of `key`, or where it would go.
    fn find(&self, key: &Vec<char>) -> (r: (usize, bool))
        ensures
            r.0 <= self.entries_seq().len(),
            forall|j: int| 0 <= j < r.0 ==> seq_lt(#[trigger] self.entries_seq()[j].0@, key@),
            r.1 ==> r.0 < self.entries_seq().len() && self.entries_seq()[r.0 as int].0@ == key@,
            !r.1 ==> forall|j: int| r.0 <= j < self.entries_seq().len() ==> seq_lt(key@, #[trigger] self.entries_seq()[j].0@),
    {
        proof { use_type_invariant(self); }
        let mut i: usize = 0;
        while i < self.entries.len()
            invariant
                i <= self.entries.len(),
                sorted_keys(self.entries@),
                forall|j: int| 0 <= j < i ==> seq_lt(#[trigger] self.entries@[j].0@, key@),
            decreases self.entries.len() - i,
        {
            let k = to_chars(self.entries[i].0.as_str());
            if !chars_less(&k, key) {
                proof { lemma_seq_lt_total(k@, key@); }
                if chars_less(key, &k) {
                    assert forall|j: int| i <= j < self.entries@.len() implies seq_lt(key@, #[trigger] self.entries@[j].0@) by {
                        if j > i {
                            assert(seq_lt(self.entries@[i as int].0@, self.entries@[j].0@));
                            lemma_seq_lt_trans(key@, k@, self.entries@[j].0@);
                        }
                    }
                    return (i, false);
                } else {
                    return (i, true);
                }
            }
            i = i + 1;
        }
        (i, false)
    }

    /// The value stored for `key`.
    pub fn get(&self, key: &str) -> (r: Option<&V>)
        ensures
            match r {
                Some(v) => self.map().dom().contains(key@) && self.map()[key@] == *v,
                None => !self.map().dom().contains(key@),
            },
    {
        proof { use_type_invariant(&*self); lemma_sorted_entries(self.entries@); }
        let k = to_chars(key);
        let (i, found) = self.find(&k);
        if found {
            Some(&self.entries[i].1)
        } else {
            proof {
                assert forall|j: int| 0 <= j < self.entries_seq().len() implies #[trigger] self.entries_seq()[j].0@ != key@ by {
                    if j < i {
                        lemma_seq_lt_irrefl(key@);
                    } else {
                        lemma_seq_lt_irrefl(key@);
                    }
                }
            }
            None
        }
    }

    /// Sets the value for `key`, replacing any earlier one.
    pub fn insert(&mut self, key: String, value: V)
        ensures
            final(self).map() == old(self).map().insert(key@, value),
    {
        proof { use_type_invariant(&*self); lemma_sorted_entries(self.entries@); }
        let k = to_chars(key.as_str());
        let (i, found) = self.find(&k);
        let ghost s = self.entries@;
        if found {
            proof { lemma_entries_update(s, i as int, key, value); }
            let mut e: Vec<(String, V)> = Vec::new();
            std::mem::swap(&mut e, &mut self.entries);
            e.set(i, (key, value));
            assert(e@ =~= s.update(i as int, (key, value)));
            proof {
                let u = e@;
                assert forall|a: int, b: int| 0 <= a < b < u.len() implies seq_lt(#[trigger] u[a].0@, #[trigger] u[b].0@) by {
                    assert(s[a].0@ == u[a].0@ && s[b].0@ == u[b].0@);
                }
            }
            self.entries = e;
        } else {
            proof {
                assert forall|j: int| 0 <= j < s.len() implies #[trigger] s[j].0@ != key@ by {
                    lemma_seq_lt_irrefl(key@);
                }
                lemma_entries_insert(s, i as int, key, value);
                let u = s.insert(i as int, (key, value));
                assert forall|a: int, b: int| 0 <= a < b < u.len() implies seq_lt(#[trigger] u[a].0@, #[trigger] u[b].0@) by {
                    if b < i {
                    } else if a < i && b == i {
                    } else if a < i {
                        lemma_seq_lt_trans(u[a].0@, key@, u[b].0@);
                    } else if a == i {
                    } else {
                        assert(u[a] == s[a - 1] && u[b] == s[b - 1]);
                    }
                }
            }
            let mut e: Vec<(String, V)> = Vec::new();
            std::mem::swap(&mut e, &mut self.entries);
            e.insert(i, (key, value));
            self.entries = e;
        }
    }

    /// Removes `key`; the map is unchanged when it is absent.
    pub fn remove(&mut self, key: &str)
        ensures
            final(self).map() == old(self).map().remove(key@),
    {
        proof { use_type_invariant(&*self); lemma_sorted_entries(self.entries@); }
        let k = to_chars(key);
        let (i, found) = self.find(&k);
        if found {
            let ghost s = self.entries@;
            proof {
                lemma_entries_remove(s, i as int);
                let u = s.remove(i as int);
                assert forall|a: int, b: int| 0 <= a < b < u.len() implies seq_lt(#[trigger] u[a].0@, #[trigger] u[b].0@) by {
                    if a < i && b >= i {
                        assert(u[b] == s[b + 1]);
                    } else if a >= i {
                        assert(u[a] == s[a + 1] && u[b] == s[b + 1]);
                    }
                }
            }
            let mut e: Vec<(String, V)> = Vec::new();
            std::mem::swap(&mut e, &mut self.entries);
            e.remove(i);
            self.entries = e;
        } else {
            proof {
                assert forall|j: int| 0 <= j < self.entries_seq().len() implies #[trigger] self.entries_seq()[j].0@ != key@ by {
                    lemma_seq_lt_irrefl(key@);
                }
                assert(!self.map().dom().contains(key@));
                assert(self.map().remove(key@) =~= self.map());
            }
        }
    }

    /// The number of keys.
    pub fn len(&self) -> (n: usize)
        ensures
            n == self.map().dom().len(),
            n == self.entries_seq().len(),
    {
        proof { use_type_invariant(&*self); lemma_sorted_entries(self.entries@); }
        self.entries.len()
    }

    /// The key and value at position `i` in key order.
    pub fn entry(&self, i: usize) -> (r: (&String, &V))
        requires
            i < self.entries_seq().len(),
        ensures
            *r.0 == self.entries_seq()[i as int].0,
            *r.1 == self.entries_seq()[i as int].1,
    {
        (&self.entries[i].0, &self.entries[i].1)
    }

}

/// The entries of a string-to-string map as plain pairs.
pub open spec fn pairs_view(e: Seq<(String, String)>) -> Seq<(Seq<char>, Seq<char>)> {
    e.map_values(|p: (String, String)| (p.0@, p.1@))
}

/// `e` lists `m` in strictly increasing key order, each key once.
pub open spec fn lists_sorted(e: Seq<(Seq<char>, Seq<char>)>, m: Map<Seq<char>, Seq<char>>) -> bool {
    &&& forall|i: int, j: int| 0 <= i < j < e.len() ==> seq_lt(#[trigger] e[i].0, #[trigger] e[j].0)
    &&& forall|i: int| 0 <= i < e.len() ==> m.dom().contains(#[trigger] e[i].0) && m[e[i].0] == e[i].1
    &&& m.dom().finite()
    &&& e.len() == m.dom().len()
}

impl StrMap<String> {
    /// All entries as pairs, in increasing key order.
    pub fn pairs(&self) -> (r: Vec<(String, String)>)
        ensures
            lists_sorted(pairs_view(r@), self.map().map_values(|v: String| v@)),
    {
        proof { use_type_invariant(&*self); lemma_sorted_entries(self.entries@); }
        let mut r: Vec<(String, String)> = Vec::new();
        let mut i: usize = 0;
        while i < self.entries.len()
            invariant
                i <= self.entries.len(),
                r.len() == i,
                forall|j: int| 0 <= j < i ==> (#[trigger] r@[j]).0@ == self.entries@[j].0@ && r@[j].1@ == self.entries@[j].1@,
            decreases self.entries.len() - i,
        {
            r.push((self.entries[i].0.clone(), self.entries[i].1.clone()));
            i = i + 1;
        }
        proof {
            let e = pairs_view(r@);
            let m = self.map().map_values(|v: String| v@);
            assert forall|a: int, b: int| 0 <= a < b < e.len() implies seq_lt(#[trigger] e[a].0, #[trigger] e[b].0) by {
                assert(e[a].0 == self.entries@[a].0@);
                assert(e[b].0 == self.entries@[b].0@);
            }
            assert forall|a: int| 0 <= a < e.len() implies m.dom().contains(#[trigger] e[a].0) && m[e[a].0] == e[a].1 by {
                assert(e[a].0 == self.entries@[a].0@);
                assert(self.map()[self.entries@[a].0@] == self.entries@[a].1);
            }
            assert(m.dom() =~= self.map().dom());
        }
        r
    }
}

pub proof fn lemma_sorted_entries<V>(s: Seq<(String, V)>)
    requires
        sorted_keys(s),
    ensures
        unique_keys(s),
        forall|k: Seq<char>| entries_map(s).dom().contains(k) <==>
            exists|i: int| 0 <= i < s.len() && #[trigger] s[i].0@ == k,
        forall|i: int| 0 <= i < s.len() ==> #[trigger] entries_map(s)[s[i].0@] == s[i].1,
        entries_map(s).dom().finite(),
        entries_map(s).dom().len() == s.len(),
{
    lemma_sorted_unique(s);
    assert forall|k: Seq<char>| entries_map(s).dom().contains(k) <==>
        exists|i: int| 0 <= i < s.len() && #[trigger] s[i].0@ == k by {
        lemma_entries_lookup(s, k);
    }
    assert forall|i: int| 0 <= i < s.len() implies #[trigger] entries_map(s)[s[i].0@] == s[i].1 by {
        lemma_entries_lookup(s, s[i].0@);
    }
    lemma_entries_card(s);
}

pub proof fn lemma_entries_card<V>(s: Seq<(String, V)>)
    requires
        unique_keys(s),
    ensures
        entries_map(s).dom().finite(),
        entries_map(s).dom().len() == s.len(),
    decreases s.len(),
{
    if s.len() > 0 {
        let t = s.drop_last();
        assert(unique_keys(t));
        lemma_entries_card(t);
        lemma_entries_lookup(t, s.last().0@);
        assert(!entries_map(t).dom().contains(s.last().0@)) by {
            if entries_map(t).dom().contains(s.last().0@) {
                let j = choose|j: int| 0 <= j < t.len() && #[trigger] t[j].0@ == s.last().0@;
                assert(s[j].0@ == s.last().0@);
            }
        }
    }
}

} // verus!
