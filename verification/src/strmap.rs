//! An ordered map from strings to values, iterated in key order.
//!
//! Keys are kept strictly increasing in the order of `String` (`lex_lt`), so the
//! map's iteration order is determined by its contents alone.
use vstd::prelude::*;

use crate::text::{
    chars_of, lemma_lex_asymmetric, lemma_lex_irreflexive, lemma_lex_total,
    lemma_lex_transitive, lex_less, lex_lt, seq_eq,
};

verus! {

/// A value whose copy has the same view.
pub trait ViewClone: View + Sized {
    fn view_clone(&self) -> (r: Self)
        ensures
            r@ == self@,
    ;
}

impl ViewClone for String {
    fn view_clone(&self) -> (r: String) {
        self.clone()
    }
}

impl ViewClone for usize {
    fn view_clone(&self) -> (r: usize) {
        *self
    }
}

impl ViewClone for bool {
    fn view_clone(&self) -> (r: bool) {
        *self
    }
}

/// Keys strictly increasing.
pub open spec fn sorted_keys<V>(e: Seq<(String, V)>) -> bool {
    forall|i: int, j: int| 0 <= i < j < e.len() ==> lex_lt(#[trigger] e[i].0@, #[trigger] e[j].0@)
}

/// `k` is the key of some entry.
pub open spec fn has_key<V>(e: Seq<(String, V)>, k: Seq<char>) -> bool {
    exists|i: int| 0 <= i < e.len() && #[trigger] e[i].0@ == k
}

/// The position of key `k`.
pub open spec fn index_of_key<V>(e: Seq<(String, V)>, k: Seq<char>) -> int {
    choose|i: int| 0 <= i < e.len() && #[trigger] e[i].0@ == k
}

/// The map that a sequence of entries stands for.
pub open spec fn map_of<V: View>(e: Seq<(String, V)>) -> Map<Seq<char>, V::V> {
    Map::new(|k: Seq<char>| has_key(e, k), |k: Seq<char>| e[index_of_key(e, k)].1@)
}

/// The keys in their order.
pub open spec fn keys_of<V>(e: Seq<(String, V)>) -> Seq<Seq<char>> {
    e.map_values(|p: (String, V)| p.0@)
}

/// An ordered string-keyed map.
pub struct StrMap<V> {
    entries: Vec<(String, V)>,
}

impl<V> StrMap<V> {
    #[verifier::type_invariant]
    spec fn inv(self) -> bool {
        sorted_keys(self.entries@)
    }

    /// The entries in key order.
    pub closed spec fn entry_seq(self) -> Seq<(String, V)> {
        self.entries@
    }

    /// The keys in increasing order.
    pub open spec fn key_seq(self) -> Seq<Seq<char>> {
        keys_of(self.entry_seq())
    }
}

impl<V: View> View for StrMap<V> {
    type V = Map<Seq<char>, V::V>;

    open spec fn view(&self) -> Map<Seq<char>, V::V> {
        map_of(self.entry_seq())
    }
}

/// Strictly increasing strings.
pub open spec fn strictly_sorted(s: Seq<Seq<char>>) -> bool {
    forall|i: int, j: int| 0 <= i < j < s.len() ==> lex_lt(#[trigger] s[i], #[trigger] s[j])
}

/// The keys of a finite map in increasing order: the order in which a [`StrMap`]
/// holding that map visits its entries.
pub open spec fn ordered_keys<V>(m: Map<Seq<char>, V>) -> Seq<Seq<char>> {
    choose|s: Seq<Seq<char>>|
        strictly_sorted(s) && forall|k: Seq<char>| #[trigger] s.contains(k) <==> m.contains_key(k)
}

/// Two strictly increasing sequences with the same elements are equal.
pub proof fn lemma_sorted_unique(a: Seq<Seq<char>>, b: Seq<Seq<char>>)
    requires
        strictly_sorted(a),
        strictly_sorted(b),
        forall|k: Seq<char>| #[trigger] a.contains(k) <==> b.contains(k),
    ensures
        a == b,
    decreases a.len(),
{
    if a.len() == 0 {
        if b.len() > 0 {
            assert(b.contains(b[0]));
            assert(a.contains(b[0]));
        }
        assert(a =~= b);
    } else {
        assert(a.contains(a[0]));
        assert(b.contains(a[0]));
        assert(b.len() > 0);
        assert(b.contains(b[0]));
        assert(a.contains(b[0]));
        let ia = choose|i: int| 0 <= i < a.len() && a[i] == b[0];
        let ib = choose|i: int| 0 <= i < b.len() && b[i] == a[0];
        if ia > 0 {
            assert(lex_lt(a[0], a[ia]));
            if ib > 0 {
                assert(lex_lt(b[0], b[ib]));
                lemma_lex_transitive(a[0], b[0], a[0]);
                lemma_lex_irreflexive(a[0]);
            }
        }
        assert(a[0] == b[0]);
        let a1 = a.drop_first();
        let b1 = b.drop_first();
        assert forall|k: Seq<char>| #[trigger] a1.contains(k) <==> b1.contains(k) by {
            if a1.contains(k) {
                let i = choose|i: int| 0 <= i < a1.len() && a1[i] == k;
                assert(a[i + 1] == k);
                assert(lex_lt(a[0], a[i + 1]));
                lemma_lex_irreflexive(k);
                assert(a.contains(k));
                assert(b.contains(k));
                let j = choose|j: int| 0 <= j < b.len() && b[j] == k;
                assert(j != 0);
                assert(b1[j - 1] == k);
            }
            if b1.contains(k) {
                let i = choose|i: int| 0 <= i < b1.len() && b1[i] == k;
                assert(b[i + 1] == k);
                assert(lex_lt(b[0], b[i + 1]));
                lemma_lex_irreflexive(k);
                assert(b.contains(k));
                assert(a.contains(k));
                let j = choose|j: int| 0 <= j < a.len() && a[j] == k;
                assert(j != 0);
                assert(a1[j - 1] == k);
            }
        }
        assert forall|i: int, j: int| 0 <= i < j < a1.len() implies lex_lt(
            #[trigger] a1[i],
            #[trigger] a1[j],
        ) by {
            assert(a1[i] == a[i + 1] && a1[j] == a[j + 1]);
        }
        assert forall|i: int, j: int| 0 <= i < j < b1.len() implies lex_lt(
            #[trigger] b1[i],
            #[trigger] b1[j],
        ) by {
            assert(b1[i] == b[i + 1] && b1[j] == b[j + 1]);
        }
        lemma_sorted_unique(a1, b1);
        assert(a =~= seq![a[0]] + a1);
        assert(b =~= seq![b[0]] + b1);
    }
}

/// The first position in a strictly increasing sequence whose element is not below `x`.
pub open spec fn first_not_below(s: Seq<Seq<char>>, x: Seq<char>, i: int) -> int
    decreases s.len() - i,
{
    if i < 0 || i >= s.len() {
        s.len() as int
    } else if !lex_lt(s[i], x) {
        i
    } else {
        first_not_below(s, x, i + 1)
    }
}

proof fn lemma_first_not_below(s: Seq<Seq<char>>, x: Seq<char>, i: int)
    requires
        0 <= i <= s.len(),
        forall|j: int| 0 <= j < i ==> lex_lt(#[trigger] s[j], x),
    ensures
        ({
            let p = first_not_below(s, x, i);
            &&& i <= p <= s.len()
            &&& forall|j: int| 0 <= j < p ==> lex_lt(#[trigger] s[j], x)
            &&& p < s.len() ==> !lex_lt(s[p], x)
        }),
    decreases s.len() - i,
{
    if i < s.len() && lex_lt(s[i], x) {
        lemma_first_not_below(s, x, i + 1);
    }
}

/// A finite set of strings has a strictly increasing enumeration.
pub proof fn lemma_sorted_enumeration(d: Set<Seq<char>>) -> (s: Seq<Seq<char>>)
    requires
        d.finite(),
    ensures
        strictly_sorted(s),
        forall|k: Seq<char>| #[trigger] s.contains(k) <==> d.contains(k),
    decreases d.len(),
{
    if d.len() == 0 {
        d.lemma_len0_is_empty();
        Seq::empty()
    } else {
        let x = d.choose();
        let s0 = lemma_sorted_enumeration(d.remove(x));
        lemma_first_not_below(s0, x, 0);
        let p = first_not_below(s0, x, 0);
        let s = s0.take(p) + seq![x] + s0.skip(p);
        assert(!s0.contains(x));
        if p < s0.len() {
            lemma_lex_total(s0[p], x);
            assert(s0.contains(s0[p]));
            assert(lex_lt(x, s0[p]));
        }
        assert forall|i: int, j: int| 0 <= i < j < s.len() implies lex_lt(
            #[trigger] s[i],
            #[trigger] s[j],
        ) by {
            if j < p {
                assert(s[i] == s0[i] && s[j] == s0[j]);
            } else if j == p {
                assert(s[i] == s0[i] && s[j] == x);
            } else if i < p {
                assert(s[i] == s0[i] && s[j] == s0[j - 1]);
                assert(lex_lt(s0[i], x));
                if j - 1 > p {
                    assert(lex_lt(s0[p], s0[j - 1]));
                    lemma_lex_transitive(x, s0[p], s0[j - 1]);
                }
                lemma_lex_transitive(s0[i], x, s0[j - 1]);
            } else if i == p {
                assert(s[i] == x && s[j] == s0[j - 1]);
                if j - 1 > p {
                    assert(lex_lt(s0[p], s0[j - 1]));
                    lemma_lex_transitive(x, s0[p], s0[j - 1]);
                }
            } else {
                assert(s[i] == s0[i - 1] && s[j] == s0[j - 1]);
            }
        }
        assert forall|k: Seq<char>| #[trigger] s.contains(k) <==> d.contains(k) by {
            if s.contains(k) {
                let i = choose|i: int| 0 <= i < s.len() && s[i] == k;
                if i < p {
                    assert(s0[i] == k);
                    assert(s0.contains(k));
                } else if i > p {
                    assert(s0[i - 1] == k);
                    assert(s0.contains(k));
                }
            }
            if d.contains(k) {
                if k == x {
                    assert(s[p] == x);
                } else {
                    assert(d.remove(x).contains(k));
                    assert(s0.contains(k));
                    let i = choose|i: int| 0 <= i < s0.len() && s0[i] == k;
                    if i < p {
                        assert(s[i] == k);
                    } else {
                        assert(s[i + 1] == k);
                    }
                }
            }
        }
        s
    }
}

/// The keys of a finite map, in increasing order.
pub proof fn lemma_ordered_keys<V>(m: Map<Seq<char>, V>)
    requires
        m.dom().finite(),
    ensures
        strictly_sorted(ordered_keys(m)),
        forall|k: Seq<char>| #[trigger] ordered_keys(m).contains(k) <==> m.contains_key(k),
{
    let s = lemma_sorted_enumeration(m.dom());
    assert(strictly_sorted(s) && forall|k: Seq<char>| #[trigger] s.contains(k) <==> m.contains_key(k));
}

pub proof fn lemma_sorted_distinct<V>(e: Seq<(String, V)>, i: int, j: int)
    requires
        sorted_keys(e),
        0 <= i < e.len(),
        0 <= j < e.len(),
        e[i].0@ == e[j].0@,
    ensures
        i == j,
{
    if i < j {
        assert(lex_lt(e[i].0@, e[j].0@));
        lemma_lex_irreflexive(e[i].0@);
    } else if j < i {
        assert(lex_lt(e[j].0@, e[i].0@));
        lemma_lex_irreflexive(e[i].0@);
    }
}

/// In a sorted sequence, entry `i` is found under its own key.
pub proof fn lemma_map_of_at<V: View>(e: Seq<(String, V)>, i: int)
    requires
        sorted_keys(e),
        0 <= i < e.len(),
    ensures
        map_of(e).contains_key(e[i].0@),
        map_of(e)[e[i].0@] == e[i].1@,
        index_of_key(e, e[i].0@) == i,
{
    assert(has_key(e, e[i].0@));
    let j = index_of_key(e, e[i].0@);
    lemma_sorted_distinct(e, i, j);
}

pub proof fn lemma_map_of_all<V: View>(e: Seq<(String, V)>)
    requires
        sorted_keys(e),
    ensures
        forall|i: int|
            #![trigger e[i]]
            0 <= i < e.len() ==> map_of(e).contains_key(e[i].0@) && map_of(e)[e[i].0@] == e[i].1@,
        forall|k: Seq<char>| #[trigger]
            map_of(e).contains_key(k) ==> exists|i: int| 0 <= i < e.len() && e[i].0@ == k,
{
    assert forall|i: int| #![trigger e[i]] 0 <= i < e.len() implies map_of(e).contains_key(e[i].0@)
        && map_of(e)[e[i].0@] == e[i].1@ by {
        lemma_map_of_at(e, i);
    }
}

impl<V: View> StrMap<V> {
    /// An empty map.
    pub fn new() -> (m: Self)
        ensures
            m@ == Map::<Seq<char>, V::V>::empty(),
            m.entry_seq().len() == 0,
    {
        let m = StrMap { entries: Vec::new() };
        assert(m@ =~= Map::<Seq<char>, V::V>::empty());
        m
    }

    /// Number of entries; also states how the entries, in key order, make up the map.
    pub fn len(&self) -> (n: usize)
        ensures
            n == self.entry_seq().len(),
            sorted_keys(self.entry_seq()),
            forall|i: int|
                0 <= i < self.entry_seq().len() ==> #[trigger] self@.contains_key(
                    self.entry_seq()[i].0@,
                ) && self@[self.entry_seq()[i].0@] == self.entry_seq()[i].1@,
            forall|k: Seq<char>| #[trigger]
                self@.contains_key(k) ==> exists|i: int|
                    0 <= i < self.entry_seq().len() && self.entry_seq()[i].0@ == k,
            self.key_seq().len() == self.entry_seq().len(),
            forall|i: int|
                0 <= i < self.key_seq().len() ==> #[trigger] self.key_seq()[i]
                    == self.entry_seq()[i].0@,
            self.key_seq() == ordered_keys(self@),
    {
        proof {
            use_type_invariant(self);
            lemma_map_of_all(self.entries@);
            let ks = self.key_seq();
            assert(strictly_sorted(ks));
            assert forall|k: Seq<char>| #[trigger] ks.contains(k) <==> self@.contains_key(k) by {
                if ks.contains(k) {
                    let i = choose|i: int| 0 <= i < ks.len() && ks[i] == k;
                    assert(self.entries@[i].0@ == k);
                }
                if self@.contains_key(k) {
                    let i = choose|i: int| 0 <= i < self.entries@.len() && self.entries@[i].0@ == k;
                    assert(ks[i] == k);
                }
            }
            let o = ordered_keys(self@);
            assert(strictly_sorted(o) && forall|k: Seq<char>| #[trigger] o.contains(k) <==> self@.contains_key(k));
            lemma_sorted_unique(ks, o);
        }
        self.entries.len()
    }

    /// The map has no entry.
    pub fn is_empty(&self) -> (b: bool)
        ensures
            b == (self.entry_seq().len() == 0),
            b == (self@ == Map::<Seq<char>, V::V>::empty()),
    {
        let n = self.len();
        proof {
            if self.entry_seq().len() > 0 {
                assert(self@.contains_key(self.entry_seq()[0].0@));
            } else {
                assert(self@ =~= Map::<Seq<char>, V::V>::empty());
            }
        }
        n == 0
    }

    /// First position whose key is not less than `k`, and whether it equals `k`.
    fn locate(&self, k: &Vec<char>) -> (r: (usize, bool))
        ensures
            r.0 <= self.entry_seq().len(),
            forall|i: int| 0 <= i < r.0 ==> lex_lt(#[trigger] self.entry_seq()[i].0@, k@),
            r.0 < self.entry_seq().len() ==> !lex_lt(self.entry_seq()[r.0 as int].0@, k@),
            r.1 == (r.0 < self.entry_seq().len() && self.entry_seq()[r.0 as int].0@ == k@),
    {
        proof {
            use_type_invariant(self);
        }
        let mut i: usize = 0;
        while i < self.entries.len()
            invariant
                i <= self.entries@.len(),
                forall|j: int| 0 <= j < i ==> lex_lt(#[trigger] self.entries@[j].0@, k@),
            decreases self.entries.len() - i,
        {
            let kv = chars_of(self.entries[i].0.as_str());
            if !lex_less(&kv, k) {
                let eq = seq_eq(&kv, k);
                return (i, eq);
            }
            i = i + 1;
        }
        (i, false)
    }

    /// The value stored under `k`.
    pub fn get(&self, k: &str) -> (r: Option<&V>)
        ensures
            r matches Some(v) ==> self@.contains_key(k@) && self@[k@] == v@,
            r is None ==> !self@.contains_key(k@),
    {
        proof {
            use_type_invariant(self);
        }
        let kv = chars_of(k);
        let (i, found) = self.locate(&kv);
        proof {
            lemma_map_of_all(self.entries@);
        }
        if found {
            Some(&self.entries[i].1)
        } else {
            proof {
                if self@.contains_key(k@) {
                    let j = choose|j: int|
                        0 <= j < self.entries@.len() && self.entries@[j].0@ == k@;
                    if j < i {
                        lemma_lex_irreflexive(k@);
                    } else if j > i {
                        let ki = self.entries@[i as int].0@;
                        assert(lex_lt(ki, k@));
                        lemma_lex_total(ki, k@);
                    }
                }
            }
            None
        }
    }

    /// There is an entry for `k`.
    pub fn contains_key(&self, k: &str) -> (b: bool)
        ensures
            b == self@.contains_key(k@),
    {
        self.get(k).is_some()
    }

    /// The key and value at position `i` in key order.
    pub fn get_index(&self, i: usize) -> (r: (&String, &V))
        requires
            i < self.entry_seq().len(),
        ensures
            r.0@ == self.key_seq()[i as int],
            *r.0 == self.entry_seq()[i as int].0,
            *r.1 == self.entry_seq()[i as int].1,
            self@.contains_key(r.0@),
            self@[r.0@] == r.1@,
    {
        proof {
            use_type_invariant(self);
            lemma_map_of_all(self.entries@);
        }
        let e = &self.entries[i];
        (&e.0, &e.1)
    }

    /// Stores `v` under `k`, replacing any value there.
    pub fn insert(&mut self, k: String, v: V)
        ensures
            final(self)@ == old(self)@.insert(k@, v@),
    {
        proof {
            use_type_invariant(&*self);
        }
        let kv = chars_of(k.as_str());
        let (i, found) = self.locate(&kv);
        let ghost e = self.entries@;
        let ghost kk = k@;
        let ghost vv = v@;
        if found {
            let mut es: Vec<(String, V)> = Vec::new();
            std::mem::swap(&mut es, &mut self.entries);
            es.set(i, (k, v));
            proof {
                let e2 = es@;
                assert(e2 == e.update(i as int, e2[i as int]));
                assert(sorted_keys(e2)) by {
                    assert forall|a: int, b: int| 0 <= a < b < e2.len() implies lex_lt(
                        #[trigger] e2[a].0@,
                        #[trigger] e2[b].0@,
                    ) by {
                        assert(e2[a].0@ == e[a].0@);
                        assert(e2[b].0@ == e[b].0@);
                    }
                }
                lemma_map_of_all(e);
                lemma_map_of_all(e2);
                assert(map_of(e2) =~= map_of(e).insert(kk, vv)) by {
                    assert forall|q: Seq<char>| map_of(e2).contains_key(q) <==> map_of(
                        e,
                    ).insert(kk, vv).contains_key(q) by {
                        if map_of(e).contains_key(q) {
                            let j = choose|j: int| 0 <= j < e.len() && e[j].0@ == q;
                            assert(e2[j].0@ == q);
                        }
                        if map_of(e2).contains_key(q) {
                            let j = choose|j: int| 0 <= j < e2.len() && e2[j].0@ == q;
                            assert(e[j].0@ == q);
                        }
                    }
                    assert forall|q: Seq<char>| #[trigger]
                        map_of(e2).contains_key(q) implies map_of(e2)[q] == map_of(e).insert(
                        kk,
                        vv,
                    )[q] by {
                        let j = choose|j: int| 0 <= j < e2.len() && e2[j].0@ == q;
                        if j != i {
                            assert(e[j].0@ == q);
                            assert(q != kk) by {
                                if q == kk {
                                    lemma_sorted_distinct(e, i as int, j);
                                }
                            }
                        }
                    }
                }
            }
            self.entries = es;
        } else {
            let mut es: Vec<(String, V)> = Vec::new();
            std::mem::swap(&mut es, &mut self.entries);
            es.insert(i, (k, v));
            proof {
                let e2 = es@;
                assert(e2.len() == e.len() + 1);
                assert(forall|a: int| 0 <= a < i ==> e2[a] == e[a]);
                assert(forall|a: int| i < a < e2.len() ==> e2[a] == e[a - 1]);
                assert(e2[i as int].0@ == kk);
                assert(sorted_keys(e2)) by {
                    assert forall|a: int, b: int| 0 <= a < b < e2.len() implies lex_lt(
                        #[trigger] e2[a].0@,
                        #[trigger] e2[b].0@,
                    ) by {
                        if i < e.len() {
                            lemma_lex_total(e[i as int].0@, kk);
                        }
                        if a < i && b == i {
                        } else if a < i && b > i {
                            if i < e.len() {
                                assert(lex_lt(kk, e[i as int].0@));
                                if b - 1 > i {
                                    assert(lex_lt(e[i as int].0@, e[b - 1].0@));
                                    lemma_lex_transitive(kk, e[i as int].0@, e[b - 1].0@);
                                }
                                lemma_lex_transitive(e[a].0@, kk, e[b - 1].0@);
                            }
                        } else if a == i && b > i {
                            assert(lex_lt(kk, e[i as int].0@));
                            if b - 1 > i {
                                assert(lex_lt(e[i as int].0@, e[b - 1].0@));
                                lemma_lex_transitive(kk, e[i as int].0@, e[b - 1].0@);
                            }
                        } else if a > i {
                            assert(lex_lt(e[a - 1].0@, e[b - 1].0@));
                        }
                    }
                }
                lemma_map_of_all(e);
                lemma_map_of_all(e2);
                assert(!has_key(e, kk)) by {
                    if has_key(e, kk) {
                        let j = choose|j: int| 0 <= j < e.len() && e[j].0@ == kk;
                        if j < i {
                            lemma_lex_irreflexive(kk);
                        } else {
                            lemma_lex_total(e[i as int].0@, kk);
                            if j > i {
                                lemma_lex_asymmetric(e[i as int].0@, e[j].0@);
                            }
                        }
                    }
                }
                assert(map_of(e2) =~= map_of(e).insert(kk, vv)) by {
                    assert forall|q: Seq<char>| map_of(e2).contains_key(q) <==> map_of(
                        e,
                    ).insert(kk, vv).contains_key(q) by {
                        if map_of(e).contains_key(q) {
                            let j = choose|j: int| 0 <= j < e.len() && e[j].0@ == q;
                            if j < i {
                                assert(e2[j].0@ == q);
                            } else {
                                assert(e2[j + 1].0@ == q);
                            }
                        }
                        if map_of(e2).contains_key(q) && q != kk {
                            let j = choose|j: int| 0 <= j < e2.len() && e2[j].0@ == q;
                            if j < i {
                                assert(e[j].0@ == q);
                            } else {
                                assert(e[j - 1].0@ == q);
                            }
                        }
                    }
                    assert forall|q: Seq<char>| #[trigger]
                        map_of(e2).contains_key(q) implies map_of(e2)[q] == map_of(e).insert(
                        kk,
                        vv,
                    )[q] by {
                        let j = choose|j: int| 0 <= j < e2.len() && e2[j].0@ == q;
                        if j < i {
                            assert(e[j].0@ == q);
                        } else if j > i {
                            assert(e[j - 1].0@ == q);
                        }
                    }
                }
            }
            self.entries = es;
        }
    }

    /// Removes the entry for `k`, returning its value.
    pub fn remove(&mut self, k: &str) -> (r: Option<V>)
        ensures
            final(self)@ == old(self)@.remove(k@),
            r matches Some(v) ==> old(self)@.contains_key(k@) && old(self)@[k@] == v@,
            r is None ==> !old(self)@.contains_key(k@),
    {
        proof {
            use_type_invariant(&*self);
        }
        let kv = chars_of(k);
        let (i, found) = self.locate(&kv);
        let ghost e = self.entries@;
        proof {
            lemma_map_of_all(e);
        }
        if found {
            let mut es: Vec<(String, V)> = Vec::new();
            std::mem::swap(&mut es, &mut self.entries);
            let (_, v) = es.remove(i);
            proof {
                let e2 = es@;
                assert(forall|a: int| 0 <= a < i ==> e2[a] == e[a]);
                assert(forall|a: int| i <= a < e2.len() ==> e2[a] == e[a + 1]);
                assert(sorted_keys(e2)) by {
                    assert forall|a: int, b: int| 0 <= a < b < e2.len() implies lex_lt(
                        #[trigger] e2[a].0@,
                        #[trigger] e2[b].0@,
                    ) by {
                        if a < i && b >= i {
                            assert(lex_lt(e[a].0@, e[b + 1].0@));
                        } else if a >= i {
                            assert(lex_lt(e[a + 1].0@, e[b + 1].0@));
                        }
                    }
                }
                lemma_map_of_all(e2);
                lemma_map_of_at(e, i as int);
                assert(map_of(e2) =~= map_of(e).remove(k@)) by {
                    assert forall|q: Seq<char>| map_of(e2).contains_key(q) <==> map_of(
                        e,
                    ).remove(k@).contains_key(q) by {
                        if map_of(e).contains_key(q) && q != k@ {
                            let j = choose|j: int| 0 <= j < e.len() && e[j].0@ == q;
                            if j < i {
                                assert(e2[j].0@ == q);
                            } else {
                                assert(j != i);
                                assert(e2[j - 1].0@ == q);
                            }
                        }
                        if map_of(e2).contains_key(q) {
                            let j = choose|j: int| 0 <= j < e2.len() && e2[j].0@ == q;
                            if j < i {
                                assert(e[j].0@ == q);
                                if q == k@ {
                                    lemma_sorted_distinct(e, i as int, j);
                                }
                            } else {
                                assert(e[j + 1].0@ == q);
                                if q == k@ {
                                    lemma_sorted_distinct(e, i as int, j + 1);
                                }
                            }
                        }
                    }
                    assert forall|q: Seq<char>| #[trigger]
                        map_of(e2).contains_key(q) implies map_of(e2)[q] == map_of(e).remove(
                        k@,
                    )[q] by {
                        let j = choose|j: int| 0 <= j < e2.len() && e2[j].0@ == q;
                        if j < i {
                            assert(e[j].0@ == q);
                        } else {
                            assert(e[j + 1].0@ == q);
                        }
                    }
                }
            }
            self.entries = es;
            Some(v)
        } else {
            proof {
                if map_of(e).contains_key(k@) {
                    let j = choose|j: int| 0 <= j < e.len() && e[j].0@ == k@;
                    if j < i {
                        lemma_lex_irreflexive(k@);
                    } else if j > i {
                        lemma_lex_total(e[i as int].0@, k@);
                    }
                }
                assert(map_of(e) =~= map_of(e).remove(k@));
            }
            None
        }
    }
}

impl<V: ViewClone> StrMap<V> {
    /// Inserts every entry of `other`, in its key order; `other` wins on equal keys
    /// (`Extend` for `BTreeMap`).
    pub fn extend_from(&mut self, other: &StrMap<V>)
        ensures
            final(self)@ == old(self)@.union_prefer_right(other@),
    {
        let ghost start = self@;
        let mut i: usize = 0;
        let _ = other.len();
        proof {
            assert(start.union_prefer_right(Map::<Seq<char>, V::V>::empty()) =~= start);
        }
        while i < other.len()
            invariant
                i <= other.entry_seq().len(),
                start == old(self)@,
                self@ == start.union_prefer_right(
                    map_of(other.entry_seq().take(i as int)),
                ),
                sorted_keys(other.entry_seq()),
            decreases other.entry_seq().len() - i,
        {
            let (k, v) = other.get_index(i);
            let ghost before = map_of(other.entry_seq().take(i as int));
            self.insert(k.view_clone(), v.view_clone());
            proof {
                let t2 = other.entry_seq().take(i + 1);
                let t1 = other.entry_seq().take(i as int);
                assert(t2[i as int].0@ == k@);
                assert(t2[i as int].1@ == v@);
                assert(forall|j: int| 0 <= j < i ==> t1[j] == t2[j]);
                assert(sorted_keys(t2));
                assert(sorted_keys(t1));
                lemma_map_of_all(t1);
                lemma_map_of_all(t2);
                assert(map_of(t2) =~= map_of(t1).insert(k@, v@)) by {
                    assert forall|q: Seq<char>| map_of(t2).contains_key(q) <==> map_of(
                        t1,
                    ).insert(k@, v@).contains_key(q) by {
                        if map_of(t1).contains_key(q) {
                            let j = choose|j: int| 0 <= j < t1.len() && t1[j].0@ == q;
                            assert(t2[j].0@ == q);
                        }
                        if map_of(t2).contains_key(q) && q != k@ {
                            let j = choose|j: int| 0 <= j < t2.len() && t2[j].0@ == q;
                            assert(j != i);
                            assert(t1[j].0@ == q);
                        }
                    }
                    assert forall|q: Seq<char>| #[trigger]
                        map_of(t2).contains_key(q) implies map_of(t2)[q] == map_of(t1).insert(
                        k@,
                        v@,
                    )[q] by {
                        let j = choose|j: int| 0 <= j < t2.len() && t2[j].0@ == q;
                        if j != i {
                            assert(t1[j].0@ == q);
                            assert(t2[j].0@ == t1[j].0@);
                            if q == k@ {
                                lemma_sorted_distinct(t2, i as int, j);
                            }
                        }
                    }
                }
                assert(self@ =~= start.union_prefer_right(map_of(t2)));
            }
            i = i + 1;
        }
        proof {
            assert(other.entry_seq().take(i as int) =~= other.entry_seq());
        }
    }
}

impl<V: ViewClone> ViewClone for StrMap<V> {
    fn view_clone(&self) -> (r: StrMap<V>) {
        let mut r = StrMap::new();
        r.extend_from(self);
        assert(r@ =~= self@);
        r
    }
}

} // verus!
