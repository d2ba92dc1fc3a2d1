//! A map kept as a vector of entries in the order of their keys.

use crate::duplicate::Duplicate;
use crate::order::{
    lemma_lex_asymmetric, lemma_lex_irreflexive, lemma_lex_total, lemma_lex_transitive, lex_less,
    Relation, SortKey,
};
use vstd::prelude::*;

verus! {

/// Keys to values, each key at most once, in the order of the keys.
#[derive(Debug, PartialEq, Eq)]
pub struct SortedMap<K: SortKey, V: View> {
    entries: Vec<(K, V)>,
}

/// A set of keys in their order.
pub type SortedSet<K> = SortedMap<K, ()>;

/// Whether the keys of `s` strictly ascend.
pub open spec fn ascending<K: SortKey, W>(s: Seq<(K::V, W)>) -> bool {
    forall|i: int, j: int|
        0 <= i < j < s.len() ==> lex_less(K::rank(#[trigger] s[i].0), K::rank(#[trigger] s[j].0))
}

/// The map whose entries are those of `s`.
pub open spec fn map_of<KV, W>(s: Seq<(KV, W)>) -> Map<KV, W> {
    Map::new(
        |k: KV| exists|i: int| 0 <= i < s.len() && (#[trigger] s[i]).0 == k,
        |k: KV| s[choose|i: int| 0 <= i < s.len() && (#[trigger] s[i]).0 == k].1,
    )
}

/// The entries of `m` in the order of their keys.
pub open spec fn sorted_entries<K: SortKey, W>(m: Map<K::V, W>) -> Seq<(K::V, W)> {
    choose|s: Seq<(K::V, W)>| #[trigger] ascending::<K, W>(s) && map_of(s) == m
}

/// The keys of `m` in their order.
pub open spec fn sorted_keys<K: SortKey, W>(m: Map<K::V, W>) -> Seq<K::V> {
    sorted_entries::<K, W>(m).map_values(|e: (K::V, W)| e.0)
}

/// In an ascending sequence a key stands at one place only.
pub proof fn lemma_ascending_distinct<K: SortKey, W>(s: Seq<(K::V, W)>, i: int, j: int)
    requires
        ascending::<K, W>(s),
        0 <= i < s.len(),
        0 <= j < s.len(),
        s[i].0 == s[j].0,
    ensures
        i == j,
{
    lemma_lex_irreflexive(K::rank(s[i].0));
    if i < j {
        assert(lex_less(K::rank(s[i].0), K::rank(s[j].0)));
    } else if j < i {
        assert(lex_less(K::rank(s[j].0), K::rank(s[i].0)));
    }
}

/// Each entry of an ascending sequence is one of its map.
pub proof fn lemma_map_of_entry<K: SortKey, W>(s: Seq<(K::V, W)>, i: int)
    requires
        ascending::<K, W>(s),
        0 <= i < s.len(),
    ensures
        map_of(s).contains_key(s[i].0),
        map_of(s)[s[i].0] == s[i].1,
{
    let k = s[i].0;
    let c = choose|c: int| 0 <= c < s.len() && (#[trigger] s[c]).0 == k;
    lemma_ascending_distinct::<K, W>(s, i, c);
}

/// An ascending sequence is fixed by its map.
pub proof fn lemma_map_of_injective<K: SortKey, W>(s: Seq<(K::V, W)>, t: Seq<(K::V, W)>)
    requires
        ascending::<K, W>(s),
        ascending::<K, W>(t),
        map_of(s) == map_of(t),
    ensures
        s == t,
    decreases s.len(),
{
    if s.len() == 0 {
        if t.len() > 0 {
            lemma_map_of_entry::<K, W>(t, 0);
            assert(map_of(s).contains_key(t[0].0));
        }
        assert(s =~= t);
    } else {
        lemma_map_of_entry::<K, W>(s, 0);
        assert(map_of(t).contains_key(s[0].0));
        let j = choose|j: int| 0 <= j < t.len() && (#[trigger] t[j]).0 == s[0].0;
        lemma_map_of_entry::<K, W>(t, 0);
        assert(map_of(s).contains_key(t[0].0));
        let i = choose|i: int| 0 <= i < s.len() && (#[trigger] s[i]).0 == t[0].0;
        if i > 0 {
            assert(lex_less(K::rank(s[0].0), K::rank(s[i].0)));
            lemma_lex_asymmetric(K::rank(s[0].0), K::rank(s[i].0));
            if j > 0 {
                assert(lex_less(K::rank(t[0].0), K::rank(t[j].0)));
            }
        }
        assert(i == 0);
        assert(s[0].0 == t[0].0);
        assert(s[0] == t[0]);
        let s1 = s.drop_first();
        let t1 = t.drop_first();
        lemma_map_of_tail::<K, W>(s);
        lemma_map_of_tail::<K, W>(t);
        lemma_map_of_injective::<K, W>(s1, t1);
        assert(s =~= seq![s[0]] + s1);
        assert(t =~= seq![t[0]] + t1);
    }
}

/// Dropping the first entry removes its key.
pub proof fn lemma_map_of_tail<K: SortKey, W>(s: Seq<(K::V, W)>)
    requires
        ascending::<K, W>(s),
        s.len() > 0,
    ensures
        ascending::<K, W>(s.drop_first()),
        map_of(s.drop_first()) == map_of(s).remove(s[0].0),
{
    let t = s.drop_first();
    assert forall|i: int, j: int| 0 <= i < j < t.len() implies lex_less(
        K::rank(#[trigger] t[i].0),
        K::rank(#[trigger] t[j].0),
    ) by {
        assert(t[i] == s[i + 1] && t[j] == s[j + 1]);
    }
    let m = map_of(s).remove(s[0].0);
    assert forall|k: K::V| #[trigger] map_of(t).contains_key(k) implies m.contains_key(k)
        && map_of(t)[k] == m[k] by {
        let i = choose|i: int| 0 <= i < t.len() && (#[trigger] t[i]).0 == k;
        assert(s[i + 1] == t[i]);
        lemma_map_of_entry::<K, W>(s, i + 1);
        if s[i + 1].0 == s[0].0 {
            lemma_ascending_distinct::<K, W>(s, 0, i + 1);
        }
    }
    assert forall|k: K::V| #[trigger] m.contains_key(k) implies map_of(t).contains_key(k) by {
        let i = choose|i: int| 0 <= i < s.len() && (#[trigger] s[i]).0 == k;
        assert(t[i - 1].0 == k);
    }
    assert(map_of(t) =~= m);
}

/// The entries of an ascending sequence are those of its map in order.
pub proof fn lemma_sorted_entries<K: SortKey, W>(s: Seq<(K::V, W)>)
    requires
        ascending::<K, W>(s),
    ensures
        sorted_entries::<K, W>(map_of(s)) == s,
{
    let t = sorted_entries::<K, W>(map_of(s));
    assert(ascending::<K, W>(t) && map_of(t) == map_of(s));
    lemma_map_of_injective::<K, W>(t, s);
}

/// A map of an ascending sequence has as many entries as it.
pub proof fn lemma_map_of_len<K: SortKey, W>(s: Seq<(K::V, W)>)
    requires
        ascending::<K, W>(s),
    ensures
        map_of(s).dom().finite(),
        map_of(s).len() == s.len(),
    decreases s.len(),
{
    if s.len() == 0 {
        assert(map_of(s) =~= Map::<K::V, W>::empty());
    } else {
        lemma_map_of_tail::<K, W>(s);
        lemma_map_of_len::<K, W>(s.drop_first());
        lemma_map_of_entry::<K, W>(s, 0);
        let m = map_of(s);
        assert(m =~= m.remove(s[0].0).insert(s[0].0, s[0].1));
    }
}

/// Putting an entry where it belongs binds its key.
proof fn lemma_insert<K: SortKey, W>(
    s: Seq<(K::V, W)>,
    t: Seq<(K::V, W)>,
    key: K::V,
    value: W,
    i: int,
)
    requires
        ascending::<K, W>(s),
        0 <= i <= s.len(),
        forall|j: int| 0 <= j < i ==> lex_less(K::rank(#[trigger] s[j].0), K::rank(key)),
        forall|j: int| i <= j < s.len() ==> lex_less(K::rank(key), K::rank(#[trigger] s[j].0)),
        t == s.insert(i, (key, value)),
    ensures
        ascending::<K, W>(t),
        map_of(t) == map_of(s).insert(key, value),
{
    let place = |j: int| if j < i { j } else { j + 1 };
    assert forall|j: int| 0 <= j < s.len() implies t[place(j)] == #[trigger] s[j] by {}
    assert forall|a: int, b: int| 0 <= a < b < t.len() implies lex_less(
        K::rank(#[trigger] t[a].0),
        K::rank(#[trigger] t[b].0),
    ) by {
        let sa = if a < i { a } else { a - 1 };
        let sb = if b < i { b } else { b - 1 };
        if a != i {
            assert(t[a] == s[sa]);
        }
        if b != i {
            assert(t[b] == s[sb]);
        }
    }
    let m = map_of(s).insert(key, value);
    assert(t[i] == (key, value));
    assert forall|k: K::V| #[trigger] map_of(t).contains_key(k) <==> m.contains_key(k) by {
        if map_of(t).contains_key(k) {
            let j = choose|j: int| 0 <= j < t.len() && (#[trigger] t[j]).0 == k;
            if j < i {
                assert(s[j].0 == k);
            } else if j > i {
                assert(s[j - 1].0 == k);
            }
        }
        if m.contains_key(k) && k != key {
            let j = choose|j: int| 0 <= j < s.len() && (#[trigger] s[j]).0 == k;
            assert(t[place(j)].0 == k);
        }
    }
    assert forall|k: K::V| #[trigger] map_of(t).contains_key(k) implies map_of(t)[k]
        == m[k] by {
        let j = choose|j: int| 0 <= j < t.len() && (#[trigger] t[j]).0 == k;
        lemma_map_of_entry::<K, W>(t, j);
        if j < i {
            lemma_map_of_entry::<K, W>(s, j);
            lemma_lex_irreflexive(K::rank(key));
        } else if j > i {
            assert(t[j] == s[j - 1]);
            lemma_map_of_entry::<K, W>(s, j - 1);
            lemma_lex_irreflexive(K::rank(key));
        }
    }
    assert(map_of(t) =~= m);
}

/// The place at which `key` would have to stand.
proof fn lemma_place<K: SortKey, W>(s: Seq<(K::V, W)>, key: K::V) -> (i: int)
    requires
        ascending::<K, W>(s),
        !map_of(s).contains_key(key),
    ensures
        0 <= i <= s.len(),
        forall|j: int| 0 <= j < i ==> lex_less(K::rank(#[trigger] s[j].0), K::rank(key)),
        forall|j: int| i <= j < s.len() ==> lex_less(K::rank(key), K::rank(#[trigger] s[j].0)),
    decreases s.len(),
{
    if s.len() == 0 {
        0
    } else {
        let front = s.drop_last();
        let last = s.last().0;
        assert(s[s.len() - 1].0 == last);
        lemma_lex_total(K::rank(last), K::rank(key));
        if K::rank(last) == K::rank(key) {
            K::rank_injective(last, key);
        }
        if lex_less(K::rank(last), K::rank(key)) {
            assert forall|j: int| 0 <= j < s.len() implies lex_less(
                K::rank(#[trigger] s[j].0),
                K::rank(key),
            ) by {
                if j < s.len() - 1 {
                    lemma_lex_transitive(K::rank(s[j].0), K::rank(last), K::rank(key));
                }
            }
            s.len() as int
        } else {
            assert forall|a: int, b: int| 0 <= a < b < front.len() implies lex_less(
                K::rank(#[trigger] front[a].0),
                K::rank(#[trigger] front[b].0),
            ) by {
                assert(front[a] == s[a] && front[b] == s[b]);
            }
            if map_of(front).contains_key(key) {
                let j = choose|j: int| 0 <= j < front.len() && (#[trigger] front[j]).0 == key;
                assert(s[j].0 == key);
            }
            let i = lemma_place::<K, W>(front, key);
            assert forall|j: int| 0 <= j < i implies lex_less(
                K::rank(#[trigger] s[j].0),
                K::rank(key),
            ) by {
                assert(front[j] == s[j]);
            }
            assert forall|j: int| i <= j < s.len() implies lex_less(
                K::rank(key),
                K::rank(#[trigger] s[j].0),
            ) by {
                if j < s.len() - 1 {
                    assert(front[j] == s[j]);
                }
            }
            i
        }
    }
}

proof fn lemma_entries_exist<K: SortKey, W>(m: Map<K::V, W>) -> (s: Seq<(K::V, W)>)
    requires
        m.dom().finite(),
    ensures
        ascending::<K, W>(s),
        map_of(s) == m,
    decreases m.dom().len(),
{
    if m.dom().len() == 0 {
        let s = Seq::<(K::V, W)>::empty();
        assert(map_of(s) =~= m);
        s
    } else {
        let k = m.dom().choose();
        let rest = m.remove(k);
        let s = lemma_entries_exist::<K, W>(rest);
        let i = lemma_place::<K, W>(s, k);
        let t = s.insert(i, (k, m[k]));
        lemma_insert::<K, W>(s, t, k, m[k], i);
        assert(rest.insert(k, m[k]) =~= m);
        t
    }
}

/// The entries of a finite map in the order of their keys are those of the map.
pub proof fn lemma_sorted_entries_are_entries<K: SortKey, W>(m: Map<K::V, W>)
    requires
        m.dom().finite(),
    ensures
        ascending::<K, W>(sorted_entries::<K, W>(m)),
        map_of(sorted_entries::<K, W>(m)) == m,
{
    let s = lemma_entries_exist::<K, W>(m);
    assert(ascending::<K, W>(s) && map_of(s) == m);
}

impl<K: SortKey, V: View> SortedMap<K, V> {
    /// The entries in order.
    pub closed spec fn seq(&self) -> Seq<(K::V, V::V)> {
        self.entries@.map_values(|e: (K, V)| (e.0@, e.1@))
    }

    #[verifier::type_invariant]
    spec fn sorted(&self) -> bool {
        ascending::<K, V::V>(self.seq())
    }

    pub fn new() -> (r: Self)
        ensures
            r@ == Map::<K::V, V::V>::empty(),
            r.seq() == Seq::<(K::V, V::V)>::empty(),
    {
        let r = SortedMap { entries: Vec::new() };
        assert(r.seq() =~= Seq::<(K::V, V::V)>::empty());
        assert(r@ =~= Map::<K::V, V::V>::empty());
        r
    }

    /// The number of entries.
    pub fn len(&self) -> (n: usize)
        ensures
            n == self.seq().len(),
            n == self@.len(),
            self@.dom().finite(),
            ascending::<K, V::V>(self.seq()),
            self.seq() == sorted_entries::<K, V::V>(self@),
    {
        proof {
            use_type_invariant(self);
            lemma_map_of_len::<K, V::V>(self.seq());
            lemma_sorted_entries::<K, V::V>(self.seq());
        }
        self.entries.len()
    }

    pub fn is_empty(&self) -> (b: bool)
        ensures
            b == (self.seq().len() == 0),
            b == (self@ == Map::<K::V, V::V>::empty()),
    {
        let n = self.len();
        proof {
            if n == 0 {
                assert(self@ =~= Map::<K::V, V::V>::empty());
            }
        }
        n == 0
    }

    /// The entry that stands at place `i`.
    pub fn entry(&self, i: usize) -> (e: (&K, &V))
        requires
            i < self.seq().len(),
        ensures
            e.0@ == self.seq()[i as int].0,
            e.1@ == self.seq()[i as int].1,
            self@.contains_key(e.0@),
            self@[e.0@] == e.1@,
    {
        proof {
            use_type_invariant(self);
            lemma_map_of_entry::<K, V::V>(self.seq(), i as int);
        }
        let e = &self.entries[i];
        (&e.0, &e.1)
    }

    /// The place of `key`, or the one at which it would have to stand.
    fn find(&self, key: &K) -> (r: (usize, bool))
        ensures
            r.0 <= self.seq().len(),
            forall|j: int|
                0 <= j < r.0 ==> lex_less(K::rank(#[trigger] self.seq()[j].0), K::rank(key@)),
            r.1 ==> r.0 < self.seq().len() && self.seq()[r.0 as int].0 == key@,
            !r.1 ==> forall|j: int|
                r.0 <= j < self.seq().len() ==> lex_less(
                    K::rank(key@),
                    K::rank(#[trigger] self.seq()[j].0),
                ),
    {
        proof {
            use_type_invariant(self);
        }
        let ghost s = self.seq();
        let mut lo: usize = 0;
        let mut hi: usize = self.entries.len();
        while lo < hi
            invariant
                s == self.seq(),
                ascending::<K, V::V>(s),
                s.len() == self.entries@.len(),
                lo <= hi <= s.len(),
                forall|j: int| 0 <= j < lo ==> lex_less(K::rank(#[trigger] s[j].0), K::rank(key@)),
                forall|j: int|
                    hi <= j < s.len() ==> lex_less(K::rank(key@), K::rank(#[trigger] s[j].0)),
            decreases hi - lo,
        {
            let mid: usize = lo + (hi - lo) / 2;
            let ghost mk = s[mid as int].0;
            match self.entries[mid].0.compare(key) {
                Relation::Before => {
                    proof {
                        assert forall|j: int| 0 <= j < mid + 1 implies lex_less(
                            K::rank(#[trigger] s[j].0),
                            K::rank(key@),
                        ) by {
                            if j < mid {
                                lemma_lex_transitive(K::rank(s[j].0), K::rank(mk), K::rank(key@));
                            }
                        }
                    }
                    lo = mid + 1;
                },
                Relation::Same => {
                    proof {
                        K::rank_injective(mk, key@);
                    }
                    return (mid, true);
                },
                Relation::After => {
                    proof {
                        lemma_lex_total(K::rank(mk), K::rank(key@));
                        assert forall|j: int| mid <= j < s.len() implies lex_less(
                            K::rank(key@),
                            K::rank(#[trigger] s[j].0),
                        ) by {
                            if j > mid {
                                lemma_lex_transitive(K::rank(key@), K::rank(mk), K::rank(s[j].0));
                            }
                        }
                    }
                    hi = mid;
                },
            }
        }
        (lo, false)
    }

    /// A key that `find` has not found is not in the map.
    proof fn lemma_absent(s: Seq<(K::V, V::V)>, key: K::V, i: int)
        requires
            0 <= i <= s.len(),
            forall|j: int| 0 <= j < i ==> lex_less(K::rank(#[trigger] s[j].0), K::rank(key)),
            forall|j: int| i <= j < s.len() ==> lex_less(K::rank(key), K::rank(#[trigger] s[j].0)),
        ensures
            !map_of(s).contains_key(key),
    {
        if map_of(s).contains_key(key) {
            let j = choose|j: int| 0 <= j < s.len() && (#[trigger] s[j]).0 == key;
            lemma_lex_irreflexive(K::rank(key));
        }
    }

    /// The value of `key`.
    pub fn get(&self, key: &K) -> (r: Option<&V>)
        ensures
            r is Some <==> self@.contains_key(key@),
            r matches Some(v) ==> v@ == self@[key@],
    {
        proof {
            use_type_invariant(self);
        }
        let (i, found) = self.find(key);
        if found {
            proof {
                lemma_map_of_entry::<K, V::V>(self.seq(), i as int);
            }
            Some(&self.entries[i].1)
        } else {
            proof {
                Self::lemma_absent(self.seq(), key@, i as int);
            }
            None
        }
    }

    pub fn contains_key(&self, key: &K) -> (b: bool)
        ensures
            b == self@.contains_key(key@),
    {
        self.get(key).is_some()
    }

    /// Binds `key` to `value`, in place of what it was bound to.
    pub fn insert(&mut self, key: K, value: V)
        ensures
            final(self)@ == old(self)@.insert(key@, value@),
    {
        proof {
            use_type_invariant(&*self);
        }
        let (i, found) = self.find(&key);
        let ghost s = self.seq();
        let ghost k = key@;
        let ghost w = value@;
        let mut entries: Vec<(K, V)> = Vec::new();
        std::mem::swap(&mut entries, &mut self.entries);
        if found {
            entries.set(i, (key, value));
            proof {
                let t = entries@.map_values(|e: (K, V)| (e.0@, e.1@));
                assert(t =~= s.update(i as int, (k, w)));
                Self::lemma_replace(s, t, k, w, i as int);
            }
        } else {
            entries.insert(i, (key, value));
            proof {
                let t = entries@.map_values(|e: (K, V)| (e.0@, e.1@));
                assert(t =~= s.insert(i as int, (k, w)));
                lemma_insert::<K, V::V>(s, t, k, w, i as int);
            }
        }
        self.entries = entries;
    }

    proof fn lemma_replace(
        s: Seq<(K::V, V::V)>,
        t: Seq<(K::V, V::V)>,
        key: K::V,
        value: V::V,
        i: int,
    )
        requires
            ascending::<K, V::V>(s),
            0 <= i < s.len(),
            s[i].0 == key,
            t == s.update(i, (key, value)),
        ensures
            ascending::<K, V::V>(t),
            map_of(t) == map_of(s).insert(key, value),
    {
        assert forall|a: int, b: int| 0 <= a < b < t.len() implies lex_less(
            K::rank(#[trigger] t[a].0),
            K::rank(#[trigger] t[b].0),
        ) by {
            assert(t[a].0 == s[a].0 && t[b].0 == s[b].0);
        }
        let m = map_of(s).insert(key, value);
        assert forall|k: K::V| #[trigger] map_of(t).contains_key(k) <==> m.contains_key(k) by {
            if map_of(t).contains_key(k) {
                let j = choose|j: int| 0 <= j < t.len() && (#[trigger] t[j]).0 == k;
                assert(s[j].0 == k);
            }
            if m.contains_key(k) {
                if k == key {
                    assert(t[i].0 == k);
                } else {
                    let j = choose|j: int| 0 <= j < s.len() && (#[trigger] s[j]).0 == k;
                    assert(t[j].0 == k);
                }
            }
        }
        assert forall|k: K::V| #[trigger] map_of(t).contains_key(k) implies map_of(t)[k]
            == m[k] by {
            let j = choose|j: int| 0 <= j < t.len() && (#[trigger] t[j]).0 == k;
            lemma_map_of_entry::<K, V::V>(t, j);
            lemma_map_of_entry::<K, V::V>(s, j);
            if k == key {
                lemma_ascending_distinct::<K, V::V>(s, i, j);
            }
        }
        assert(map_of(t) =~= m);
    }

    /// Binds `key` to `value` unless it is bound already; tells whether it did.
    pub fn insert_absent(&mut self, key: K, value: V) -> (added: bool)
        ensures
            added == !old(self)@.contains_key(key@),
            added ==> final(self)@ == old(self)@.insert(key@, value@),
            !added ==> final(self)@ == old(self)@,
    {
        if self.contains_key(&key) {
            false
        } else {
            self.insert(key, value);
            true
        }
    }

    /// Takes `key` out of the map.
    pub fn remove(&mut self, key: &K)
        ensures
            final(self)@ == old(self)@.remove(key@),
    {
        proof {
            use_type_invariant(&*self);
        }
        let (i, found) = self.find(key);
        let ghost s = self.seq();
        let ghost k = key@;
        if found {
            let mut entries: Vec<(K, V)> = Vec::new();
            std::mem::swap(&mut entries, &mut self.entries);
            entries.remove(i);
            proof {
                let t = entries@.map_values(|e: (K, V)| (e.0@, e.1@));
                assert(t =~= s.remove(i as int));
                Self::lemma_remove(s, t, k, i as int);
            }
            self.entries = entries;
        } else {
            proof {
                Self::lemma_absent(s, k, i as int);
                assert(self@ =~= self@.remove(k));
            }
        }
    }

    proof fn lemma_remove(s: Seq<(K::V, V::V)>, t: Seq<(K::V, V::V)>, key: K::V, i: int)
        requires
            ascending::<K, V::V>(s),
            0 <= i < s.len(),
            s[i].0 == key,
            t == s.remove(i),
        ensures
            ascending::<K, V::V>(t),
            map_of(t) == map_of(s).remove(key),
    {
        assert forall|a: int, b: int| 0 <= a < b < t.len() implies lex_less(
            K::rank(#[trigger] t[a].0),
            K::rank(#[trigger] t[b].0),
        ) by {
            let sa = if a < i { a } else { a + 1 };
            let sb = if b < i { b } else { b + 1 };
            assert(t[a] == s[sa] && t[b] == s[sb]);
        }
        let m = map_of(s).remove(key);
        assert forall|k: K::V| #[trigger] map_of(t).contains_key(k) <==> m.contains_key(k) by {
            if map_of(t).contains_key(k) {
                let j = choose|j: int| 0 <= j < t.len() && (#[trigger] t[j]).0 == k;
                let sj = if j < i { j } else { j + 1 };
                assert(s[sj].0 == k);
                if k == key {
                    lemma_ascending_distinct::<K, V::V>(s, i, sj);
                }
            }
            if m.contains_key(k) {
                let j = choose|j: int| 0 <= j < s.len() && (#[trigger] s[j]).0 == k;
                let tj = if j < i { j } else { j - 1 };
                assert(t[tj].0 == k);
            }
        }
        assert forall|k: K::V| #[trigger] map_of(t).contains_key(k) implies map_of(t)[k]
            == m[k] by {
            let j = choose|j: int| 0 <= j < t.len() && (#[trigger] t[j]).0 == k;
            let sj = if j < i { j } else { j + 1 };
            assert(t[j] == s[sj]);
            lemma_map_of_entry::<K, V::V>(t, j);
            lemma_map_of_entry::<K, V::V>(s, sj);
        }
        assert(map_of(t) =~= m);
    }
}

impl<K: SortKey + Duplicate, V: Duplicate> Duplicate for SortedMap<K, V> {
    fn duplicate(&self) -> (r: Self) {
        proof {
            use_type_invariant(self);
        }
        let mut entries: Vec<(K, V)> = Vec::new();
        let mut i: usize = 0;
        let ghost s = self.seq();
        while i < self.entries.len()
            invariant
                s == self.seq(),
                i <= self.entries@.len(),
                entries@.map_values(|e: (K, V)| (e.0@, e.1@)) == s.take(i as int),
            decreases self.entries@.len() - i,
        {
            let e = &self.entries[i];
            let ghost before = entries@;
            entries.push((e.0.duplicate(), e.1.duplicate()));
            assert(entries@.map_values(|e: (K, V)| (e.0@, e.1@)) =~= before.map_values(
                |e: (K, V)| (e.0@, e.1@),
            ).push(s[i as int]));
            assert(s.take(i + 1) =~= s.take(i as int).push(s[i as int]));
            i += 1;
        }
        assert(s.take(i as int) =~= s);
        SortedMap { entries }
    }
}

impl<K: SortKey + Duplicate, V: Duplicate> Clone for SortedMap<K, V> {
    fn clone(&self) -> (r: Self)
        ensures
            r@ == self@,
    {
        self.duplicate()
    }
}

impl<K: SortKey, V: View> View for SortedMap<K, V> {
    type V = Map<K::V, V::V>;

    open spec fn view(&self) -> Map<K::V, V::V> {
        map_of(self.seq())
    }
}

/// The entries of a map are those of the map, each once, in strictly ascending order of their keys.
pub proof fn law_entries_are_in_order<K: SortKey, W>(m: Map<K::V, W>)
    requires
        m.dom().finite(),
    ensures
        ({
            let entries = sorted_entries::<K, W>(m);
            let keys = sorted_keys::<K, W>(m);
            &&& keys.len() == entries.len()
            &&& entries.len() == m.dom().len()
            &&& forall|i: int|
                0 <= i < entries.len() ==> keys[i] == (#[trigger] entries[i]).0 && m.contains_key(
                    entries[i].0,
                ) && m[entries[i].0] == entries[i].1
            &&& forall|k: K::V|
                m.contains_key(k) ==> exists|i: int|
                    0 <= i < entries.len() && (#[trigger] entries[i]).0 == k
            &&& forall|i: int, j: int|
                0 <= i < j < entries.len() ==> lex_less(
                    K::rank((#[trigger] entries[i]).0),
                    K::rank((#[trigger] entries[j]).0),
                )
        }),
{
    let entries = sorted_entries::<K, W>(m);
    lemma_sorted_entries_are_entries::<K, W>(m);
    lemma_map_of_len::<K, W>(entries);
    assert forall|i: int| 0 <= i < entries.len() implies sorted_keys::<K, W>(m)[i] == (
    #[trigger] entries[i]).0 && m.contains_key(entries[i].0) && m[entries[i].0]
        == entries[i].1 by {
        lemma_map_of_entry::<K, W>(entries, i);
    }
}

} // verus!
