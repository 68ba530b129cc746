//! An ordered map keyed by text, kept in strictly increasing key order so that
//! iteration visits keys in the order of `String`.
use vstd::prelude::*;

use crate::text::{chars_lt, chars_of, lemma_seq_lt_irreflexive, lemma_seq_lt_total, lemma_seq_lt_transitive, seq_lt};

verus! {

/// A key that is identified by its text.
pub trait MapKey: Sized {
    spec fn key(&self) -> Seq<char>;

    fn key_chars(&self) -> (r: Vec<char>)
        ensures
            r@ == self.key(),
    ;

    fn duplicate(&self) -> (r: Self)
        ensures
            r == *self,
    ;
}

impl MapKey for String {
    open spec fn key(&self) -> Seq<char> {
        self@
    }

    fn key_chars(&self) -> (r: Vec<char>) {
        chars_of(self.as_str())
    }

    fn duplicate(&self) -> (r: Self) {
        self.clone()
    }
}

/// Entries in strictly increasing key order.
#[derive(Debug, PartialEq, Eq)]
pub struct OrderedMap<K: MapKey, V> {
    entries: Vec<(K, V)>,
}

/// Keys that are strictly increasing.
pub open spec fn strictly_increasing(keys: Seq<Seq<char>>) -> bool {
    forall|i: int, j: int| 0 <= i < j < keys.len() ==> seq_lt(#[trigger] keys[i], #[trigger] keys[j])
}

impl<K: MapKey, V> OrderedMap<K, V> {
    /// The entries, in key order.
    pub closed spec fn entries(&self) -> Seq<(K, V)> {
        self.entries@
    }

    /// The keys' texts, in order.
    pub open spec fn keys(&self) -> Seq<Seq<char>> {
        self.entries().map_values(|e: (K, V)| e.0.key())
    }

    /// The values, in key order.
    pub open spec fn values(&self) -> Seq<V> {
        self.entries().map_values(|e: (K, V)| e.1)
    }

    pub open spec fn wf(&self) -> bool {
        strictly_increasing(self.keys())
    }

    #[verifier::type_invariant]
    closed spec fn keys_increasing(&self) -> bool {
        strictly_increasing(self.entries@.map_values(|e: (K, V)| e.0.key()))
    }

    pub open spec fn len_spec(&self) -> nat {
        self.entries().len()
    }

    pub open spec fn contains(&self, k: Seq<char>) -> bool {
        self.keys().contains(k)
    }

    /// The value stored under key `k`.
    pub open spec fn lookup(&self, k: Seq<char>) -> Option<V> {
        if self.contains(k) {
            Some(self.entries()[self.keys().index_of(k)].1)
        } else {
            None
        }
    }

    pub fn new() -> (m: Self)
        ensures
            m.entries() == Seq::<(K, V)>::empty(),
            m.wf(),
    {
        OrderedMap { entries: Vec::new() }
    }

    /// The entries, in key order.
    pub fn into_entries(self) -> (v: Vec<(K, V)>)
        ensures
            v@ == self.entries(),
            strictly_increasing(v@.map_values(|e: (K, V)| e.0.key())),
    {
        proof {
            use_type_invariant(&self);
        }
        self.entries
    }

    pub fn len(&self) -> (n: usize)
        ensures
            n == self.entries().len(),
            self.wf(),
    {
        proof {
            use_type_invariant(self);
        }
        self.entries.len()
    }

    pub fn key_at(&self, i: usize) -> (k: &K)
        requires
            i < self.entries().len(),
        ensures
            *k == self.entries()[i as int].0,
            self.wf(),
    {
        proof {
            use_type_invariant(self);
        }
        &self.entries[i].0
    }

    pub fn value_at(&self, i: usize) -> (v: &V)
        requires
            i < self.entries().len(),
        ensures
            *v == self.entries()[i as int].1,
    {
        &self.entries[i].1
    }

    /// The index of the entry with key text `k`, if any.
    pub fn find(&self, k: &[char]) -> (r: Option<usize>)
        ensures
            match r {
                Some(i) => i < self.entries().len() && self.keys()[i as int] == k@,
                None => !self.contains(k@),
            },
    {
        let mut i: usize = 0;
        while i < self.entries.len()
            invariant
                i <= self.entries@.len(),
                forall|j: int| 0 <= j < i ==> self.keys()[j] != k@,
            decreases self.entries@.len() - i,
        {
            let kc = self.entries[i].0.key_chars();
            if chars_equal(kc.as_slice(), k) {
                return Some(i);
            }
            i = i + 1;
        }
        proof {
            if self.keys().contains(k@) {
                let j = choose|j: int| 0 <= j < self.keys().len() && self.keys()[j] == k@;
                assert(self.keys()[j] != k@);
            }
        }
        None
    }

    pub fn contains_key(&self, k: &K) -> (b: bool)
        ensures
            b == self.contains(k.key()),
    {
        let kc = k.key_chars();
        self.find(kc.as_slice()).is_some()
    }

    pub fn get(&self, k: &K) -> (r: Option<&V>)
        ensures
            match r {
                Some(v) => self.lookup(k.key()) == Some(*v),
                None => self.lookup(k.key()) is None,
            },
    {
        proof {
            use_type_invariant(self);
        }
        let kc = k.key_chars();
        match self.find(kc.as_slice()) {
            Some(i) => {
                proof {
                    self.lemma_index_of(i as int);
                }
                Some(&self.entries[i].1)
            },
            None => None,
        }
    }

    /// In a well-formed map the key at position `i` is found at `i`.
    pub proof fn lemma_index_of(&self, i: int)
        requires
            self.wf(),
            0 <= i < self.entries().len(),
        ensures
            self.contains(self.keys()[i]),
            self.keys().index_of(self.keys()[i]) == i,
            self.lookup(self.keys()[i]) == Some(self.entries()[i].1),
    {
        let k = self.keys()[i];
        assert(self.keys().contains(k));
        let j = self.keys().index_of(k);
        if j != i {
            if j < i {
                assert(seq_lt(self.keys()[j], self.keys()[i]));
            } else {
                assert(seq_lt(self.keys()[i], self.keys()[j]));
            }
            lemma_seq_lt_irreflexive(k);
        }
    }

    /// Inserts `k` with `v` when no entry has that key; otherwise leaves the
    /// map unchanged and returns `false`.
    pub fn insert_new(&mut self, k: K, v: V) -> (inserted: bool)
        ensures
            final(self).wf(),
            inserted == !old(self).contains(k.key()),
            inserted ==> final(self).contains(k.key()) && final(self).lookup(k.key()) == Some(v),
            inserted ==> final(self).len_spec() == old(self).len_spec() + 1,
            !inserted ==> final(self).entries() == old(self).entries(),
            forall|q: Seq<char>| q != k.key() ==> final(self).lookup(q) == old(self).lookup(q),
            forall|q: Seq<char>|
                #![trigger final(self).contains(q)]
                final(self).contains(q) <==> (old(self).contains(q) || q == k.key()),
    {
        proof {
            use_type_invariant(&*self);
        }
        let kc = k.key_chars();
        let mut i: usize = 0;
        let mut done = false;
        while i < self.entries.len() && !done
            invariant
                i <= self.entries@.len(),
                self.wf(),
                kc@ == k.key(),
                forall|j: int| 0 <= j < i ==> seq_lt(#[trigger] self.keys()[j], k.key()),
                done ==> i < self.entries@.len() && !seq_lt(self.keys()[i as int], k.key()),
            decreases self.entries@.len() - i + (if done { 0int } else { 1int }),
        {
            let ec = self.entries[i].0.key_chars();
            if chars_lt(ec.as_slice(), kc.as_slice()) {
                i = i + 1;
            } else {
                done = true;
            }
        }
        let ghost before = self.keys();
        if i < self.entries.len() {
            let ec = self.entries[i].0.key_chars();
            if chars_equal(ec.as_slice(), kc.as_slice()) {
                proof {
                    assert(self.keys()[i as int] == k.key());
                    assert(self.keys().contains(k.key()));
                }
                return false;
            }
        }
        proof {
            // every key at or after i is greater than k
            assert forall|j: int| i <= j < before.len() implies seq_lt(k.key(), #[trigger] before[j]) by {
                if i < before.len() {
                    lemma_seq_lt_total(before[i as int], k.key());
                    if j > i {
                        assert(seq_lt(before[i as int], before[j]));
                        lemma_seq_lt_transitive(k.key(), before[i as int], before[j]);
                    }
                }
            }
            assert forall|j: int| 0 <= j < before.len() implies before[j] != k.key() by {
                if j < i {
                    assert(seq_lt(before[j], k.key()));
                } else {
                    assert(seq_lt(k.key(), before[j]));
                }
                lemma_seq_lt_irreflexive(k.key());
            }
        }
        let ghost old_entries = self.entries@;
        let mut entries: Vec<(K, V)> = Vec::new();
        std::mem::swap(&mut entries, &mut self.entries);
        entries.insert(i, (k, v));
        proof {
            let nk = entries@.map_values(|e: (K, V)| e.0.key());
            assert(nk =~= before.insert(i as int, k.key()));
            assert forall|a: int, b: int| 0 <= a < b < nk.len() implies seq_lt(
                #[trigger] nk[a],
                #[trigger] nk[b],
            ) by {
                if a < i && b < i {
                } else if a < i && b == i {
                } else if a < i && b > i {
                    assert(nk[b] == before[b - 1]);
                } else if a == i {
                    assert(nk[b] == before[b - 1]);
                } else {
                    assert(nk[a] == before[a - 1]);
                    assert(nk[b] == before[b - 1]);
                }
            }
        }
        self.entries = entries;
        proof {
            let nk = self.keys();
            assert(!before.contains(k.key()));
            assert(self.keys()[i as int] == k.key());
            self.lemma_index_of(i as int);
            assert forall|q: Seq<char>| q != k.key() implies self.lookup(q) == old(self).lookup(q) by {
                if old(self).contains(q) {
                    let j = before.index_of(q);
                    old(self).lemma_index_of(j);
                    let nj = if j < i { j } else { j + 1 };
                    assert(nk[nj] == q);
                    self.lemma_index_of(nj);
                } else {
                    if nk.contains(q) {
                        let j = nk.index_of(q);
                        if j < i {
                            assert(before[j] == q);
                        } else if j > i {
                            assert(before[j - 1] == q);
                        }
                    }
                }
            }
            assert forall|q: Seq<char>|
                #![trigger self.contains(q)]
                self.contains(q) <==> (old(self).contains(q) || q == k.key()) by {
                if old(self).contains(q) {
                    let j = before.index_of(q);
                    let nj = if j < i { j } else { j + 1 };
                    assert(nk[nj] == q);
                }
                if self.contains(q) && q != k.key() {
                    let j = nk.index_of(q);
                    if j < i {
                        assert(before[j] == q);
                    } else if j > i {
                        assert(before[j - 1] == q);
                    }
                }
            }
        }
        true
    }
}

impl<K: MapKey, V: Clone> Clone for OrderedMap<K, V> {
    /// A map with the same keys, in the same order, and cloned values.
    fn clone(&self) -> (r: Self)
        ensures
            r.keys() == self.keys(),
    {
        proof {
            use_type_invariant(self);
        }
        let mut entries: Vec<(K, V)> = Vec::new();
        let mut i: usize = 0;
        while i < self.entries.len()
            invariant
                i <= self.entries@.len(),
                entries@.map_values(|e: (K, V)| e.0.key()) =~= self.keys().take(i as int),
            decreases self.entries@.len() - i,
        {
            let k = self.entries[i].0.duplicate();
            let v = self.entries[i].1.clone();
            let ghost before = entries@;
            entries.push((k, v));
            proof {
                assert(entries@.map_values(|e: (K, V)| e.0.key()) =~= before.map_values(|e: (K, V)| e.0.key()).push(k.key()));
                assert(self.keys().take(i + 1) =~= self.keys().take(i as int).push(self.keys()[i as int]));
            }
            i = i + 1;
        }
        proof {
            assert(self.keys().take(i as int) =~= self.keys());
        }
        OrderedMap { entries }
    }
}

/// The value the last pair with key `q` carries.
pub open spec fn last_value_for<K: MapKey, V>(pairs: Seq<(K, V)>, q: Seq<char>) -> Option<V>
    decreases pairs.len(),
{
    if pairs.len() == 0 {
        None
    } else if pairs.last().0.key() == q {
        Some(pairs.last().1)
    } else {
        last_value_for(pairs.drop_last(), q)
    }
}

impl<K: MapKey, V> OrderedMap<K, V> {
    /// Stores `v` under `k`, replacing any value already there; returns
    /// whether a value was replaced.
    pub fn insert(&mut self, k: K, v: V) -> (replaced: bool)
        ensures
            replaced == old(self).contains(k.key()),
            final(self).contains(k.key()),
            final(self).lookup(k.key()) == Some(v),
            forall|q: Seq<char>| q != k.key() ==> final(self).lookup(q) == old(self).lookup(q),
            forall|q: Seq<char>|
                #![trigger final(self).contains(q)]
                final(self).contains(q) <==> (old(self).contains(q) || q == k.key()),
    {
        proof {
            use_type_invariant(&*self);
        }
        let kc = k.key_chars();
        match self.find(kc.as_slice()) {
            Some(i) => {
                let ghost before = self.keys();
                let mut entries: Vec<(K, V)> = Vec::new();
                std::mem::swap(&mut entries, &mut self.entries);
                entries.set(i, (k, v));
                proof {
                    assert(entries@.map_values(|e: (K, V)| e.0.key()) =~= before);
                }
                self.entries = entries;
                proof {
                    assert(self.keys() =~= before);
                    self.lemma_index_of(i as int);
                    assert forall|q: Seq<char>| q != k.key() implies self.lookup(q) == old(self).lookup(q) by {
                        if old(self).contains(q) {
                            let j = before.index_of(q);
                            old(self).lemma_index_of(j);
                            self.lemma_index_of(j);
                        }
                    }
                }
                true
            },
            None => {
                self.insert_new(k, v);
                false
            },
        }
    }

    /// References to the keys, in order.
    pub fn key_refs(&self) -> (r: Vec<&K>)
        ensures
            r@.len() == self.entries().len(),
            forall|i: int| 0 <= i < r@.len() ==> *#[trigger] r@[i] == self.entries()[i].0,
    {
        let mut out: Vec<&K> = Vec::new();
        let mut i: usize = 0;
        while i < self.entries.len()
            invariant
                i <= self.entries@.len(),
                out@.len() == i,
                forall|j: int| 0 <= j < i ==> *#[trigger] out@[j] == self.entries@[j].0,
            decreases self.entries@.len() - i,
        {
            out.push(&self.entries[i].0);
            i = i + 1;
        }
        out
    }

    /// References to the values, in key order.
    pub fn value_refs(&self) -> (r: Vec<&V>)
        ensures
            r@.len() == self.entries().len(),
            forall|i: int| 0 <= i < r@.len() ==> *#[trigger] r@[i] == self.entries()[i].1,
    {
        let mut out: Vec<&V> = Vec::new();
        let mut i: usize = 0;
        while i < self.entries.len()
            invariant
                i <= self.entries@.len(),
                out@.len() == i,
                forall|j: int| 0 <= j < i ==> *#[trigger] out@[j] == self.entries@[j].1,
            decreases self.entries@.len() - i,
        {
            out.push(&self.entries[i].1);
            i = i + 1;
        }
        out
    }

    /// The map holding exactly these entries, already in increasing key
    /// order.
    pub fn from_sorted_entries(entries: Vec<(K, V)>) -> (m: Self)
        requires
            strictly_increasing(entries@.map_values(|e: (K, V)| e.0.key())),
        ensures
            m.entries() == entries@,
    {
        OrderedMap { entries }
    }

    /// A map built by inserting the pairs in order; a later pair replaces an
    /// earlier one with the same key.
    pub fn from_pairs(pairs: Vec<(K, V)>) -> (m: Self)
        ensures
            forall|q: Seq<char>| #[trigger] m.lookup(q) == last_value_for(pairs@, q),
    {
        let mut m = OrderedMap::new();
        let mut rest = pairs;
        let mut taken: Vec<(K, V)> = Vec::new();
        let ghost all = rest@;
        // consume from the back, then insert from the front
        while rest.len() > 0
            invariant
                all == rest@ + taken@.reverse(),
            decreases rest@.len(),
        {
            let p = rest.pop().unwrap();
            taken.push(p);
            proof {
                assert(all =~= rest@ + taken@.reverse());
            }
        }
        proof {
            assert(all =~= taken@.reverse());
            assert(all.take(0) =~= Seq::<(K, V)>::empty());
        }
        let ghost n = taken@.len();
        while taken.len() > 0
            invariant
                forall|i: int| 0 <= i < taken@.len() ==> #[trigger] taken@[i] == all[n - 1 - i],
                taken@.len() <= n,
                n == all.len(),
                forall|q: Seq<char>| #[trigger] m.lookup(q) == last_value_for(all.take(n - taken@.len()), q),
            decreases taken@.len(),
        {
            let ghost done = n - taken@.len();
            let (k, v) = taken.pop().unwrap();
            proof {
                assert(all[done] == (k, v));
                assert(all.take(done + 1).drop_last() =~= all.take(done));
                assert(all.take(done + 1).last() == (k, v));
            }
            m.insert(k, v);
        }
        proof {
            assert(all.take(n as int) =~= all);
        }
        m
    }
}

/// Whether two character slices are equal.
pub fn chars_equal(a: &[char], b: &[char]) -> (r: bool)
    ensures
        r == (a@ == b@),
{
    if a.len() != b.len() {
        return false;
    }
    let mut i: usize = 0;
    while i < a.len()
        invariant
            a@.len() == b@.len(),
            i <= a@.len(),
            forall|j: int| 0 <= j < i ==> a@[j] == b@[j],
        decreases a@.len() - i,
    {
        if a[i] != b[i] {
            return false;
        }
        i = i + 1;
    }
    proof {
        assert(a@ =~= b@);
    }
    true
}

} // verus!
