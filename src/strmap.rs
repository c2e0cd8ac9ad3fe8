//! A map from strings to 64-bit numbers that keeps its keys in insertion order.

use vstd::prelude::*;
use vstd::std_specs::hash::group_hash_axioms;
use std::collections::HashMap;
use crate::entry::copy_string;
use crate::pathset::{fingerprint, fingerprint_of};

verus! {

broadcast use group_hash_axioms;

/// Position of the last pair among the first `n` whose key is `k`, or -1.
pub open spec fn index_of(s: Seq<(Seq<char>, u64)>, k: Seq<char>, n: int) -> int
    decreases n,
{
    if n <= 0 {
        -1
    } else if s[n - 1].0 == k {
        n - 1
    } else {
        index_of(s, k, n - 1)
    }
}

/// The map that a sequence of pairs stands for.
pub open spec fn pairs_map(s: Seq<(Seq<char>, u64)>) -> Map<Seq<char>, u64> {
    Map::new(
        |k: Seq<char>| index_of(s, k, s.len() as int) >= 0,
        |k: Seq<char>| s[index_of(s, k, s.len() as int)].1,
    )
}

/// Keys with no repeats.
pub open spec fn keys_unique(s: Seq<(Seq<char>, u64)>) -> bool {
    forall|i: int, j: int| 0 <= i < j < s.len() ==> (#[trigger] s[i]).0 != (#[trigger] s[j]).0
}

pub proof fn lemma_index_of_bounds(s: Seq<(Seq<char>, u64)>, k: Seq<char>, n: int)
    requires
        0 <= n <= s.len(),
    ensures
        -1 <= index_of(s, k, n) < n,
        index_of(s, k, n) >= 0 ==> s[index_of(s, k, n)].0 == k,
        index_of(s, k, n) < 0 ==> forall|j: int| 0 <= j < n ==> (#[trigger] s[j]).0 != k,
    decreases n,
{
    if n > 0 {
        lemma_index_of_bounds(s, k, n - 1);
    }
}

pub proof fn lemma_index_of_agree(s: Seq<(Seq<char>, u64)>, t: Seq<(Seq<char>, u64)>, k: Seq<char>, n: int)
    requires
        0 <= n,
        n <= s.len(),
        n <= t.len(),
        forall|j: int| 0 <= j < n ==> (#[trigger] s[j]).0 == t[j].0,
    ensures
        index_of(s, k, n) == index_of(t, k, n),
    decreases n,
{
    if n > 0 {
        lemma_index_of_agree(s, t, k, n - 1);
    }
}

/// With unique keys, the pair at `i` is found by its key.
pub proof fn lemma_index_of_unique(s: Seq<(Seq<char>, u64)>, i: int)
    requires
        keys_unique(s),
        0 <= i < s.len(),
    ensures
        index_of(s, s[i].0, s.len() as int) == i,
{
    let k = s[i].0;
    lemma_index_of_bounds(s, k, s.len() as int);
    let j = index_of(s, k, s.len() as int);
    if j != i {
        if j < i {
            assert(s[j].0 != s[i].0);
        } else {
            assert(s[i].0 != s[j].0);
        }
    }
}

proof fn lemma_map_update(s: Seq<(Seq<char>, u64)>, i: int, key: Seq<char>, v: u64)
    requires
        0 <= i < s.len(),
        index_of(s, key, s.len() as int) == i,
    ensures
        pairs_map(s.update(i, (key, v))) == pairs_map(s).insert(key, v),
{
    let t = s.update(i, (key, v));
    lemma_index_of_bounds(s, key, s.len() as int);
    assert forall|q: Seq<char>| #[trigger] index_of(t, q, t.len() as int) == index_of(
        s,
        q,
        s.len() as int,
    ) by {
        lemma_index_of_agree(s, t, q, s.len() as int);
    }
    assert forall|q: Seq<char>| q != key && index_of(s, q, s.len() as int) >= 0 implies t[index_of(
        s,
        q,
        s.len() as int,
    )] == #[trigger] s[index_of(s, q, s.len() as int)] by {
        lemma_index_of_bounds(s, q, s.len() as int);
    }
    assert(pairs_map(t) =~= pairs_map(s).insert(key, v));
}

proof fn lemma_map_push(s: Seq<(Seq<char>, u64)>, key: Seq<char>, v: u64)
    requires
        index_of(s, key, s.len() as int) == -1,
    ensures
        pairs_map(s.push((key, v))) == pairs_map(s).insert(key, v),
{
    let t = s.push((key, v));
    assert forall|q: Seq<char>| q != key implies #[trigger] index_of(t, q, t.len() as int)
        == index_of(s, q, s.len() as int) by {
        assert(t[s.len() as int].0 == key);
        lemma_index_of_agree(s, t, q, s.len() as int);
    }
    assert forall|q: Seq<char>| q != key && index_of(s, q, s.len() as int) >= 0 implies t[index_of(
        s,
        q,
        s.len() as int,
    )] == #[trigger] s[index_of(s, q, s.len() as int)] by {
        lemma_index_of_bounds(s, q, s.len() as int);
    }
    assert(pairs_map(t) =~= pairs_map(s).insert(key, v));
}

/// `m` with one more under `k`: a new key starts at 1; a count at the
/// maximum stays there.
pub open spec fn count_one(m: Map<Seq<char>, u64>, k: Seq<char>) -> Map<Seq<char>, u64> {
    m.insert(
        k,
        if !m.contains_key(k) {
            1
        } else if m[k] == u64::MAX {
            m[k]
        } else {
            (m[k] + 1) as u64
        },
    )
}

/// `m` with one more under each of `ks`.
pub open spec fn counted(m: Map<Seq<char>, u64>, ks: Seq<Seq<char>>) -> Map<Seq<char>, u64>
    decreases ks.len(),
{
    if ks.len() == 0 {
        m
    } else {
        count_one(counted(m, ks.drop_last()), ks.last())
    }
}

/// A map from strings to numbers, held as pairs with unique keys.
pub struct StrMap {
    items: Vec<(String, u64)>,
    slots: HashMap<u64, Vec<usize>>,
}

pub open spec fn pair_view(p: (String, u64)) -> (Seq<char>, u64) {
    (p.0@, p.1)
}

impl StrMap {
    /// The pairs, in insertion order.
    pub closed spec fn pairs(&self) -> Seq<(Seq<char>, u64)> {
        self.items@.map_values(|p: (String, u64)| pair_view(p))
    }

    pub open spec fn wf(&self) -> bool {
        keys_unique(self.pairs()) && self.slots_ok()
    }

    /// Every pair's position is in the slot of its key's fingerprint, and
    /// every slot holds only positions of keys with that fingerprint.
    pub closed spec fn slots_ok(&self) -> bool {
        &&& forall|i: int|
            0 <= i < self.items@.len() ==> self.slots@.contains_key(
                fingerprint_of(#[trigger] self.items@[i].0@),
            ) && self.slots@[fingerprint_of(self.items@[i].0@)]@.contains(i as usize)
        &&& forall|h: u64, j: int|
            #![trigger self.slots@[h]@[j]]
            self.slots@.contains_key(h) && 0 <= j < self.slots@[h]@.len() ==> self.slots@[h]@[j]
                < self.items@.len() && fingerprint_of(self.items@[self.slots@[h]@[j] as int].0@) == h
    }

    pub open spec fn spec_len(&self) -> nat {
        self.pairs().len()
    }

    /// An empty map.
    pub fn new() -> (r: StrMap)
        ensures
            r.wf(),
            r.pairs() == Seq::<(Seq<char>, u64)>::empty(),
            r@ == Map::<Seq<char>, u64>::empty(),
    {
        let r = StrMap { items: Vec::new(), slots: HashMap::new() };
        assert(r.pairs() =~= Seq::<(Seq<char>, u64)>::empty());
        assert(r@ =~= Map::<Seq<char>, u64>::empty());
        r
    }

    /// The number of keys.
    pub fn len(&self) -> (r: usize)
        ensures
            r == self.pairs().len(),
    {
        self.items.len()
    }

    /// The key and value of the pair at `i`.
    pub fn pair_at(&self, i: usize) -> (r: (&String, u64))
        requires
            i < self.pairs().len(),
        ensures
            r.0@ == self.pairs()[i as int].0,
            r.1 == self.pairs()[i as int].1,
    {
        let p = &self.items[i];
        (&p.0, p.1)
    }

    fn find(&self, k: &String) -> (r: Option<usize>)
        requires
            self.wf(),
        ensures
            match r {
                Some(i) => i < self.pairs().len() && i as int == index_of(
                    self.pairs(),
                    k@,
                    self.pairs().len() as int,
                ),
                None => index_of(self.pairs(), k@, self.pairs().len() as int) == -1,
            },
    {
        let ghost s = self.pairs();
        let len = self.items.len();
        let h = fingerprint(k.as_str());
        proof {
            lemma_index_of_bounds(s, k@, s.len() as int);
        }
        match self.slots.get(&h) {
            Some(slot) => {
                let mut j: usize = 0;
                while j < slot.len()
                    invariant
                        s == self.pairs(),
                        self.wf(),
                        len == self.items@.len(),
                        h == fingerprint_of(k@),
                        self.slots@.contains_key(h) && self.slots@[h] == *slot,
                        j <= slot@.len(),
                        forall|q: int| 0 <= q < j ==> s[slot@[q] as int].0 != k@,
                    decreases slot@.len() - j,
                {
                    let pos = slot[j];
                    assert(pos < self.items@.len());
                    assert(s[pos as int] == pair_view(self.items@[pos as int]));
                    if self.items[pos].0 == *k {
                        proof {
                            lemma_index_of_unique(s, pos as int);
                        }
                        return Some(pos);
                    }
                    j += 1;
                }
                proof {
                    if index_of(s, k@, s.len() as int) >= 0 {
                        let i = index_of(s, k@, s.len() as int);
                        assert(i < len);
                        let iu = i as usize;
                        assert(s[i] == pair_view(self.items@[i]));
                        assert(self.slots@[h]@.contains(iu));
                        let q = choose|q: int| 0 <= q < slot@.len() && slot@[q] == iu;
                        assert(s[slot@[q] as int].0 == k@);
                    }
                }
                None
            },
            None => {
                proof {
                    if index_of(s, k@, s.len() as int) >= 0 {
                        let i = index_of(s, k@, s.len() as int);
                        assert(s[i] == pair_view(self.items@[i]));
                    }
                }
                None
            },
        }
    }

    /// The value under `k`.
    pub fn get(&self, k: &String) -> (r: Option<u64>)
        requires
            self.wf(),
        ensures
            r == (if self@.contains_key(k@) {
                Some(self@[k@])
            } else {
                None::<u64>
            }),
    {
        match self.find(k) {
            Some(i) => Some(self.items[i].1),
            None => None,
        }
    }

    /// Sets the value under `k`, adding the key at the end when it is new.
    pub fn insert(&mut self, k: String, v: u64)
        requires
            old(self).wf(),
        ensures
            final(self).wf(),
            final(self)@ == old(self)@.insert(k@, v),
            old(self)@.contains_key(k@) ==> final(self).pairs().len() == old(self).pairs().len(),
            !old(self)@.contains_key(k@) ==> final(self).pairs() == old(self).pairs().push((k@, v)),
    {
        let ghost s = self.pairs();
        let ghost key = k@;
        proof {
            lemma_index_of_bounds(s, key, s.len() as int);
        }
        match self.find(&k) {
            Some(i) => {
                let ghost items0 = self.items@;
                self.items.set(i, (k, v));
                assert(self.pairs() =~= s.update(i as int, (key, v)));
                proof {
                    lemma_map_update(s, i as int, key, v);
                    assert(s[i as int] == pair_view(items0[i as int]));
                    assert forall|a: int| 0 <= a < self.items@.len() implies self.items@[a].0@
                        == #[trigger] items0[a].0@ by {}
                    let t = self.pairs();
                    assert forall|a: int, b: int| 0 <= a < b < t.len() implies (#[trigger] t[a]).0
                        != (#[trigger] t[b]).0 by {
                        assert(t[a].0 == s[a].0);
                        assert(t[b].0 == s[b].0);
                    }
                }
            },
            None => {
                let h = fingerprint(k.as_str());
                let n = self.items.len();
                let ghost items0 = self.items@;
                let ghost slots0 = self.slots@;
                self.items.push((k, v));
                let mut slot = match self.slots.remove(&h) {
                    Some(sl) => sl,
                    None => Vec::new(),
                };
                let ghost slot0 = slot@;
                slot.push(n);
                self.slots.insert(h, slot);
                assert(self.pairs() =~= s.push((key, v)));
                proof {
                    lemma_map_push(s, key, v);
                    let t = self.pairs();
                    assert forall|a: int, b: int| 0 <= a < b < t.len() implies (#[trigger] t[a]).0
                        != (#[trigger] t[b]).0 by {
                        if b == s.len() {
                            assert(t[a] == s[a]);
                        } else {
                            assert(t[a] == s[a] && t[b] == s[b]);
                        }
                    }
                    assert(slots0.contains_key(h) ==> slot0 == slots0[h]@);
                    assert(!slots0.contains_key(h) ==> slot0 == Seq::<usize>::empty());
                    assert forall|i: int|
                        0 <= i < self.items@.len() implies self.slots@.contains_key(
                        fingerprint_of(#[trigger] self.items@[i].0@),
                    ) && self.slots@[fingerprint_of(self.items@[i].0@)]@.contains(i as usize) by {
                        let fi = fingerprint_of(self.items@[i].0@);
                        if i < n {
                            assert(self.items@[i] == items0[i]);
                            assert(slots0.contains_key(fi) && slots0[fi]@.contains(i as usize));
                            if fi == h {
                                let q = choose|q: int| 0 <= q < slot0.len() && slot0[q] == i as usize;
                                assert(self.slots@[h]@[q] == i as usize);
                            }
                        } else {
                            assert(self.slots@[h]@[slot0.len() as int] == n);
                        }
                    }
                    assert forall|hh: u64, j: int|
                        #![trigger self.slots@[hh]@[j]]
                        self.slots@.contains_key(hh) && 0 <= j < self.slots@[hh]@.len() implies self.slots@[hh]@[j]
                        < self.items@.len() && fingerprint_of(
                        self.items@[self.slots@[hh]@[j] as int].0@,
                    ) == hh by {
                        if hh == h {
                            if j < slot0.len() {
                                assert(self.slots@[hh]@[j] == slots0[h]@[j]);
                            }
                        } else {
                            assert(self.slots@[hh] == slots0[hh]);
                        }
                    }
                }
            },
        }
    }

    /// Adds one to the count under each of `names` (a new key starts at 1;
    /// a count at the maximum stays there).
    pub fn count_each(&mut self, names: &Vec<String>)
        requires
            old(self).wf(),
        ensures
            final(self).wf(),
            final(self)@ == counted(old(self)@, names@.map_values(|s: String| s@)),
    {
        let ghost ks = names@.map_values(|s: String| s@);
        let ghost m0 = self@;
        let mut i: usize = 0;
        while i < names.len()
            invariant
                ks == names@.map_values(|s: String| s@),
                i <= names@.len(),
                self.wf(),
                self@ == counted(m0, ks.take(i as int)),
            decreases names@.len() - i,
        {
            let k = copy_string(&names[i]);
            let n = match self.get(&k) {
                Some(c) => if c == u64::MAX {
                    c
                } else {
                    c + 1
                },
                None => 1,
            };
            self.insert(k, n);
            assert(ks.take(i + 1).drop_last() =~= ks.take(i as int));
            i += 1;
        }
        assert(ks.take(i as int) =~= ks);
    }

    /// The map holding `v`'s pairs in order; `None` when a key repeats.
    pub fn from_pairs(v: &Vec<(String, u64)>) -> (r: Option<StrMap>)
        ensures
            match r {
                Some(m) => m.wf() && m.pairs() == v@.map_values(|p: (String, u64)| pair_view(p)),
                None => !keys_unique(v@.map_values(|p: (String, u64)| pair_view(p))),
            },
    {
        let ghost s = v@.map_values(|p: (String, u64)| pair_view(p));
        let mut m = StrMap::new();
        let mut i: usize = 0;
        while i < v.len()
            invariant
                s == v@.map_values(|p: (String, u64)| pair_view(p)),
                i <= v@.len(),
                m.wf(),
                m.pairs() == s.take(i as int),
            decreases v@.len() - i,
        {
            let k = copy_string(&v[i].0);
            assert(s[i as int] == pair_view(v@[i as int]));
            if m.get(&k).is_some() {
                proof {
                    let t = m.pairs();
                    lemma_index_of_bounds(t, k@, t.len() as int);
                    let j = index_of(t, k@, t.len() as int);
                    assert(s[j] == t[j]);
                    assert(s[j].0 == s[i as int].0);
                }
                return None;
            }
            proof {
                lemma_index_of_bounds(m.pairs(), k@, m.pairs().len() as int);
            }
            m.insert(k, v[i].1);
            i += 1;
            assert(m.pairs() =~= s.take(i as int));
        }
        assert(s.take(i as int) =~= s);
        Some(m)
    }
}

impl View for StrMap {
    type V = Map<Seq<char>, u64>;

    open spec fn view(&self) -> Map<Seq<char>, u64> {
        pairs_map(self.pairs())
    }
}

} // verus!
