//! The hot-entry window: a bounded list of decoded entries, most recently
//! used first. It only saves decoding work; it never decides a result.

use vstd::prelude::*;
use crate::entry::{DirEntry, EntryView};

verus! {

pub type WindowView = Seq<(Seq<char>, EntryView)>;

/// Position of the first item whose key is `k`, or -1.
pub open spec fn find_key(w: WindowView, k: Seq<char>) -> int
    decreases w.len(),
{
    if w.len() == 0 {
        -1
    } else if w[0].0 == k {
        0
    } else if find_key(w.drop_first(), k) < 0 {
        -1
    } else {
        find_key(w.drop_first(), k) + 1
    }
}

pub open spec fn window_keys_unique(w: WindowView) -> bool {
    forall|i: int, j: int| 0 <= i < j < w.len() ==> (#[trigger] w[i]).0 != (#[trigger] w[j]).0
}

/// The window after the item at `i` is used: it moves to the front.
pub open spec fn touch(w: WindowView, i: int) -> WindowView {
    seq![w[i]] + w.remove(i)
}

/// The window after `(k, e)` is stored: any older item under `k` leaves, the
/// new item goes to the front, and the last item leaves when over capacity.
pub open spec fn put(w: WindowView, cap: nat, k: Seq<char>, e: EntryView) -> WindowView {
    let rest = if find_key(w, k) >= 0 {
        w.remove(find_key(w, k))
    } else {
        w
    };
    let front = seq![(k, e)] + rest;
    if front.len() > cap {
        front.take(cap as int)
    } else {
        front
    }
}

pub proof fn lemma_find_key(w: WindowView, k: Seq<char>)
    ensures
        -1 <= find_key(w, k) < w.len(),
        find_key(w, k) >= 0 ==> w[find_key(w, k)].0 == k,
        find_key(w, k) >= 0 ==> forall|j: int| 0 <= j < find_key(w, k) ==> (#[trigger] w[j]).0 != k,
        find_key(w, k) < 0 ==> forall|j: int| 0 <= j < w.len() ==> (#[trigger] w[j]).0 != k,
    decreases w.len(),
{
    if w.len() > 0 && w[0].0 != k {
        let t = w.drop_first();
        lemma_find_key(t, k);
        let f = find_key(w, k);
        if f >= 0 {
            assert forall|j: int| 0 <= j < f implies (#[trigger] w[j]).0 != k by {
                if j > 0 {
                    assert(w[j] == t[j - 1]);
                }
            }
            assert(w[f] == t[f - 1]);
        } else {
            assert forall|j: int| 0 <= j < w.len() implies (#[trigger] w[j]).0 != k by {
                if j > 0 {
                    assert(w[j] == t[j - 1]);
                }
            }
        }
    }
}

/// Bounded most-recently-used list of decoded entries.
pub struct HotWindow {
    items: Vec<(String, DirEntry)>,
    capacity: usize,
}

pub open spec fn item_view(p: (String, DirEntry)) -> (Seq<char>, EntryView) {
    (p.0@, p.1@)
}

impl View for HotWindow {
    type V = WindowView;

    closed spec fn view(&self) -> WindowView {
        self.items@.map_values(|p: (String, DirEntry)| item_view(p))
    }
}

impl HotWindow {
    pub closed spec fn cap(&self) -> nat {
        self.capacity as nat
    }

    pub open spec fn wf(&self) -> bool {
        &&& window_keys_unique(self@)
        &&& self@.len() <= self.cap()
    }

    /// An empty window that holds at most `capacity` entries.
    pub fn new(capacity: usize) -> (r: HotWindow)
        ensures
            r.wf(),
            r@ == WindowView::empty(),
            r.cap() == capacity,
    {
        let r = HotWindow { items: Vec::new(), capacity };
        assert(r@ =~= WindowView::empty());
        r
    }

    pub fn len(&self) -> (r: usize)
        ensures
            r == self@.len(),
    {
        self.items.len()
    }

    pub fn capacity(&self) -> (r: usize)
        ensures
            r == self.cap(),
    {
        self.capacity
    }

    /// Forgets every entry.
    pub fn clear(&mut self)
        ensures
            final(self).wf(),
            final(self)@ == WindowView::empty(),
            final(self).cap() == old(self).cap(),
    {
        self.items.clear();
        assert(self@ =~= WindowView::empty());
    }

    fn position(&self, k: &String) -> (r: Option<usize>)
        ensures
            match r {
                Some(i) => i < self@.len() && i as int == find_key(self@, k@),
                None => find_key(self@, k@) == -1,
            },
    {
        let ghost w = self@;
        proof {
            lemma_find_key(w, k@);
        }
        let mut i: usize = 0;
        while i < self.items.len()
            invariant
                w == self@,
                i <= w.len(),
                forall|j: int| 0 <= j < i ==> (#[trigger] w[j]).0 != k@,
                -1 <= find_key(w, k@) < w.len(),
                find_key(w, k@) >= 0 ==> w[find_key(w, k@)].0 == k@,
                find_key(w, k@) >= 0 ==> forall|j: int|
                    0 <= j < find_key(w, k@) ==> (#[trigger] w[j]).0 != k@,
                find_key(w, k@) < 0 ==> forall|j: int| 0 <= j < w.len() ==> (#[trigger] w[j]).0 != k@,
            decreases w.len() - i,
        {
            assert(w[i as int] == item_view(self.items@[i as int]));
            if self.items[i].0 == *k {
                return Some(i);
            }
            i += 1;
        }
        None
    }

    /// The entry under `k`, which then becomes the most recently used.
    pub fn lookup(&mut self, k: &String) -> (r: Option<DirEntry>)
        requires
            old(self).wf(),
        ensures
            final(self).wf(),
            final(self).cap() == old(self).cap(),
            match r {
                Some(e) => find_key(old(self)@, k@) >= 0 && e@ == old(self)@[find_key(
                    old(self)@,
                    k@,
                )].1 && final(self)@ == touch(old(self)@, find_key(old(self)@, k@)),
                None => find_key(old(self)@, k@) == -1 && final(self)@ == old(self)@,
            },
    {
        let ghost w = self@;
        proof {
            lemma_find_key(w, k@);
        }
        match self.position(k) {
            Some(i) => {
                let item = self.items.remove(i);
                let copy = item.1.duplicate();
                self.items.insert(0, item);
                assert(self@ =~= touch(w, i as int));
                assert forall|a: int, b: int| 0 <= a < b < self@.len() implies (#[trigger] self@[a]).0
                    != (#[trigger] self@[b]).0 by {
                    let oa = if a == 0 { i as int } else if a - 1 < i { a - 1 } else { a };
                    let ob = if b == 0 { i as int } else if b - 1 < i { b - 1 } else { b };
                    assert(self@[a] == w[oa]);
                    assert(self@[b] == w[ob]);
                }
                Some(copy)
            },
            None => None,
        }
    }

    /// Stores `e` under `k` as the most recently used entry, dropping the
    /// least recently used one when over capacity.
    pub fn store(&mut self, k: String, e: DirEntry)
        requires
            old(self).wf(),
        ensures
            final(self).wf(),
            final(self).cap() == old(self).cap(),
            final(self)@ == put(old(self)@, old(self).cap(), k@, e@),
    {
        let ghost w = self@;
        let ghost key = k@;
        let ghost ev = e@;
        proof {
            lemma_find_key(w, key);
        }
        let ghost rest = if find_key(w, key) >= 0 {
            w.remove(find_key(w, key))
        } else {
            w
        };
        match self.position(&k) {
            Some(i) => {
                self.items.remove(i);
            },
            None => {},
        }
        assert(self@ =~= rest);
        assert forall|j: int| 0 <= j < rest.len() implies (#[trigger] rest[j]).0 != key by {
            if find_key(w, key) >= 0 {
                let f = find_key(w, key);
                if j < f {
                    assert(rest[j] == w[j]);
                } else {
                    assert(rest[j] == w[j + 1]);
                    assert(w[f].0 != w[j + 1].0);
                }
            }
        }
        assert forall|a: int, b: int| 0 <= a < b < rest.len() implies (#[trigger] rest[a]).0
            != (#[trigger] rest[b]).0 by {
            if find_key(w, key) >= 0 {
                let f = find_key(w, key);
                let oa = if a < f { a } else { a + 1 };
                let ob = if b < f { b } else { b + 1 };
                assert(rest[a] == w[oa]);
                assert(rest[b] == w[ob]);
            }
        }
        self.items.insert(0, (k, e));
        let ghost front = seq![(key, ev)] + rest;
        assert(self@ =~= front);
        if self.items.len() > self.capacity {
            self.items.pop();
            assert(self@ =~= front.take(self.capacity as int));
        }
        assert forall|a: int, b: int| 0 <= a < b < self@.len() implies (#[trigger] self@[a]).0
            != (#[trigger] self@[b]).0 by {
            assert(self@[a] == front[a]);
            assert(self@[b] == front[b]);
            if a > 0 {
                assert(front[a] == rest[a - 1]);
            }
            assert(front[b] == rest[b - 1]);
        }
    }
}

/// With the window full, storing an entry under a new key evicts exactly the
/// least recently used entry; every other entry stays, in order, behind it.
pub proof fn lemma_full_window_evicts_oldest(w: WindowView, cap: nat, k: Seq<char>, e: EntryView)
    requires
        window_keys_unique(w),
        w.len() == cap,
        cap >= 1,
        find_key(w, k) == -1,
    ensures
        put(w, cap, k, e) == seq![(k, e)] + w.drop_last(),
        forall|j: int|
            0 <= j < put(w, cap, k, e).len() ==> (#[trigger] put(w, cap, k, e)[j]).0 != w.last().0,
{
    assert(put(w, cap, k, e) =~= seq![(k, e)] + w.drop_last());
    lemma_find_key(w, k);
    let r = put(w, cap, k, e);
    assert forall|j: int| 0 <= j < r.len() implies (#[trigger] r[j]).0 != w.last().0 by {
        if j > 0 {
            assert(r[j] == w[j - 1]);
            assert(w[j - 1].0 != w[w.len() - 1].0);
        } else {
            assert(w[w.len() - 1].0 != k);
        }
    }
}

/// Using an entry moves it to the front, so that storing one new entry into
/// the full window does not evict it.
pub proof fn lemma_touch_protects(w: WindowView, cap: nat, i: int, k: Seq<char>, e: EntryView)
    requires
        window_keys_unique(w),
        w.len() == cap,
        cap >= 2,
        0 <= i < w.len(),
        find_key(w, k) == -1,
    ensures
        put(touch(w, i), cap, k, e)[1] == w[i],
{
    let t = touch(w, i);
    lemma_find_key(w, k);
    lemma_find_key(t, k);
    if find_key(t, k) >= 0 {
        let f = find_key(t, k);
        if f == 0 {
            assert(t[0] == w[i]);
        } else {
            let o = if f - 1 < i { f - 1 } else { f };
            assert(t[f] == w[o]);
        }
    }
    let front = seq![(k, e)] + t;
    assert(front[1] == w[i]);
}

} // verus!
