//! A set of paths, hashed by a fingerprint of their UTF-8 bytes so that a
//! membership test looks at one bucket only.

use vstd::prelude::*;
use vstd::std_specs::hash::{group_hash_axioms, DefaultHasherAdditionalSpecFns};
use vstd::utf8::encode_utf8;
use std::collections::HashMap;
use std::collections::hash_map::DefaultHasher;
use std::hash::Hasher;
use crate::bytes::{le_u32, push_u32};

verus! {

broadcast use group_hash_axioms;

/// The fingerprint of a path: the default hasher over its UTF-8 bytes.
pub open spec fn fingerprint_of(s: Seq<char>) -> u64 {
    DefaultHasher::spec_finish(seq![encode_utf8(s)])
}

/// The fingerprint of `s`.
pub fn fingerprint(s: &str) -> (r: u64)
    ensures
        r == fingerprint_of(s@),
{
    let mut h = DefaultHasher::new();
    h.write(s.as_bytes());
    h.finish()
}

/// What the default hasher is fed for a list of names: for each name, its
/// UTF-8 length as four little-endian bytes, then its UTF-8 bytes.
pub open spec fn names_hash_input(names: Seq<Seq<char>>) -> Seq<Seq<u8>>
    decreases names.len(),
{
    if names.len() == 0 {
        Seq::empty()
    } else {
        names_hash_input(names.drop_last()).push(le_u32(encode_utf8(names.last()).len() as u32)).push(
            encode_utf8(names.last()),
        )
    }
}

/// A fingerprint of a list of names: the default hasher over each name's
/// length and bytes, in order.
pub fn names_fingerprint(names: &Vec<String>) -> (r: u64)
    ensures
        r == DefaultHasher::spec_finish(names_hash_input(names@.map_values(|s: String| s@))),
{
    let ghost ns = names@.map_values(|s: String| s@);
    let mut h = DefaultHasher::new();
    let mut i: usize = 0;
    while i < names.len()
        invariant
            ns == names@.map_values(|s: String| s@),
            i <= names@.len(),
            h@ == names_hash_input(ns.take(i as int)),
        decreases names@.len() - i,
    {
        let bytes = names[i].as_str().as_bytes();
        let mut len: Vec<u8> = Vec::new();
        push_u32(&mut len, bytes.len() as u32);
        assert(len@ =~= le_u32(bytes@.len() as u32));
        h.write(len.as_slice());
        h.write(bytes);
        assert(ns.take(i + 1).drop_last() =~= ns.take(i as int));
        i += 1;
    }
    assert(ns.take(i as int) =~= ns);
    h.finish()
}

pub open spec fn bucket_view(b: Vec<String>) -> Seq<Seq<char>> {
    b@.map_values(|s: String| s@)
}

proof fn lemma_push_contains(sq: Seq<Seq<char>>, a: Seq<char>, x: Seq<char>)
    ensures
        sq.push(a).contains(x) <==> (sq.contains(x) || x == a),
{
    if sq.contains(x) {
        let j = choose|j: int| 0 <= j < sq.len() && sq[j] == x;
        assert(sq.push(a)[j] == x);
    }
    if x == a {
        assert(sq.push(a)[sq.len() as int] == x);
    }
    if sq.push(a).contains(x) && x != a {
        let j = choose|j: int| 0 <= j < sq.push(a).len() && sq.push(a)[j] == x;
        assert(sq[j] == x);
    }
}

/// A set of paths.
pub struct PathSet {
    buckets: HashMap<u64, Vec<String>>,
}

impl View for PathSet {
    type V = Set<Seq<char>>;

    closed spec fn view(&self) -> Set<Seq<char>> {
        Set::new(
            |x: Seq<char>|
                self.buckets@.contains_key(fingerprint_of(x)) && bucket_view(
                    self.buckets@[fingerprint_of(x)],
                ).contains(x),
        )
    }
}

impl PathSet {
    /// Every path sits in the bucket of its fingerprint.
    pub closed spec fn wf(&self) -> bool {
        &&& forall|k: u64, i: int|
            #![trigger self.buckets@[k]@[i]]
            self.buckets@.contains_key(k) && 0 <= i < self.buckets@[k]@.len() ==> fingerprint_of(
                self.buckets@[k]@[i]@,
            ) == k
        &&& forall|k: u64| #[trigger] self.buckets@.contains_key(k) ==> self.buckets@[k]@.len() > 0
    }

    /// Whether the set is empty.
    pub fn is_empty(&self) -> (r: bool)
        requires
            self.wf(),
        ensures
            r == (self@ == Set::<Seq<char>>::empty()),
    {
        let r = self.buckets.is_empty();
        proof {
            if r {
                assert(self@ =~= Set::<Seq<char>>::empty());
            } else {
                let k = choose|k: u64| self.buckets@.contains_key(k);
                let x = self.buckets@[k]@[0]@;
                assert(fingerprint_of(x) == k);
                assert(bucket_view(self.buckets@[k])[0] == x);
                assert(self@.contains(x));
            }
        }
        r
    }

    /// The empty set.
    pub fn new() -> (r: PathSet)
        ensures
            r.wf(),
            r@ == Set::<Seq<char>>::empty(),
    {
        let r = PathSet { buckets: HashMap::new() };
        assert(r@ =~= Set::<Seq<char>>::empty());
        r
    }

    /// Whether `s` is in the set.
    pub fn contains(&self, s: &String) -> (r: bool)
        requires
            self.wf(),
        ensures
            r == self@.contains(s@),
    {
        let k = fingerprint(s.as_str());
        match self.buckets.get(&k) {
            Some(b) => {
                let ghost bv = bucket_view(*b);
                assert(self.buckets@.contains_key(k) && self.buckets@[k] == *b);
                let mut i: usize = 0;
                while i < b.len()
                    invariant
                        k == fingerprint_of(s@),
                        self.buckets@.contains_key(k) && self.buckets@[k] == *b,
                        i <= b@.len(),
                        bv == bucket_view(*b),
                        forall|j: int| 0 <= j < i ==> bv[j] != s@,
                    decreases b@.len() - i,
                {
                    if b[i] == *s {
                        assert(bv[i as int] == s@);
                        assert(bv.contains(s@));
                        assert(self.buckets@.contains_key(fingerprint_of(s@)));
                        return true;
                    }
                    i += 1;
                }
                false
            },
            None => false,
        }
    }

    /// Adds `s` to the set.
    pub fn insert(&mut self, s: String)
        requires
            old(self).wf(),
        ensures
            final(self).wf(),
            final(self)@ == old(self)@.insert(s@),
    {
        let k = fingerprint(s.as_str());
        let mut bucket = match self.buckets.remove(&k) {
            Some(b) => b,
            None => Vec::new(),
        };
        let ghost old_bucket = bucket;
        bucket.push(s);
        self.buckets.insert(k, bucket);
        proof {
            let m0 = old(self).buckets@;
            let m1 = self.buckets@;
            assert forall|x: Seq<char>| #[trigger] self@.contains(x) == old(self)@.insert(s@).contains(
                x,
            ) by {
                let kx = fingerprint_of(x);
                if kx == k {
                    let ov = bucket_view(old_bucket);
                    assert(bucket_view(m1[k]) =~= ov.push(s@));
                    lemma_push_contains(ov, s@, x);
                    if m0.contains_key(k) {
                        assert(old_bucket == m0[k]);
                    } else {
                        assert(ov =~= Seq::<Seq<char>>::empty());
                    }
                } else {
                    assert(x != s@);
                    assert(m1.contains_key(kx) == m0.contains_key(kx));
                    if m0.contains_key(kx) {
                        assert(m1[kx] == m0[kx]);
                    }
                }
            }
            assert(self@ =~= old(self)@.insert(s@));
            assert forall|kk: u64| #[trigger] m1.contains_key(kk) implies m1[kk]@.len() > 0 by {
                if kk != k {
                    assert(m0.contains_key(kk));
                }
            }
            assert forall|kk: u64, i: int|
                #![trigger m1[kk]@[i]]
                m1.contains_key(kk) && 0 <= i < m1[kk]@.len() implies fingerprint_of(m1[kk]@[i]@)
                == kk by {
                if kk == k {
                    if i < old_bucket@.len() {
                        assert(m0.contains_key(k) && old_bucket == m0[k]);
                    }
                }
            }
        }
    }
}

} // verus!
