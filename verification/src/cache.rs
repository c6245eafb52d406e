//! The memo of `(linearized set, model state)` pairs that the search has
//! already reached.
//!
//! Pairs are kept in buckets under the FNV-1a hash of the bitset's words,
//! so that a pair is always looked up where it was recorded; within a
//! bucket the bitsets are compared word by word and the states with the
//! model's `equal`.
use crate::bitset::{fnv1a, lemma_same_bits_same_words, Bitset};
use crate::model::Model;
use std::collections::HashMap;
use vstd::laws_eq::obeys_concrete_eq;
use vstd::prelude::*;

verus! {

broadcast use vstd::std_specs::hash::group_hash_axioms;

/// The bucket key of a bitset: the FNV-1a hash of its words.
pub open spec fn bucket_key(b: Bitset) -> u64 {
    fnv1a(b.words(), b.words().len())
}

pub struct Cache<M: Model> {
    map: HashMap<u64, Vec<(Bitset, M::State)>>,
}

impl<M: Model> Cache<M> {
    /// Every recorded bitset is well formed and sits in the bucket of its
    /// own key.
    pub closed spec fn wf(&self) -> bool {
        forall|k: u64, i: int|
            #![trigger self.map@[k]@[i]]
            self.map@.contains_key(k) && 0 <= i < self.map@[k]@.len() ==> {
                &&& self.map@[k]@[i].0.wf()
                &&& k == bucket_key(self.map@[k]@[i].0)
            }
    }

    /// Every recorded bitset has `n` bits.
    pub closed spec fn all_len(&self, n: nat) -> bool {
        forall|k: u64, i: int|
            #![trigger self.map@[k]@[i]]
            self.map@.contains_key(k) && 0 <= i < self.map@[k]@.len() ==> self.map@[k]@[i].0.len() == n
    }

    /// The pair `(set, state)` has been recorded.
    pub closed spec fn holds(&self, set: Set<int>, state: M::State) -> bool {
        exists|k: u64, i: int|
            #![trigger self.map@[k]@[i]]
            self.map@.contains_key(k) && 0 <= i < self.map@[k]@.len() && self.map@[k]@[i].0@ == set
                && self.map@[k]@[i].1 == state
    }

    /// A bitset with the length and the words of `b` has been recorded
    /// with `state`.
    pub closed spec fn holds_bits(&self, b: Bitset, state: M::State) -> bool {
        exists|k: u64, i: int|
            #![trigger self.map@[k]@[i]]
            self.map@.contains_key(k) && 0 <= i < self.map@[k]@.len() && self.map@[k]@[i].0.len()
                == b.len() && self.map@[k]@[i].0.words() == b.words() && self.map@[k]@[i].1 == state
    }

    pub fn new() -> (c: Self)
        ensures
            c.wf(),
            forall|n: nat| c.all_len(n),
            forall|set: Set<int>, state: M::State| !c.holds(set, state),
            forall|b: Bitset, state: M::State| !c.holds_bits(b, state),
    {
        Self { map: HashMap::new() }
    }

    /// Returns `true` if `(linearized, state)` has already been visited:
    /// when the model's `equal` decides state equality, exactly when a
    /// bitset equal to `linearized` was recorded with `state`.
    pub fn cache_contains(&self, linearized: &Bitset, state: &M::State) -> (r: bool)
        requires
            self.wf(),
        ensures
            obeys_concrete_eq::<M::State>() ==> (r <==> self.holds_bits(*linearized, *state)),
            obeys_concrete_eq::<M::State>() && linearized.wf() && self.all_len(linearized.len()) ==> (r
                <==> self.holds(linearized@, *state)),
    {
        let key = linearized.hash_val();
        let r = match self.map.get(&key) {
            None => false,
            Some(bucket) => {
                let mut found = false;
                let mut i: usize = 0;
                while !found && i < bucket.len()
                    invariant
                        i <= bucket@.len(),
                        self.map@.contains_key(key),
                        self.map@[key] == *bucket,
                        obeys_concrete_eq::<M::State>() ==> (found <==> exists|j: int|
                            0 <= j < i && bucket@[j].0.len() == linearized.len() && bucket@[j].0.words()
                                == linearized.words() && #[trigger] bucket@[j].1 == *state),
                    decreases bucket@.len() - i,
                {
                    let (bs, s) = &bucket[i];
                    if bs.same_as(linearized) && M::equal(s, state) {
                        found = true;
                    }
                    i = i + 1;
                }
                found
            },
        };
        proof {
            if obeys_concrete_eq::<M::State>() {
                if self.holds_bits(*linearized, *state) {
                    let (k, i) = choose|k: u64, i: int|
                        #![trigger self.map@[k]@[i]]
                        self.map@.contains_key(k) && 0 <= i < self.map@[k]@.len()
                            && self.map@[k]@[i].0.len() == linearized.len() && self.map@[k]@[i].0.words()
                            == linearized.words() && self.map@[k]@[i].1 == *state;
                    assert(k == key);
                    assert(self.map@[key]@[i].1 == *state);
                }
                if r {
                    let bucket = self.map@[key];
                    let j = choose|j: int|
                        0 <= j < bucket@.len() && bucket@[j].0.len() == linearized.len()
                            && bucket@[j].0.words() == linearized.words() && #[trigger] bucket@[j].1
                            == *state;
                    assert(self.map@[key]@[j].1 == *state);
                }
                if linearized.wf() && self.all_len(linearized.len()) {
                    if self.holds(linearized@, *state) {
                        let (k, i) = choose|k: u64, i: int|
                            #![trigger self.map@[k]@[i]]
                            self.map@.contains_key(k) && 0 <= i < self.map@[k]@.len()
                                && self.map@[k]@[i].0@ == linearized@ && self.map@[k]@[i].1 == *state;
                        lemma_same_bits_same_words(self.map@[k]@[i].0, *linearized);
                        assert(self.holds_bits(*linearized, *state));
                    }
                    if self.holds_bits(*linearized, *state) {
                        let (k, i) = choose|k: u64, i: int|
                            #![trigger self.map@[k]@[i]]
                            self.map@.contains_key(k) && 0 <= i < self.map@[k]@.len()
                                && self.map@[k]@[i].0.len() == linearized.len() && self.map@[k]@[i].0.words()
                                == linearized.words() && self.map@[k]@[i].1 == *state;
                        assert(self.map@[k]@[i].0@ =~= linearized@);
                        assert(self.holds(linearized@, *state));
                    }
                }
            }
        }
        r
    }

    /// Record `(linearized, state)` as visited.
    pub fn cache_insert(&mut self, linearized: Bitset, state: M::State)
        requires
            old(self).wf(),
            linearized.wf(),
        ensures
            final(self).wf(),
            forall|n: nat| old(self).all_len(n) && linearized.len() == n ==> final(self).all_len(n),
            forall|set: Set<int>, s: M::State| #[trigger]
                final(self).holds(set, s) <==> old(self).holds(set, s) || (set == linearized@ && s
                    == state),
            forall|b: Bitset, s: M::State| #[trigger]
                final(self).holds_bits(b, s) <==> old(self).holds_bits(b, s) || (b.len()
                    == linearized.len() && b.words() == linearized.words() && s == state),
    {
        let key = linearized.hash_val();
        let ghost old_map = self.map@;
        let ghost lin = linearized;
        let mut bucket = match self.map.remove(&key) {
            Some(b) => b,
            None => Vec::new(),
        };
        let ghost old_bucket = bucket@;
        proof {
            if old_map.contains_key(key) {
                assert(old_bucket == old_map[key]@);
            } else {
                assert(old_bucket.len() == 0);
            }
        }
        bucket.push((linearized, state));
        self.map.insert(key, bucket);
        proof {
            let new_map = self.map@;
            let last = old_bucket.len() as int;
            assert forall|k: u64, i: int|
                #![trigger new_map[k]@[i]]
                new_map.contains_key(k) && 0 <= i < new_map[k]@.len() implies {
                &&& new_map[k]@[i].0.wf()
                &&& k == bucket_key(new_map[k]@[i].0)
            } by {
                if k != key || i < last {
                    assert(old_map[k]@[i] == new_map[k]@[i]);
                }
            }
            assert forall|n: nat| old(self).all_len(n) && lin.len() == n implies self.all_len(n) by {
                assert forall|k: u64, i: int|
                    #![trigger new_map[k]@[i]]
                    new_map.contains_key(k) && 0 <= i < new_map[k]@.len() implies new_map[k]@[i].0.len()
                    == n by {
                    if k != key || i < last {
                        assert(old_map[k]@[i] == new_map[k]@[i]);
                    }
                }
            }
            assert forall|set: Set<int>, s: M::State| #[trigger]
                self.holds(set, s) <==> old(self).holds(set, s) || (set == lin@ && s == state) by {
                if self.holds(set, s) {
                    let (k, i) = choose|k: u64, i: int|
                        #![trigger new_map[k]@[i]]
                        new_map.contains_key(k) && 0 <= i < new_map[k]@.len() && new_map[k]@[i].0@
                            == set && new_map[k]@[i].1 == s;
                    if k != key || i < last {
                        assert(old_map[k]@[i] == new_map[k]@[i]);
                    }
                }
                if old(self).holds(set, s) {
                    let (k, i) = choose|k: u64, i: int|
                        #![trigger old_map[k]@[i]]
                        old_map.contains_key(k) && 0 <= i < old_map[k]@.len() && old_map[k]@[i].0@
                            == set && old_map[k]@[i].1 == s;
                    assert(new_map[k]@[i] == old_map[k]@[i]);
                }
                if set == lin@ && s == state {
                    assert(new_map[key]@[last].0@ == set && new_map[key]@[last].1 == s);
                }
            }
            assert forall|b: Bitset, s: M::State| #[trigger]
                self.holds_bits(b, s) <==> old(self).holds_bits(b, s) || (b.len() == lin.len()
                    && b.words() == lin.words() && s == state) by {
                if self.holds_bits(b, s) {
                    let (k, i) = choose|k: u64, i: int|
                        #![trigger new_map[k]@[i]]
                        new_map.contains_key(k) && 0 <= i < new_map[k]@.len() && new_map[k]@[i].0.len()
                            == b.len() && new_map[k]@[i].0.words() == b.words() && new_map[k]@[i].1 == s;
                    if k != key || i < last {
                        assert(old_map[k]@[i] == new_map[k]@[i]);
                    }
                }
                if old(self).holds_bits(b, s) {
                    let (k, i) = choose|k: u64, i: int|
                        #![trigger old_map[k]@[i]]
                        old_map.contains_key(k) && 0 <= i < old_map[k]@.len() && old_map[k]@[i].0.len()
                            == b.len() && old_map[k]@[i].0.words() == b.words() && old_map[k]@[i].1 == s;
                    assert(new_map[k]@[i] == old_map[k]@[i]);
                }
                if b.len() == lin.len() && b.words() == lin.words() && s == state {
                    assert(new_map[key]@[last].0.len() == b.len());
                }
            }
        }
    }
}

} // verus!
