//! Whole-map mutation: filtering with a predicate, and mapping every value
//! in place.  Each rebuilds the table from its drained pairs, so the
//! abstract contents are tracked exactly through the caller's function.

use vstd::prelude::*;
use crate::IntMap;

verus! {

broadcast use crate::lemma_view;

impl<V> IntMap<V> {
    /// Keeps exactly the pairs for which the predicate answers true;
    /// `len()` drops by the number of pairs removed.
    pub fn retain<F: Fn(u64, &V) -> bool>(&mut self, f: F)
        requires
            old(self).wf(),
            old(self)@.dom().len() + 1 <= usize::MAX / 4,
            forall|k: u64, v: &V|
                old(self)@.contains_key(k) && *v == old(self)@[k] ==> call_requires(f, (k, v)),
        ensures
            final(self).wf(),
            forall|k: u64| #[trigger]
                final(self)@.contains_key(k) ==> old(self)@.contains_key(k) && final(self)@[k]
                    == old(self)@[k],
            forall|k: u64|
                old(self)@.contains_key(k) && #[trigger] final(self)@.contains_key(k)
                    ==> exists|v: &V| *v == old(self)@[k] && call_ensures(f, (k, v), true),
            forall|k: u64|
                old(self)@.contains_key(k) && !(#[trigger] final(self)@.contains_key(k))
                    ==> exists|v: &V| *v == old(self)@[k] && call_ensures(f, (k, v), false),
    {
        proof {
            self.lemma_count_is_distinct_keys();
        }
        let ghost m0 = self@;
        let ghost nkeys = self@.dom().len() as int;
        let mut pairs = self.drain();
        let ghost all = pairs@;
        while pairs.len() > 0
            invariant
                self.wf(),
                all.len() == nkeys,
                nkeys + 1 <= usize::MAX / 4,
                pairs@ == all.take(pairs@.len() as int),
                forall|t: int|
                    0 <= t < all.len() ==> m0.contains_key((#[trigger] all[t]).0) && all[t].1
                        == m0[all[t].0],
                forall|t1: int, t2: int|
                    0 <= t1 < t2 < all.len() ==> (#[trigger] all[t1]).0 != (#[trigger] all[t2]).0,
                forall|k: u64, v: &V|
                    m0.contains_key(k) && *v == m0[k] ==> call_requires(f, (k, v)),
                forall|k: u64| #[trigger]
                    self@.contains_key(k) ==> m0.contains_key(k) && self@[k] == m0[k],
                forall|k: u64| #[trigger]
                    self@.contains_key(k) ==> exists|s: int|
                        pairs@.len() <= s < all.len() && (#[trigger] all[s]).0 == k,
                forall|s: int|
                    pairs@.len() <= s < all.len() ==> ((self@.contains_key((#[trigger] all[s]).0)
                        ==> exists|v: &V|
                        *v == m0[all[s].0] && call_ensures(f, (all[s].0, v), true)) && (
                    !self@.contains_key(all[s].0) ==> exists|v: &V|
                        *v == m0[all[s].0] && call_ensures(f, (all[s].0, v), false))),
                self@.dom().len() + pairs@.len() <= all.len(),
            decreases pairs@.len(),
        {
            let ghost m = pairs@.len() - 1;
            let kv = pairs.pop().unwrap();
            proof {
                assert(kv == all.take(m + 1)[m]);
                assert(kv == all[m]);
                assert(pairs@ =~= all.take(m));
                self.lemma_count_is_distinct_keys();
                if self@.contains_key(kv.0) {
                    let s = choose|s: int| m + 1 <= s < all.len() && (#[trigger] all[s]).0 == kv.0;
                    assert(all[s].0 != all[m].0);
                }
            }
            let keep = f(kv.0, &kv.1);
            if keep {
                self.insert(kv.0, kv.1);
            }
            proof {
                self.lemma_count_is_distinct_keys();
                assert forall|s: int|
                    pairs@.len() <= s < all.len() implies ((self@.contains_key(
                    (#[trigger] all[s]).0,
                ) ==> exists|v: &V| *v == m0[all[s].0] && call_ensures(f, (all[s].0, v), true)) && (
                !self@.contains_key(all[s].0) ==> exists|v: &V|
                    *v == m0[all[s].0] && call_ensures(f, (all[s].0, v), false))) by {
                    if s > m {
                        assert(all[s].0 != all[m].0);
                    }
                }
            }
        }
        proof {
            assert(pairs@.len() == 0);
            assert forall|k: u64|
                m0.contains_key(k) && #[trigger] self@.contains_key(k) implies exists|v: &V|
                    *v == m0[k] && call_ensures(f, (k, v), true) by {
                let s = choose|s: int| 0 <= s < all.len() && (#[trigger] all[s]).0 == k;
            }
            assert forall|k: u64|
                m0.contains_key(k) && !(#[trigger] self@.contains_key(k)) implies exists|v: &V|
                    *v == m0[k] && call_ensures(f, (k, v), false) by {
                let s = choose|s: int| 0 <= s < all.len() && (#[trigger] all[s]).0 == k;
            }
        }
    }

    /// Applies the function to every stored pair and stores its result as
    /// the pair's new value; keys are unchanged.
    pub fn iter_mut<F: Fn(u64, &V) -> V>(&mut self, f: F)
        requires
            old(self).wf(),
            old(self)@.dom().len() + 1 <= usize::MAX / 4,
            forall|k: u64, v: &V|
                old(self)@.contains_key(k) && *v == old(self)@[k] ==> call_requires(f, (k, v)),
        ensures
            final(self).wf(),
            forall|k: u64| #[trigger]
                final(self)@.contains_key(k) <==> old(self)@.contains_key(k),
            forall|k: u64|
                old(self)@.contains_key(k) ==> exists|v: &V|
                    *v == old(self)@[k] && call_ensures(f, (k, v), final(self)@[k]),
    {
        proof {
            self.lemma_count_is_distinct_keys();
        }
        let ghost m0 = self@;
        let ghost nkeys = self@.dom().len() as int;
        let mut pairs = self.drain();
        let ghost all = pairs@;
        while pairs.len() > 0
            invariant
                self.wf(),
                all.len() == nkeys,
                nkeys + 1 <= usize::MAX / 4,
                pairs@ == all.take(pairs@.len() as int),
                forall|t: int|
                    0 <= t < all.len() ==> m0.contains_key((#[trigger] all[t]).0) && all[t].1
                        == m0[all[t].0],
                forall|t1: int, t2: int|
                    0 <= t1 < t2 < all.len() ==> (#[trigger] all[t1]).0 != (#[trigger] all[t2]).0,
                forall|k: u64|
                    m0.contains_key(k) ==> exists|t: int| 0 <= t < all.len() && (#[trigger] all[
                        t]).0 == k,
                forall|k: u64, v: &V|
                    m0.contains_key(k) && *v == m0[k] ==> call_requires(f, (k, v)),
                forall|k: u64| #[trigger]
                    self@.contains_key(k) ==> m0.contains_key(k),
                forall|k: u64| #[trigger]
                    self@.contains_key(k) ==> exists|s: int|
                        pairs@.len() <= s < all.len() && (#[trigger] all[s]).0 == k,
                forall|s: int|
                    pairs@.len() <= s < all.len() ==> self@.contains_key((#[trigger] all[s]).0)
                        && exists|v: &V|
                        *v == m0[all[s].0] && call_ensures(f, (all[s].0, v), self@[all[s].0]),
                self@.dom().len() + pairs@.len() <= all.len(),
            decreases pairs@.len(),
        {
            let ghost m = pairs@.len() - 1;
            let kv = pairs.pop().unwrap();
            proof {
                assert(kv == all.take(m + 1)[m]);
                assert(kv == all[m]);
                assert(pairs@ =~= all.take(m));
                self.lemma_count_is_distinct_keys();
                assert(!self@.contains_key(kv.0)) by {
                    if self@.contains_key(kv.0) {
                        let s = choose|s: int|
                            m + 1 <= s < all.len() && (#[trigger] all[s]).0 == kv.0;
                        assert(all[s].0 != all[m].0);
                        assert(false);
                    }
                }
                assert(m0.contains_key(kv.0) && kv.1 == m0[kv.0]);
            }
            let ghost mid = self@;
            let w = f(kv.0, &kv.1);
            self.insert(kv.0, w);
            proof {
                self.lemma_count_is_distinct_keys();
                assert forall|s: int|
                    pairs@.len() <= s < all.len() implies self@.contains_key(
                    (#[trigger] all[s]).0,
                ) && exists|v: &V|
                    *v == m0[all[s].0] && call_ensures(f, (all[s].0, v), self@[all[s].0]) by {
                    if s > m {
                        assert(all[s].0 != all[m].0);
                        assert(mid.contains_key(all[s].0));
                        assert(self@[all[s].0] == mid[all[s].0]);
                        let v0 = choose|v: &V|
                            *v == m0[all[s].0] && call_ensures(f, (all[s].0, v), mid[all[s].0]);
                        assert(*v0 == m0[all[s].0] && call_ensures(
                            f,
                            (all[s].0, v0),
                            self@[all[s].0],
                        ));
                    } else {
                        assert(self@[all[m].0] == w);
                        assert(*(&kv.1) == m0[all[m].0] && call_ensures(
                            f,
                            (all[m].0, &kv.1),
                            self@[all[m].0],
                        ));
                    }
                }
            }
        }
        proof {
            assert forall|k: u64| #[trigger]
                self@.contains_key(k) <==> m0.contains_key(k) by {
                if m0.contains_key(k) {
                    let t = choose|t: int| 0 <= t < all.len() && (#[trigger] all[t]).0 == k;
                }
            }
            assert forall|k: u64| m0.contains_key(k) implies exists|v: &V|
                *v == m0[k] && call_ensures(f, (k, v), self@[k]) by {
                let t = choose|t: int| 0 <= t < all.len() && (#[trigger] all[t]).0 == k;
            }
        }
    }

    /// Applies the function to every stored value and stores its result in
    /// place; keys are unchanged.
    pub fn values_mut<F: Fn(&V) -> V>(&mut self, f: F)
        requires
            old(self).wf(),
            old(self)@.dom().len() + 1 <= usize::MAX / 4,
            forall|v: &V| (exists|k: u64| old(self)@.contains_key(k) && *v == old(self)@[k])
                ==> call_requires(f, (v,)),
        ensures
            final(self).wf(),
            forall|k: u64| #[trigger]
                final(self)@.contains_key(k) <==> old(self)@.contains_key(k),
            forall|k: u64|
                old(self)@.contains_key(k) ==> exists|v: &V|
                    *v == old(self)@[k] && call_ensures(f, (v,), final(self)@[k]),
    {
        proof {
            self.lemma_count_is_distinct_keys();
        }
        let ghost m0 = self@;
        let ghost nkeys = self@.dom().len() as int;
        let mut pairs = self.drain();
        let ghost all = pairs@;
        while pairs.len() > 0
            invariant
                self.wf(),
                all.len() == nkeys,
                nkeys + 1 <= usize::MAX / 4,
                pairs@ == all.take(pairs@.len() as int),
                forall|t: int|
                    0 <= t < all.len() ==> m0.contains_key((#[trigger] all[t]).0) && all[t].1
                        == m0[all[t].0],
                forall|t1: int, t2: int|
                    0 <= t1 < t2 < all.len() ==> (#[trigger] all[t1]).0 != (#[trigger] all[t2]).0,
                forall|k: u64|
                    m0.contains_key(k) ==> exists|t: int| 0 <= t < all.len() && (#[trigger] all[
                        t]).0 == k,
                forall|v: &V|
                    (exists|k: u64| m0.contains_key(k) && *v == m0[k]) ==> call_requires(f, (v,)),
                forall|k: u64| #[trigger]
                    self@.contains_key(k) ==> m0.contains_key(k),
                forall|k: u64| #[trigger]
                    self@.contains_key(k) ==> exists|s: int|
                        pairs@.len() <= s < all.len() && (#[trigger] all[s]).0 == k,
                forall|s: int|
                    pairs@.len() <= s < all.len() ==> self@.contains_key((#[trigger] all[s]).0)
                        && exists|v: &V|
                        *v == m0[all[s].0] && call_ensures(f, (v,), self@[all[s].0]),
                self@.dom().len() + pairs@.len() <= all.len(),
            decreases pairs@.len(),
        {
            let ghost m = pairs@.len() - 1;
            let kv = pairs.pop().unwrap();
            proof {
                assert(kv == all.take(m + 1)[m]);
                assert(kv == all[m]);
                assert(pairs@ =~= all.take(m));
                self.lemma_count_is_distinct_keys();
                assert(!self@.contains_key(kv.0)) by {
                    if self@.contains_key(kv.0) {
                        let s = choose|s: int|
                            m + 1 <= s < all.len() && (#[trigger] all[s]).0 == kv.0;
                        assert(all[s].0 != all[m].0);
                        assert(false);
                    }
                }
                assert(m0.contains_key(kv.0) && kv.1 == m0[kv.0]);
            }
            let ghost mid = self@;
            let w = f(&kv.1);
            self.insert(kv.0, w);
            proof {
                self.lemma_count_is_distinct_keys();
                assert forall|s: int|
                    pairs@.len() <= s < all.len() implies self@.contains_key(
                    (#[trigger] all[s]).0,
                ) && exists|v: &V|
                    *v == m0[all[s].0] && call_ensures(f, (v,), self@[all[s].0]) by {
                    if s > m {
                        assert(all[s].0 != all[m].0);
                        assert(mid.contains_key(all[s].0));
                        assert(self@[all[s].0] == mid[all[s].0]);
                        let v0 = choose|v: &V|
                            *v == m0[all[s].0] && call_ensures(f, (v,), mid[all[s].0]);
                        assert(*v0 == m0[all[s].0] && call_ensures(f, (v0,), self@[all[s].0]));
                    } else {
                        assert(self@[all[m].0] == w);
                        assert(*(&kv.1) == m0[all[m].0] && call_ensures(
                            f,
                            (&kv.1,),
                            self@[all[m].0],
                        ));
                    }
                }
            }
        }
        proof {
            assert forall|k: u64| #[trigger]
                self@.contains_key(k) <==> m0.contains_key(k) by {
                if m0.contains_key(k) {
                    let t = choose|t: int| 0 <= t < all.len() && (#[trigger] all[t]).0 == k;
                }
            }
            assert forall|k: u64| m0.contains_key(k) implies exists|v: &V|
                *v == m0[k] && call_ensures(f, (v,), self@[k]) by {
                let t = choose|t: int| 0 <= t < all.len() && (#[trigger] all[t]).0 == k;
            }
        }
    }
}

} // verus!
