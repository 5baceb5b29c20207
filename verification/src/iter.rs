//! The iteration family: read-only traversal, projections to keys and
//! values, and the draining traversal that empties the map.
//!
//! Each traversal walks the buckets in order and each chain front to back,
//! and returns the visited pairs as a vector.

use vstd::prelude::*;
use crate::chains::{
    cs_has, lemma_chain_at, lemma_pairs_of_empty, lemma_pairs_take_step, pairs_of,
};
use crate::{bucket_of, lemma_view, IntMap};

verus! {

broadcast use crate::lemma_view;

impl<V> IntMap<V> {
    /// All stored pairs, bucket order then chain order, each value by
    /// reference.  Every stored key appears exactly once.
    pub fn iter(&self) -> (r: Vec<(u64, &V)>)
        requires
            self.wf(),
        ensures
            r@.len() == self@.dom().len(),
            forall|t: int|
                0 <= t < r@.len() ==> ((#[trigger] r@[t]).0, *r@[t].1) == pairs_of(
                    self.chains(),
                )[t],
            forall|t: int|
                0 <= t < r@.len() ==> self@.contains_key((#[trigger] r@[t]).0) && *r@[t].1
                    == self@[r@[t].0],
            forall|t1: int, t2: int|
                0 <= t1 < t2 < r@.len() ==> (#[trigger] r@[t1]).0 != (#[trigger] r@[t2]).0,
            forall|k: u64|
                self@.contains_key(k) ==> exists|t: int| 0 <= t < r@.len() && (#[trigger] r@[
                    t]).0 == k,
    {
        proof {
            lemma_view(self);
            self.lemma_count_is_distinct_keys();
        }
        let ghost cs = self.chains();
        let ghost mask = self.mod_mask;
        let n = self.cache.len();
        let mut r: Vec<(u64, &V)> = Vec::new();
        let mut i: usize = 0;
        while i < n
            invariant
                self.wf(),
                n == self.cache@.len(),
                i <= n,
                cs == self.chains(),
                mask == self.mod_mask,
                r@.len() == pairs_of(cs.take(i as int)).len(),
                forall|t: int|
                    0 <= t < r@.len() ==> ((#[trigger] r@[t]).0, *r@[t].1) == pairs_of(
                        cs.take(i as int),
                    )[t],
                forall|t: int|
                    0 <= t < r@.len() ==> self@.contains_key((#[trigger] r@[t]).0) && *r@[t].1
                        == self@[r@[t].0],
                forall|t: int| 0 <= t < r@.len() ==> bucket_of((#[trigger] r@[t]).0, mask) < i as int,
                forall|t1: int, t2: int|
                    0 <= t1 < t2 < r@.len() ==> (#[trigger] r@[t1]).0 != (#[trigger] r@[t2]).0,
                forall|k: u64|
                    self@.contains_key(k) && bucket_of(k, mask) < i as int ==> exists|t: int|
                        0 <= t < r@.len() && (#[trigger] r@[t]).0 == k,
            decreases n - i,
        {
            let ghost base = pairs_of(cs.take(i as int)).len() as int;
            proof {
                lemma_pairs_take_step(cs, i as int);
            }
            let chain = &self.cache[i];
            let m = chain.len();
            let mut j: usize = 0;
            while j < m
                invariant
                    self.wf(),
                    n == self.cache@.len(),
                    i < n,
                    cs == self.chains(),
                    mask == self.mod_mask,
                    m == chain@.len(),
                    chain@ == cs[i as int],
                    j <= m,
                    base == pairs_of(cs.take(i as int)).len() as int,
                    r@.len() == base + j,
                    forall|t: int|
                        0 <= t < base ==> ((#[trigger] r@[t]).0, *r@[t].1) == pairs_of(
                            cs.take(i as int),
                        )[t],
                    forall|t: int|
                        base <= t < r@.len() ==> ((#[trigger] r@[t]).0, *r@[t].1) == cs[i as int][t
                            - base],
                    forall|t: int|
                        0 <= t < r@.len() ==> self@.contains_key((#[trigger] r@[t]).0) && *r@[t].1
                            == self@[r@[t].0],
                    forall|t: int| 0 <= t < base ==> bucket_of((#[trigger] r@[t]).0, mask) < i as int,
                    forall|t: int|
                        base <= t < r@.len() ==> bucket_of((#[trigger] r@[t]).0, mask) == i as int,
                    forall|t1: int, t2: int|
                        0 <= t1 < t2 < r@.len() ==> (#[trigger] r@[t1]).0 != (#[trigger] r@[t2]).0,
                    forall|k: u64|
                        self@.contains_key(k) && bucket_of(k, mask) < i as int ==> exists|t: int|
                            0 <= t < r@.len() && (#[trigger] r@[t]).0 == k,
                decreases m - j,
            {
                let key = chain[j].0;
                let ghost rpre = r@;
                r.push((key, &chain[j].1));
                proof {
                    assert forall|k: u64|
                        self@.contains_key(k) && bucket_of(k, mask) < i as int implies exists|
                        t: int|
                            0 <= t < r@.len() && (#[trigger] r@[t]).0 == k by {
                        let t0 = choose|t: int| 0 <= t < rpre.len() && (#[trigger] rpre[t]).0 == k;
                        assert(r@[t0] == rpre[t0]);
                    }
                    lemma_chain_at(cs[i as int], key, j as int);
                    assert(cs_has(cs, mask, key));
                    assert(self@.contains_key(key) && self@[key] == chain@[j as int].1);
                    assert forall|t1: int, t2: int|
                        0 <= t1 < t2 < r@.len() implies (#[trigger] r@[t1]).0 != (
                    #[trigger] r@[t2]).0 by {
                        if t2 == r@.len() - 1 && t1 >= base {
                            assert(r@[t1].0 == cs[i as int][t1 - base].0);
                            assert(cs[i as int][t1 - base].0 != cs[i as int][j as int].0);
                        }
                    }
                }
                j += 1;
            }
            i += 1;
            proof {
                assert forall|k: u64|
                    self@.contains_key(k) && bucket_of(k, mask) < i as int implies exists|t: int|
                        0 <= t < r@.len() && (#[trigger] r@[t]).0 == k by {
                    if bucket_of(k, mask) == i - 1 {
                        assert(cs_has(cs, mask, k));
                        let s = choose|s: int|
                            0 <= s < cs[i - 1].len() && (#[trigger] cs[i - 1][s]).0 == k;
                        assert(r@[base + s].0 == k);
                    }
                }
            }
        }
        proof {
            assert(cs.take(n as int) =~= cs);
            assert forall|k: u64| self@.contains_key(k) implies exists|t: int|
                0 <= t < r@.len() && (#[trigger] r@[t]).0 == k by {
                assert(cs_has(cs, mask, k));
            }
        }
        r
    }

    /// All stored keys, in traversal order, each exactly once.
    pub fn keys(&self) -> (r: Vec<u64>)
        requires
            self.wf(),
        ensures
            r@.len() == self@.dom().len(),
            forall|t: int| 0 <= t < r@.len() ==> #[trigger] r@[t] == pairs_of(self.chains())[t].0,
            forall|t1: int, t2: int| 0 <= t1 < t2 < r@.len() ==> r@[t1] != r@[t2],
            forall|k: u64| #[trigger] r@.contains(k) <==> self@.contains_key(k),
    {
        let pairs = self.iter();
        let n = pairs.len();
        let mut r: Vec<u64> = Vec::new();
        let mut t: usize = 0;
        while t < n
            invariant
                n == pairs@.len(),
                t <= n,
                r@.len() == t as int,
                forall|s: int| 0 <= s < t ==> #[trigger] r@[s] == pairs@[s].0,
            decreases n - t,
        {
            r.push(pairs[t].0);
            t += 1;
        }
        proof {
            assert forall|k: u64| #[trigger] r@.contains(k) <==> self@.contains_key(k) by {
                if r@.contains(k) {
                    let s = choose|s: int| 0 <= s < r@.len() && r@[s] == k;
                    assert(pairs@[s].0 == k);
                }
                if self@.contains_key(k) {
                    let s = choose|s: int| 0 <= s < pairs@.len() && (#[trigger] pairs@[s]).0 == k;
                    assert(r@[s] == k);
                }
            }
        }
        r
    }

    /// All stored values, by reference, in traversal order.
    pub fn values(&self) -> (r: Vec<&V>)
        requires
            self.wf(),
        ensures
            r@.len() == self@.dom().len(),
            forall|t: int| 0 <= t < r@.len() ==> *#[trigger] r@[t] == pairs_of(self.chains())[t].1,
            forall|t: int|
                0 <= t < r@.len() ==> self@.contains_key(#[trigger] pairs_of(self.chains())[t].0)
                    && *r@[t] == self@[pairs_of(self.chains())[t].0],
    {
        let pairs = self.iter();
        let n = pairs.len();
        let mut r: Vec<&V> = Vec::new();
        let mut t: usize = 0;
        while t < n
            invariant
                n == pairs@.len(),
                t <= n,
                r@.len() == t as int,
                forall|s: int| 0 <= s < t ==> *#[trigger] r@[s] == pairs@[s].1,
                forall|s: int|
                    0 <= s < pairs@.len() ==> self@.contains_key((#[trigger] pairs@[s]).0)
                        && *pairs@[s].1 == self@[pairs@[s].0],
                forall|s: int|
                    0 <= s < pairs@.len() ==> ((#[trigger] pairs@[s]).0, *pairs@[s].1) == pairs_of(
                        self.chains(),
                    )[s],
                forall|s: int|
                    0 <= s < t ==> self@.contains_key(#[trigger] pairs_of(self.chains())[s].0)
                        && *r@[s] == self@[pairs_of(self.chains())[s].0],
            decreases n - t,
        {
            r.push(pairs[t].1);
            proof {
                let s = r@.len() - 1;
                assert(pairs@[s].0 == pairs_of(self.chains())[s].0);
                assert(self@.contains_key(pairs@[s].0) && *r@[s] == self@[pairs@[s].0]);
            }
            t += 1;
        }
        r
    }

    /// Removes and returns every stored pair, in traversal order, leaving
    /// the map empty with its bucket array intact.
    #[verifier::rlimit(50)]
    pub fn drain(&mut self) -> (r: Vec<(u64, V)>)
        requires
            old(self).wf(),
        ensures
            final(self).wf(),
            final(self)@ == Map::<u64, V>::empty(),
            final(self).spec_capacity() == old(self).spec_capacity(),
            r@ == pairs_of(old(self).chains()),
            r@.len() == old(self)@.dom().len(),
            forall|t: int|
                0 <= t < r@.len() ==> old(self)@.contains_key((#[trigger] r@[t]).0) && r@[t].1
                    == old(self)@[r@[t].0],
            forall|t1: int, t2: int|
                0 <= t1 < t2 < r@.len() ==> (#[trigger] r@[t1]).0 != (#[trigger] r@[t2]).0,
            forall|k: u64|
                old(self)@.contains_key(k) ==> exists|t: int| 0 <= t < r@.len() && (#[trigger] r@[
                    t]).0 == k,
    {
        proof {
            lemma_view(self);
            self.lemma_count_is_distinct_keys();
        }
        let ghost m0 = self@;
        let ghost cs = self.chains();
        let ghost mask = self.mod_mask;
        let n = self.cache.len();
        let mut r: Vec<(u64, V)> = Vec::new();
        let mut i: usize = 0;
        while i < n
            invariant
                n == self.cache@.len(),
                cs.len() == n as int,
                crate::chains::chains_ok(cs, mask),
                forall|k: u64| #[trigger] m0.contains_key(k) <==> cs_has(cs, mask, k),
                forall|k: u64| cs_has(cs, mask, k) ==> #[trigger] m0[k] == crate::chains::cs_val(
                    cs,
                    mask,
                    k,
                ),
                i <= n,
                self.size == old(self).size,
                self.mod_mask == old(self).mod_mask,
                self.count == old(self).count,
                forall|t: int| 0 <= t < i ==> (#[trigger] self.chains()[t]).len() == 0,
                forall|t: int| i <= t < n ==> #[trigger] self.chains()[t] == cs[t],
                r@ == pairs_of(cs.take(i as int)),
                forall|t: int|
                    0 <= t < r@.len() ==> m0.contains_key((#[trigger] r@[t]).0) && r@[t].1
                        == m0[r@[t].0],
                forall|t: int| 0 <= t < r@.len() ==> bucket_of((#[trigger] r@[t]).0, mask) < i as int,
                forall|t1: int, t2: int|
                    0 <= t1 < t2 < r@.len() ==> (#[trigger] r@[t1]).0 != (#[trigger] r@[t2]).0,
                forall|k: u64|
                    m0.contains_key(k) && bucket_of(k, mask) < i as int ==> exists|t: int|
                        0 <= t < r@.len() && (#[trigger] r@[t]).0 == k,
            decreases n - i,
        {
            let ghost base = pairs_of(cs.take(i as int)).len() as int;
            let ghost pre = self.chains();
            proof {
                lemma_pairs_take_step(cs, i as int);
            }
            let bucket = &mut self.cache[i];
            let ghost rpre = r@;
            r.append(bucket);
            i += 1;
            proof {
                assert(self.chains() =~= pre.update(i - 1 as int, Seq::<(u64, V)>::empty()));
                assert(pre[i - 1 as int] == cs[i - 1 as int]);
                assert(r@ == pairs_of(cs.take(i - 1 as int)) + cs[i - 1 as int]);
                assert(r@ == pairs_of(cs.take(i as int)));
                assert forall|t: int|
                    base <= t < r@.len() implies m0.contains_key((#[trigger] r@[t]).0)
                    && r@[t].1 == m0[r@[t].0] && bucket_of(r@[t].0, mask) == i - 1 by {
                    assert(r@[t] == cs[i - 1][t - base]);
                    lemma_chain_at(cs[i - 1], cs[i - 1][t - base].0, t - base);
                    assert(cs_has(cs, mask, r@[t].0));
                }
                assert forall|t1: int, t2: int|
                    0 <= t1 < t2 < r@.len() implies (#[trigger] r@[t1]).0 != (
                #[trigger] r@[t2]).0 by {
                    if t1 >= base {
                        assert(r@[t1] == cs[i - 1][t1 - base]);
                        assert(r@[t2] == cs[i - 1][t2 - base]);
                        assert(cs[i - 1][t1 - base].0 != cs[i - 1][t2 - base].0);
                    } else if t2 >= base {
                        assert(bucket_of(r@[t1].0, mask) < i - 1);
                        assert(bucket_of(r@[t2].0, mask) == i - 1);
                    }
                }
                assert forall|k: u64|
                    m0.contains_key(k) && bucket_of(k, mask) < i as int implies exists|
                    t: int|
                        0 <= t < r@.len() && (#[trigger] r@[t]).0 == k by {
                    if bucket_of(k, mask) == i - 1 {
                        assert(cs_has(cs, mask, k));
                        let s = choose|s: int|
                            0 <= s < cs[i - 1].len() && (#[trigger] cs[i - 1][s]).0 == k;
                        assert(r@[base + s].0 == k);
                    } else {
                        let t0 = choose|t: int| 0 <= t < rpre.len() && (#[trigger] rpre[t]).0 == k;
                        assert(r@[t0] == rpre[t0]);
                    }
                }
            }
        }
        let ghost cleared = self.chains();
        self.count = 0;
        proof {
            assert(self.chains() =~= cleared);
            lemma_pairs_of_empty(self.chains());
            assert(self.as_map() =~= Map::<u64, V>::empty()) by {
                assert forall|k: u64| !cs_has(self.chains(), self.mod_mask, k) by {
                    if 0 <= bucket_of(k, self.mod_mask) < self.chains().len() {
                        assert(self.chains()[bucket_of(k, self.mod_mask)].len() == 0);
                    }
                }
            }
            lemma_view(self);
            assert(cs.take(n as int) =~= cs);
            assert forall|k: u64| m0.contains_key(k) implies exists|t: int|
                0 <= t < r@.len() && (#[trigger] r@[t]).0 == k by {
                assert(cs_has(cs, mask, k));
            }
        }
        r
    }
}

} // verus!
