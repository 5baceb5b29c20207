//! The growth controller: doubling the bucket array and rehashing every
//! stored pair, plus the constructors and the load-factor policy built on it.

use vstd::prelude::*;
use crate::chains::{
    chain_has, chain_value, chains_ok, cs_has, cs_val, lemma_chain_at, lemma_chain_push,
    lemma_pairs_of_empty, lemma_pairs_of_update, nodup_keys, pairs_of, placed,
};
use crate::{bucket_of, lemma_view, IntMap};
use vstd::arithmetic::power2::{lemma2_to64, lemma_pow2_adds, lemma_pow2_strictly_increases, pow2};

verus! {

/// The key `k` still waits to be rehashed: it sits in one of the first `r`
/// original chains, or in `part`, the unprocessed rest of chain `r`.
spec fn waiting<V>(
    orig: Seq<Seq<(u64, V)>>,
    om: u64,
    r: int,
    part: Seq<(u64, V)>,
    k: u64,
) -> bool {
    (0 <= bucket_of(k, om) < r && chain_has(orig[bucket_of(k, om)], k)) || chain_has(part, k)
}

/// Mid-rehash state: the new array is well placed under the new mask and
/// holds exactly the original pairs that are no longer waiting, with their
/// original values.
spec fn rehash_inv<V>(
    new_cs: Seq<Seq<(u64, V)>>,
    nm: u64,
    orig: Seq<Seq<(u64, V)>>,
    om: u64,
    r: int,
    part: Seq<(u64, V)>,
) -> bool {
    &&& chains_ok(new_cs, nm)
    &&& forall|k: u64| #[trigger] cs_has(new_cs, nm, k) <==> (cs_has(orig, om, k) && !waiting(
        orig,
        om,
        r,
        part,
        k,
    ))
    &&& forall|k: u64| #[trigger] cs_has(new_cs, nm, k) ==> cs_val(new_cs, nm, k) == cs_val(
        orig,
        om,
        k,
    )
    &&& pairs_of(new_cs).len() + pairs_of(orig.take(r)).len() + part.len() == pairs_of(orig).len()
}

impl<V> IntMap<V> {
    /// Doubles the bucket array and moves every stored pair into the bucket
    /// its key selects under the widened mask.  The contents are unchanged.
    pub(crate) fn increase_cache(&mut self)
        requires
            old(self).wf(),
            2 * old(self).cache@.len() <= usize::MAX,
        ensures
            final(self).wf(),
            final(self)@ == old(self)@,
            final(self).size == old(self).size + 1,
            final(self).spec_capacity() == 2 * old(self).spec_capacity(),
            final(self).count == old(self).count,
    {
        let ghost orig = old(self).chains();
        let ghost om = old(self).mod_mask;
        let old_len = self.cache.len();
        let new_lim: usize = old_len * 2;
        proof {
            // 2^(size+1) = 2 * 2^size fits, so size + 1 stays below 64.
            lemma_pow2_adds(old(self).size as nat, 1);
            lemma2_to64();
            if old(self).size + 1 >= 64 {
                lemma_pow2_strictly_increases(64, (old(self).size + 1) as nat);
                assert(pow2(64) > usize::MAX);
            }
        }
        self.size = self.size + 1;
        self.mod_mask = (new_lim as u64) - 1;
        let mut moved: Vec<Vec<(u64, V)>> = Vec::new();
        core::mem::swap(&mut moved, &mut self.cache);
        let mut i: usize = 0;
        while i < new_lim
            invariant
                i <= new_lim,
                self.cache@.len() == i as int,
                forall|t: int| 0 <= t < i ==> (#[trigger] self.chains()[t]).len() == 0,
                self.size == old(self).size + 1,
                self.count == old(self).count,
                self.mod_mask == (new_lim as u64) - 1,
                moved@.map_values(|c: Vec<(u64, V)>| c@) == orig,
                new_lim == 2 * orig.len(),
            decreases new_lim - i,
        {
            let ghost pre = self.chains();
            self.cache.push(Vec::new());
            i += 1;
            proof {
                assert(self.chains() =~= pre.push(Seq::<(u64, V)>::empty()));
            }
        }
        proof {
            lemma_pairs_of_empty(self.chains());
            assert(orig.take(orig.len() as int) =~= orig);
            assert forall|k: u64| #[trigger] cs_has(self.chains(), self.mod_mask, k)
                <==> (cs_has(orig, om, k) && !waiting(
                orig,
                om,
                orig.len() as int,
                Seq::<(u64, V)>::empty(),
                k,
            )) by {
                if cs_has(orig, om, k) {
                    assert(waiting(orig, om, orig.len() as int, Seq::<(u64, V)>::empty(), k));
                }
            }
            assert(rehash_inv(
                self.chains(),
                self.mod_mask,
                orig,
                om,
                orig.len() as int,
                Seq::<(u64, V)>::empty(),
            ));
        }
        while moved.len() > 0
            invariant
                self.cache@.len() == new_lim,
                self.size == old(self).size + 1,
                self.count == old(self).count,
                self.mod_mask == (new_lim as u64) - 1,
                new_lim == 2 * orig.len(),
                moved@.map_values(|c: Vec<(u64, V)>| c@) == orig.take(moved@.len() as int),
                moved@.len() <= orig.len(),
                chains_ok(orig, om),
                rehash_inv(
                    self.chains(),
                    self.mod_mask,
                    orig,
                    om,
                    moved@.len() as int,
                    Seq::<(u64, V)>::empty(),
                ),
            decreases moved@.len(),
        {
            let ghost r = moved@.len() - 1;
            let mut chain = moved.pop().unwrap();
            proof {
                assert(chain@ == orig.take(r + 1)[r]);
                assert(chain@ == orig[r]);
                assert(moved@.map_values(|c: Vec<(u64, V)>| c@) =~= orig.take(r));
                // A full chain `r` as `part` describes the same waiting set
                // as counting chain `r` among the untouched chains.
                assert forall|k: u64| waiting(orig, om, r + 1, Seq::<(u64, V)>::empty(), k)
                    <==> waiting(orig, om, r, chain@, k) by {
                    if chain_has(chain@, k) {
                        let j = choose|j: int| 0 <= j < chain@.len() && chain@[j].0 == k;
                        assert(orig[r][j].0 == k);
                        assert(bucket_of(k, om) == r);
                    }
                }
                assert(orig.take(r + 1).drop_last() =~= orig.take(r));
                assert(orig.take(r + 1).last() == orig[r]);
                assert(pairs_of(orig.take(r + 1)).len() == pairs_of(orig.take(r)).len()
                    + orig[r].len());
            }
            while chain.len() > 0
                invariant
                    self.cache@.len() == new_lim,
                    self.size == old(self).size + 1,
                    self.count == old(self).count,
                    self.mod_mask == (new_lim as u64) - 1,
                    new_lim == 2 * orig.len(),
                    0 <= r < orig.len(),
                    chains_ok(orig, om),
                    chain@.len() <= orig[r].len(),
                    chain@ == orig[r].take(chain@.len() as int),
                    rehash_inv(self.chains(), self.mod_mask, orig, om, r, chain@),
                decreases chain@.len(),
            {
                let ghost part = chain@;
                let ghost t = chain@.len() - 1;
                let kv = chain.pop().unwrap();
                proof {
                    assert(kv == orig[r].take(t + 1)[t]);
                    assert(kv == orig[r][t]);
                    assert(chain@ =~= orig[r].take(t));
                    assert(bucket_of(kv.0, om) == r);
                }
                let ix = self.calc_index(kv.0);
                let ghost before = self.chains();
                let ghost nm = self.mod_mask;
                proof {
                    // The pair being moved is still waiting, so its key is
                    // not yet in the new array.
                    assert(chain_has(part, kv.0)) by {
                        assert(part[t].0 == kv.0);
                    }
                    assert(!cs_has(before, nm, kv.0));
                }
                let bucket = &mut self.cache[ix];
                bucket.push(kv);
                proof {
                    let after = self.chains();
                    assert(after =~= before.update(ix as int, before[ix as int].push(kv)));
                    lemma_chain_push(before[ix as int], kv);
                    lemma_pairs_of_update(before, ix as int, before[ix as int].push(kv));
                    assert(chains_ok(after, nm)) by {
                        assert forall|a: int, b: int|
                            0 <= a < after.len() && 0 <= b < after[a].len() implies bucket_of(
                            (after[a][b]).0,
                            nm,
                        ) == a by {
                            if a != ix as int || b < before[a].len() {
                                assert(after[a][b] == before[a][b]);
                            } else {
                                assert(after[a][b] == kv);
                            }
                        }
                        assert forall|a: int| 0 <= a < after.len() implies nodup_keys(
                            #[trigger] after[a],
                        ) by {
                            if a != ix as int {
                                assert(after[a] == before[a]);
                            }
                        }
                    }
                    // Membership: exactly the moved key changed sides.
                    assert forall|k: u64| #[trigger] cs_has(after, nm, k) <==> (cs_has(orig, om, k)
                        && !waiting(orig, om, r, chain@, k)) by {
                        if k == kv.0 {
                            assert(cs_has(after, nm, k));
                            assert(cs_has(orig, om, k)) by {
                                assert(orig[r][t].0 == k);
                            }
                            assert(!waiting(orig, om, r, chain@, k)) by {
                                if chain_has(chain@, k) {
                                    let j = choose|j: int|
                                        0 <= j < chain@.len() && chain@[j].0 == k;
                                    assert(orig[r][j].0 == k && orig[r][t].0 == k);
                                    assert(nodup_keys(orig[r]));
                                }
                            }
                        } else {
                            assert(cs_has(after, nm, k) <==> cs_has(before, nm, k)) by {
                                crate::lemma_bucket_le_mask(k, nm);
                                if bucket_of(k, nm) == ix as int {
                                    assert(after[bucket_of(k, nm)] == before[ix as int].push(kv));
                                } else {
                                    assert(after[bucket_of(k, nm)] == before[bucket_of(k, nm)]);
                                }
                            }
                            assert(waiting(orig, om, r, part, k) <==> waiting(
                                orig,
                                om,
                                r,
                                chain@,
                                k,
                            )) by {
                                if chain_has(chain@, k) {
                                    let j = choose|j: int|
                                        0 <= j < chain@.len() && chain@[j].0 == k;
                                    assert(part[j].0 == k);
                                }
                                if chain_has(part, k) {
                                    let j = choose|j: int| 0 <= j < part.len() && part[j].0 == k;
                                    assert(j != t);
                                    assert(chain@[j].0 == k);
                                }
                            }
                        }
                    }
                    // Values: the moved pair carries its original value.
                    assert forall|k: u64| #[trigger] cs_has(after, nm, k) implies cs_val(
                        after,
                        nm,
                        k,
                    ) == cs_val(orig, om, k) by {
                        if k == kv.0 {
                            assert(cs_val(after, nm, k) == kv.1);
                            lemma_chain_at(orig[r], k, t);
                        } else {
                            crate::lemma_bucket_le_mask(k, nm);
                            if bucket_of(k, nm) == ix as int {
                                assert(after[bucket_of(k, nm)] == before[ix as int].push(kv));
                                assert(cs_has(before, nm, k));
                            } else {
                                assert(after[bucket_of(k, nm)] == before[bucket_of(k, nm)]);
                                assert(cs_has(before, nm, k));
                            }
                        }
                    }
                }
            }
        }
        proof {
            assert(orig.take(0) =~= Seq::<Seq<(u64, V)>>::empty());
            assert(pairs_of(orig.take(0)).len() == 0);
            let fm = self.chains();
            let nm = self.mod_mask;
            assert forall|k: u64| #[trigger] cs_has(fm, nm, k) <==> cs_has(orig, om, k) by {
                assert(!waiting(orig, om, 0, Seq::<(u64, V)>::empty(), k));
            }
            assert(self.as_map() =~= old(self).as_map()) by {
                assert forall|k: u64| cs_has(orig, om, k) implies cs_has(fm, nm, k) by {}
            }
            lemma_view(self);
            lemma_view(old(self));
            // The doubled array is 2^(size+1) buckets.
            lemma_pow2_adds(old(self).size as nat, 1);
            lemma2_to64();
        }
    }
    /// Creates a map with at least the given capacity, rounded up to the
    /// next power of two (never fewer than 2 buckets).
    pub fn with_capacity(capacity: usize) -> (r: Self)
        requires
            capacity <= usize::MAX / 2,
        ensures
            r.wf(),
            r@ == Map::<u64, V>::empty(),
            r.spec_capacity() >= capacity,
            r.spec_capacity() >= 2,
            r.spec_capacity() == 2 || r.spec_capacity() < 2 * capacity,
    {
        let mut buckets: Vec<Vec<(u64, V)>> = Vec::new();
        buckets.push(Vec::new());
        buckets.push(Vec::new());
        let mut map = IntMap { cache: buckets, size: 1, mod_mask: 1, count: 0 };
        proof {
            lemma2_to64();
            assert(forall|i: int|
                0 <= i < map.chains().len() ==> (#[trigger] map.chains()[i]).len() == 0);
            lemma_pairs_of_empty(map.chains());
            assert(map.wf());
            assert(map.as_map() =~= Map::<u64, V>::empty());
            lemma_view(&map);
        }
        while map.lim() < capacity
            invariant
                map.wf(),
                map@ == Map::<u64, V>::empty(),
                capacity <= usize::MAX / 2,
                map.spec_capacity() >= 2,
                map.spec_capacity() == 2 || map.spec_capacity() < 2 * capacity,
            decreases 2 * capacity - map.spec_capacity(),
        {
            map.increase_cache();
        }
        map
    }

    /// Creates an empty map with the default 4 buckets.
    pub fn new() -> (r: Self)
        ensures
            r.wf(),
            r@ == Map::<u64, V>::empty(),
            r.spec_capacity() == 4,
    {
        let r = Self::with_capacity(4);
        proof {
            lemma2_to64();
            let s = r.size as nat;
            if s >= 3 {
                if s > 3 {
                    lemma_pow2_strictly_increases(3, s);
                }
                assert(r.spec_capacity() >= 8);
            }
            assert(s == 2);
        }
        r
    }

    /// Ensures room for at least `additional` more elements: grows until
    /// the bucket count reaches the next power of two at or above
    /// `len() + additional`.  The contents are unchanged.
    pub fn reserve(&mut self, additional: usize)
        requires
            old(self).wf(),
            old(self)@.dom().len() + additional <= usize::MAX / 2,
        ensures
            final(self).wf(),
            final(self)@ == old(self)@,
            final(self).spec_capacity() >= old(self)@.dom().len() + additional,
            final(self).spec_capacity() >= old(self).spec_capacity(),
    {
        proof {
            old(self).lemma_count_is_distinct_keys();
        }
        let target = self.count + additional;
        while self.lim() < target
            invariant
                self.wf(),
                self@ == old(self)@,
                target <= usize::MAX / 2,
                self.spec_capacity() >= old(self).spec_capacity(),
            decreases 2 * target - self.spec_capacity(),
        {
            self.increase_cache();
        }
    }

    /// The load-factor policy: while the stored pairs exceed 70% of the
    /// bucket count, double the bucket count.  The contents are unchanged.
    pub(crate) fn ensure_load_rate(&mut self)
        requires
            old(self).wf(),
            4 * old(self).count <= usize::MAX,
        ensures
            final(self).wf(),
            final(self)@ == old(self)@,
            final(self).count == old(self).count,
            final(self).spec_capacity() >= old(self).spec_capacity(),
            (100 * final(self).count as int) / final(self).spec_capacity() <= 70,
    {
        proof {
            lemma2_to64();
            if old(self).size > 1 {
                lemma_pow2_strictly_increases(1, old(self).size as nat);
            }
        }
        while (self.count as u128 * 100) / (self.cache.len() as u128) > 70
            invariant
                self.wf(),
                self@ == old(self)@,
                self.count == old(self).count,
                4 * self.count <= usize::MAX,
                self.cache@.len() >= 2,
                self.spec_capacity() >= old(self).spec_capacity(),
            decreases 4 * self.count - self.spec_capacity(),
        {
            proof {
                let a = self.count as int;
                let l = self.cache@.len() as int;
                vstd::arithmetic::div_mod::lemma_fundamental_div_mod(100 * a, l);
                vstd::arithmetic::div_mod::lemma_mod_bound(100 * a, l);
                let q = (100 * a) / l;
                assert(100 * a >= 71 * l) by (nonlinear_arith)
                    requires
                        q >= 71,
                        100 * a == l * q + (100 * a) % l,
                        0 <= (100 * a) % l,
                        l >= 2,
                ;
                assert(2 * l <= usize::MAX);
            }
            self.increase_cache();
        }
    }
}

} // verus!
