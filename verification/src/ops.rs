//! The map operations: lookup, insertion, removal, clearing.

use vstd::prelude::*;
use crate::chains::{
    chain_has, chains_ok, cs_has, cs_val, lemma_chain_at, lemma_chain_push, lemma_chain_set,
    lemma_chain_swap_remove, lemma_pairs_of_empty, lemma_pairs_of_update, nodup_keys, pairs_of,
};
use crate::{bucket_of, lemma_bucket_le_mask, lemma_view, IntMap};

verus! {

broadcast use crate::lemma_view;

impl<V> IntMap<V> {
    /// Borrows the value slot at one chain position; the chain keeps its
    /// keys and changes only through the returned reference.
    pub(crate) fn chain_value_mut(chain: &mut Vec<(u64, V)>, j: usize) -> (v: &mut V)
        requires
            j < old(chain)@.len(),
        ensures
            *v == old(chain)@[j as int].1,
            final(chain)@ == old(chain)@.update(
                j as int,
                (old(chain)@[j as int].0, *final(v)),
            ),
    {
        &mut chain[j].1
    }

    /// Gets a mutable reference to the value stored for `key`, if any;
    /// whatever the caller writes through it becomes that key's value.
    pub fn get_mut(&mut self, key: u64) -> (r: Option<&mut V>)
        requires
            old(self).wf(),
        ensures
            final(self).wf(),
            match r {
                Some(v) => old(self)@.contains_key(key) && *v == old(self)@[key] && final(self)@
                    == old(self)@.insert(key, *final(v)),
                None => !old(self)@.contains_key(key) && final(self)@ == old(self)@,
            },
    {
        proof {
            lemma_view(self);
        }
        let ix = self.calc_index(key);
        match Self::chain_find(&self.cache[ix], key) {
            Some(j) => {
                let ghost pre = *old(self);
                let ghost cs0 = pre.chains();
                let ghost mask = pre.mod_mask;
                proof {
                    lemma_chain_at(cs0[ix as int], key, j as int);
                    assert(cs_has(cs0, mask, key));
                    assert forall|fs: IntMap<V>, bv: Vec<(u64, V)>, w: V|
                        #![trigger fs.cache@, pre.cache@.update(ix as int, bv), cs0[ix as int].update(j as int, (key, w))]
                        fs.size == pre.size && fs.mod_mask == mask && fs.count == pre.count
                            && fs.cache@ == pre.cache@.update(ix as int, bv) && bv@ == cs0[ix
                            as int].update(j as int, (key, w)) implies fs.wf() && fs.as_map()
                        == pre.as_map().insert(key, w) by {
                        let c1 = cs0[ix as int].update(j as int, (key, w));
                        let cs1 = fs.chains();
                        assert(cs1 =~= cs0.update(ix as int, c1));
                        lemma_chain_set(cs0[ix as int], j as int, w);
                        lemma_pairs_of_update(cs0, ix as int, c1);
                        assert(chains_ok(cs1, mask)) by {
                            assert forall|a: int, b: int|
                                0 <= a < cs1.len() && 0 <= b < cs1[a].len() implies bucket_of(
                                (cs1[a][b]).0,
                                mask,
                            ) == a by {
                                if a == ix as int {
                                    assert((cs1[a][b]).0 == (cs0[a][b]).0);
                                } else {
                                    assert(cs1[a][b] == cs0[a][b]);
                                }
                            }
                            assert forall|a: int| 0 <= a < cs1.len() implies nodup_keys(
                                #[trigger] cs1[a],
                            ) by {
                                if a != ix as int {
                                    assert(cs1[a] == cs0[a]);
                                }
                            }
                        }
                        assert(fs.as_map() =~= pre.as_map().insert(key, w)) by {
                            assert forall|k: u64|
                                #![trigger cs_has(cs1, mask, k)]
                                true implies {
                                &&& (cs_has(cs1, mask, k) <==> (k == key || cs_has(
                                    cs0,
                                    mask,
                                    k,
                                )))
                                &&& (cs_has(cs1, mask, k) && k != key ==> cs_val(cs1, mask, k)
                                    == cs_val(cs0, mask, k))
                            } by {
                                lemma_bucket_le_mask(k, mask);
                                if bucket_of(k, mask) == ix as int {
                                    assert(cs1[bucket_of(k, mask)] == c1);
                                } else {
                                    assert(cs1[bucket_of(k, mask)] == cs0[bucket_of(k, mask)]);
                                }
                            }
                            assert(cs_has(cs1, mask, key)) by {
                                assert(c1[j as int].0 == key);
                            }
                            assert(cs_val(cs1, mask, key) == w);
                        }
                    }
                }
                let bucket = &mut self.cache[ix];
                let v = Self::chain_value_mut(bucket, j);
                Some(v)
            },
            None => {
                proof {
                    assert(!cs_has(self.chains(), self.mod_mask, key));
                }
                None
            },
        }
    }

    /// Scans one chain for a key, front to back.
    pub(crate) fn chain_find(chain: &Vec<(u64, V)>, key: u64) -> (r: Option<usize>)
        ensures
            match r {
                Some(j) => j < chain@.len() && chain@[j as int].0 == key,
                None => !chain_has(chain@, key),
            },
    {
        let n = chain.len();
        let mut j: usize = 0;
        while j < n
            invariant
                j <= n,
                n == chain@.len(),
                forall|t: int| 0 <= t < j ==> (#[trigger] chain@[t]).0 != key,
            decreases n - j,
        {
            if chain[j].0 == key {
                return Some(j);
            }
            j += 1;
        }
        None
    }

    /// Gets a reference to the value stored for `key`, if any.
    pub fn get(&self, key: u64) -> (r: Option<&V>)
        requires
            self.wf(),
        ensures
            match r {
                Some(v) => self@.contains_key(key) && *v == self@[key],
                None => !self@.contains_key(key),
            },
    {
        proof {
            lemma_view(self);
        }
        let ix = self.calc_index(key);
        let vals = &self.cache[ix];
        match Self::chain_find(vals, key) {
            Some(j) => {
                proof {
                    lemma_chain_at(self.chains()[ix as int], key, j as int);
                }
                Some(&vals[j].1)
            },
            None => {
                proof {
                    assert(!cs_has(self.chains(), self.mod_mask, key));
                }
                None
            },
        }
    }

    /// Whether the map stores the key.
    pub fn contains_key(&self, key: u64) -> (r: bool)
        requires
            self.wf(),
        ensures
            r == self@.contains_key(key),
    {
        match self.get(key) {
            Some(_) => true,
            None => false,
        }
    }

    /// Inserts `key`/`value` if `key` is absent, and says whether it did;
    /// a present key keeps its old value.  An insertion that pushes the
    /// load factor over 70% may grow the bucket array.
    pub fn insert(&mut self, key: u64, value: V) -> (inserted: bool)
        requires
            old(self).wf(),
            old(self)@.dom().len() + 1 <= usize::MAX / 4,
        ensures
            final(self).wf(),
            inserted == !old(self)@.contains_key(key),
            inserted ==> final(self)@ == old(self)@.insert(key, value),
            !inserted ==> final(self)@ == old(self)@,
    {
        proof {
            lemma_view(self);
            old(self).lemma_count_is_distinct_keys();
        }
        let ix = self.calc_index(key);
        match Self::chain_find(&self.cache[ix], key) {
            Some(j) => {
                proof {
                    assert(cs_has(self.chains(), self.mod_mask, key)) by {
                        assert(self.chains()[ix as int][j as int].0 == key);
                    }
                }
                false
            },
            None => {
                let ghost pre = *old(self);
                let ghost cs0 = pre.chains();
                let ghost mask = pre.mod_mask;
                self.count = self.count + 1;
                let bucket = &mut self.cache[ix];
                bucket.push((key, value));
                proof {
                    let cs1 = self.chains();
                    let c1 = cs0[ix as int].push((key, value));
                    assert(cs1 =~= cs0.update(ix as int, c1));
                    lemma_chain_push(cs0[ix as int], (key, value));
                    lemma_pairs_of_update(cs0, ix as int, c1);
                    assert(chains_ok(cs1, mask)) by {
                        assert forall|a: int, b: int|
                            0 <= a < cs1.len() && 0 <= b < cs1[a].len() implies bucket_of(
                            (cs1[a][b]).0,
                            mask,
                        ) == a by {
                            if a != ix as int || b < cs0[a].len() {
                                assert(cs1[a][b] == cs0[a][b]);
                            } else {
                                assert(cs1[a][b] == (key, value));
                            }
                        }
                        assert forall|a: int| 0 <= a < cs1.len() implies nodup_keys(
                            #[trigger] cs1[a],
                        ) by {
                            if a != ix as int {
                                assert(cs1[a] == cs0[a]);
                            }
                        }
                    }
                    assert(self.as_map() =~= pre.as_map().insert(key, value)) by {
                        assert forall|k: u64|
                            #![trigger cs_has(cs1, mask, k)]
                            true implies {
                            &&& (cs_has(cs1, mask, k) <==> (k == key || cs_has(cs0, mask, k)))
                            &&& (cs_has(cs1, mask, k) && k != key ==> cs_val(cs1, mask, k)
                                == cs_val(cs0, mask, k))
                        } by {
                            lemma_bucket_le_mask(k, mask);
                            if bucket_of(k, mask) == ix as int {
                                assert(cs1[bucket_of(k, mask)] == c1);
                            } else {
                                assert(cs1[bucket_of(k, mask)] == cs0[bucket_of(k, mask)]);
                            }
                        }
                        assert(cs_has(cs1, mask, key));
                        assert(cs_val(cs1, mask, key) == value);
                    }
                    lemma_view(self);
                }
                if (self.count & 4) == 4 {
                    proof {
                        self.lemma_count_is_distinct_keys();
                    }
                    self.ensure_load_rate();
                }
                true
            },
        }
    }

    /// Removes the key and returns its value, if stored.
    pub fn remove(&mut self, key: u64) -> (r: Option<V>)
        requires
            old(self).wf(),
        ensures
            final(self).wf(),
            match r {
                Some(v) => old(self)@.contains_key(key) && v == old(self)@[key] && final(self)@
                    == old(self)@.remove(key),
                None => !old(self)@.contains_key(key) && final(self)@ == old(self)@,
            },
    {
        proof {
            lemma_view(self);
        }
        let ix = self.calc_index(key);
        match Self::chain_find(&self.cache[ix], key) {
            Some(j) => {
                let ghost pre = *old(self);
                let ghost cs0 = pre.chains();
                let ghost mask = pre.mod_mask;
                proof {
                    lemma_chain_at(cs0[ix as int], key, j as int);
                    // The chain is not empty, so a pair is stored.
                    lemma_pairs_of_update(cs0, ix as int, Seq::<(u64, V)>::empty());
                }
                self.count = self.count - 1;
                let bucket = &mut self.cache[ix];
                let kv = bucket.swap_remove(j);
                proof {
                    let cs1 = self.chains();
                    let c1 = cs0[ix as int].update(j as int, cs0[ix as int].last()).drop_last();
                    assert(cs1 =~= cs0.update(ix as int, c1));
                    lemma_chain_swap_remove(cs0[ix as int], j as int);
                    lemma_pairs_of_update(cs0, ix as int, c1);
                    assert(chains_ok(cs1, mask)) by {
                        assert forall|a: int, b: int|
                            0 <= a < cs1.len() && 0 <= b < cs1[a].len() implies bucket_of(
                            (cs1[a][b]).0,
                            mask,
                        ) == a by {
                            if a == ix as int {
                                let c0 = cs0[ix as int];
                                assert(cs1[a][b] == (if b == j as int {
                                    c0[c0.len() - 1]
                                } else {
                                    c0[b]
                                }));
                            } else {
                                assert(cs1[a][b] == cs0[a][b]);
                            }
                        }
                        assert forall|a: int| 0 <= a < cs1.len() implies nodup_keys(
                            #[trigger] cs1[a],
                        ) by {
                            if a != ix as int {
                                assert(cs1[a] == cs0[a]);
                            }
                        }
                    }
                    assert(self.as_map() =~= pre.as_map().remove(key)) by {
                        assert forall|k: u64|
                            #![trigger cs_has(cs1, mask, k)]
                            true implies {
                            &&& (cs_has(cs1, mask, k) <==> (k != key && cs_has(cs0, mask, k)))
                            &&& (cs_has(cs1, mask, k) ==> cs_val(cs1, mask, k) == cs_val(
                                cs0,
                                mask,
                                k,
                            ))
                        } by {
                            lemma_bucket_le_mask(k, mask);
                            if bucket_of(k, mask) == ix as int {
                                assert(cs1[bucket_of(k, mask)] == c1);
                            } else {
                                assert(cs1[bucket_of(k, mask)] == cs0[bucket_of(k, mask)]);
                            }
                        }
                    }
                    lemma_view(self);
                }
                Some(kv.1)
            },
            None => {
                proof {
                    assert(!cs_has(self.chains(), self.mod_mask, key));
                }
                None
            },
        }
    }

    /// Empties every bucket in place; the bucket array keeps its size.
    pub fn clear(&mut self)
        requires
            old(self).wf(),
        ensures
            final(self).wf(),
            final(self)@ == Map::<u64, V>::empty(),
            final(self).spec_capacity() == old(self).spec_capacity(),
    {
        let n = self.cache.len();
        let mut i: usize = 0;
        while i < n
            invariant
                i <= n,
                self.cache@.len() == n,
                self.size == old(self).size,
                self.mod_mask == old(self).mod_mask,
                self.count == old(self).count,
                1 <= self.size,
                n == vstd::arithmetic::power2::pow2(self.size as nat),
                forall|t: int| 0 <= t < i ==> (#[trigger] self.chains()[t]).len() == 0,
            decreases n - i,
        {
            let ghost preh = self.chains();
            let bucket = &mut self.cache[i];
            bucket.clear();
            i += 1;
            proof {
                assert(self.chains() =~= preh.update(i - 1 as int, Seq::<(u64, V)>::empty()));
            }
        }
        let ghost cleared = self.chains();
        self.count = 0;
        proof {
            assert(self.chains() =~= cleared);
            lemma_pairs_of_empty(self.chains());
            assert(self.as_map() =~= Map::<u64, V>::empty()) by {
                assert forall|k: u64| !cs_has(self.chains(), self.mod_mask, k) by {
                    if 0 <= bucket_of(k, self.mod_mask) < self.chains().len() {
                        assert(self.chains()[bucket_of(k, self.mod_mask)].len() == 0);
                    }
                }
            }
            lemma_view(self);
        }
    }
}

} // verus!
