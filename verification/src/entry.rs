//! The entry cursor: one lookup yields a handle to a key's slot, whether
//! occupied or vacant, and the operations on the handle reach the slot by
//! its stored bucket and position, never by hashing or scanning again.
//!
//! A handle is valid for the map state it was obtained from; any operation
//! that restructures the map invalidates it, which the operations'
//! preconditions enforce statically.

use vstd::prelude::*;
use crate::chains::{
    chains_ok, cs_has, cs_val, lemma_chain_at, lemma_chain_push, lemma_chain_set,
    lemma_chain_swap_remove, lemma_pairs_of_update, nodup_keys,
};
use crate::{bucket_of, lemma_bucket_le_mask, lemma_view, IntMap};

verus! {

broadcast use crate::lemma_view;

/// A cursor to one key's slot: either the position of the stored pair, or
/// the bucket where the absent key would be inserted.
#[derive(Clone, Copy)]
pub enum Entry {
    Occupied { key: u64, bucket: usize, pos: usize },
    Vacant { key: u64, bucket: usize },
}

impl Entry {
    /// The key this cursor was obtained for.
    pub open spec fn spec_key(self) -> u64 {
        match self {
            Entry::Occupied { key, .. } => key,
            Entry::Vacant { key, .. } => key,
        }
    }
}

impl<V> IntMap<V> {
    /// The cursor points at this map's slot for its key: an occupied
    /// cursor names the exact chain position holding the key, a vacant
    /// cursor names the key's bucket and the key is absent.
    pub open(crate) spec fn entry_valid(self, e: Entry) -> bool {
        &&& self.wf()
        &&& match e {
            Entry::Occupied { key, bucket, pos } => {
                &&& bucket as int == bucket_of(key, self.mod_mask)
                &&& (bucket as int) < self.chains().len()
                &&& pos < self.chains()[bucket as int].len()
                &&& self.chains()[bucket as int][pos as int].0 == key
            },
            Entry::Vacant { key, bucket } => {
                &&& bucket as int == bucket_of(key, self.mod_mask)
                &&& (bucket as int) < self.chains().len()
                &&& !self@.contains_key(key)
            },
        }
    }

    /// Finds the slot for `key` with a single lookup.
    pub fn entry(&self, key: u64) -> (e: Entry)
        requires
            self.wf(),
        ensures
            self.entry_valid(e),
            e.spec_key() == key,
            e is Occupied <==> self@.contains_key(key),
    {
        proof {
            lemma_view(self);
        }
        let ix = self.calc_index(key);
        match Self::chain_find(&self.cache[ix], key) {
            Some(j) => {
                proof {
                    lemma_chain_at(self.chains()[ix as int], key, j as int);
                }
                Entry::Occupied { key, bucket: ix, pos: j }
            },
            None => {
                proof {
                    assert(!cs_has(self.chains(), self.mod_mask, key));
                }
                Entry::Vacant { key, bucket: ix }
            },
        }
    }

    /// Reads the value an occupied cursor points at.
    pub fn entry_get(&self, e: Entry) -> (r: &V)
        requires
            self.entry_valid(e),
            e is Occupied,
        ensures
            self@.contains_key(e.spec_key()),
            *r == self@[e.spec_key()],
    {
        proof {
            lemma_view(self);
        }
        match e {
            Entry::Occupied { key, bucket, pos } => {
                proof {
                    lemma_chain_at(self.chains()[bucket as int], key, pos as int);
                }
                &self.cache[bucket][pos].1
            },
            Entry::Vacant { .. } => {
                proof {
                    assert(false);
                }
                unreached()
            },
        }
    }

    /// Turns an occupied cursor into a mutable reference to its value;
    /// whatever the caller writes through it becomes that key's value.
    pub fn entry_into_mut(&mut self, e: Entry) -> (r: &mut V)
        requires
            old(self).entry_valid(e),
            e is Occupied,
        ensures
            final(self).wf(),
            old(self)@.contains_key(e.spec_key()),
            *r == old(self)@[e.spec_key()],
            final(self)@ == old(self)@.insert(e.spec_key(), *final(r)),
    {
        proof {
            lemma_view(self);
        }
        match e {
            Entry::Occupied { key, bucket, pos } => {
                let ghost pre = *old(self);
                let ghost cs0 = pre.chains();
                let ghost mask = pre.mod_mask;
                let ghost j = pos as int;
                let ghost ix = bucket as int;
                proof {
                    lemma_chain_at(cs0[ix], key, j);
                    assert forall|fs: IntMap<V>, bv: Vec<(u64, V)>, w: V|
                        #![trigger fs.cache@, pre.cache@.update(ix, bv), cs0[ix].update(j, (key, w))]
                        fs.size == pre.size && fs.mod_mask == mask && fs.count == pre.count
                            && fs.cache@ == pre.cache@.update(ix, bv) && bv@ == cs0[ix].update(
                            j,
                            (key, w),
                        ) implies fs.wf() && fs.as_map() == pre.as_map().insert(key, w) by {
                        let c1 = cs0[ix].update(j, (key, w));
                        let cs1 = fs.chains();
                        assert(cs1 =~= cs0.update(ix, c1));
                        lemma_chain_set(cs0[ix], j, w);
                        lemma_pairs_of_update(cs0, ix, c1);
                        assert(chains_ok(cs1, mask)) by {
                            assert forall|a: int, b: int|
                                0 <= a < cs1.len() && 0 <= b < cs1[a].len() implies bucket_of(
                                (cs1[a][b]).0,
                                mask,
                            ) == a by {
                                if a == ix {
                                    assert((cs1[a][b]).0 == (cs0[a][b]).0);
                                } else {
                                    assert(cs1[a][b] == cs0[a][b]);
                                }
                            }
                            assert forall|a: int| 0 <= a < cs1.len() implies nodup_keys(
                                #[trigger] cs1[a],
                            ) by {
                                if a != ix {
                                    assert(cs1[a] == cs0[a]);
                                }
                            }
                        }
                        assert(fs.as_map() =~= pre.as_map().insert(key, w)) by {
                            assert forall|k: u64|
                                #![trigger cs_has(cs1, mask, k)]
                                true implies {
                                &&& (cs_has(cs1, mask, k) <==> (k == key || cs_has(
                                    cs0,
                                    mask,
                                    k,
                                )))
                                &&& (cs_has(cs1, mask, k) && k != key ==> cs_val(cs1, mask, k)
                                    == cs_val(cs0, mask, k))
                            } by {
                                lemma_bucket_le_mask(k, mask);
                                if bucket_of(k, mask) == ix {
                                    assert(cs1[bucket_of(k, mask)] == c1);
                                } else {
                                    assert(cs1[bucket_of(k, mask)] == cs0[bucket_of(k, mask)]);
                                }
                            }
                            assert(cs_has(cs1, mask, key)) by {
                                assert(c1[j].0 == key);
                            }
                            assert(cs_val(cs1, mask, key) == w);
                        }
                    }
                }
                let chain = &mut self.cache[bucket];
                Self::chain_value_mut(chain, pos)
            },
            Entry::Vacant { .. } => {
                proof {
                    assert(false);
                }
                unreached()
            },
        }
    }

    /// Removes the pair an occupied cursor points at and returns its value.
    pub fn entry_remove(&mut self, e: Entry) -> (r: V)
        requires
            old(self).entry_valid(e),
            e is Occupied,
        ensures
            final(self).wf(),
            old(self)@.contains_key(e.spec_key()),
            r == old(self)@[e.spec_key()],
            final(self)@ == old(self)@.remove(e.spec_key()),
    {
        proof {
            lemma_view(self);
        }
        match e {
            Entry::Occupied { key, bucket, pos } => {
                let ghost pre = *old(self);
                let ghost cs0 = pre.chains();
                let ghost mask = pre.mod_mask;
                let ghost j = pos as int;
                let ghost ix = bucket as int;
                proof {
                    lemma_chain_at(cs0[ix], key, j);
                    lemma_pairs_of_update(cs0, ix, Seq::<(u64, V)>::empty());
                }
                self.count = self.count - 1;
                let chain = &mut self.cache[bucket];
                let kv = chain.swap_remove(pos);
                proof {
                    let cs1 = self.chains();
                    let c1 = cs0[ix].update(j, cs0[ix].last()).drop_last();
                    assert(cs1 =~= cs0.update(ix, c1));
                    lemma_chain_swap_remove(cs0[ix], j);
                    lemma_pairs_of_update(cs0, ix, c1);
                    assert(chains_ok(cs1, mask)) by {
                        assert forall|a: int, b: int|
                            0 <= a < cs1.len() && 0 <= b < cs1[a].len() implies bucket_of(
                            (cs1[a][b]).0,
                            mask,
                        ) == a by {
                            if a == ix {
                                let c0 = cs0[ix];
                                assert(cs1[a][b] == (if b == j {
                                    c0[c0.len() - 1]
                                } else {
                                    c0[b]
                                }));
                            } else {
                                assert(cs1[a][b] == cs0[a][b]);
                            }
                        }
                        assert forall|a: int| 0 <= a < cs1.len() implies nodup_keys(
                            #[trigger] cs1[a],
                        ) by {
                            if a != ix {
                                assert(cs1[a] == cs0[a]);
                            }
                        }
                    }
                    assert(self.as_map() =~= pre.as_map().remove(key)) by {
                        assert forall|k: u64|
                            #![trigger cs_has(cs1, mask, k)]
                            true implies {
                            &&& (cs_has(cs1, mask, k) <==> (k != key && cs_has(cs0, mask, k)))
                            &&& (cs_has(cs1, mask, k) ==> cs_val(cs1, mask, k) == cs_val(
                                cs0,
                                mask,
                                k,
                            ))
                        } by {
                            lemma_bucket_le_mask(k, mask);
                            if bucket_of(k, mask) == ix {
                                assert(cs1[bucket_of(k, mask)] == c1);
                            } else {
                                assert(cs1[bucket_of(k, mask)] == cs0[bucket_of(k, mask)]);
                            }
                        }
                    }
                    lemma_view(self);
                }
                kv.1
            },
            Entry::Vacant { .. } => {
                proof {
                    assert(false);
                }
                unreached()
            },
        }
    }

    /// Inserts a value through a vacant cursor and returns a mutable
    /// reference to the stored value, without a second lookup and without
    /// a growth check.
    pub fn entry_insert(&mut self, e: Entry, value: V) -> (r: &mut V)
        requires
            old(self).entry_valid(e),
            e is Vacant,
            old(self)@.dom().len() < usize::MAX,
        ensures
            final(self).wf(),
            *r == value,
            final(self)@ == old(self)@.insert(e.spec_key(), *final(r)),
    {
        proof {
            lemma_view(self);
            self.lemma_count_is_distinct_keys();
        }
        match e {
            Entry::Vacant { key, bucket } => {
                let ghost pre0 = *old(self);
                let ghost cs0 = pre0.chains();
                let ghost mask = pre0.mod_mask;
                let ghost ix = bucket as int;
                proof {
                    assert(!cs_has(cs0, mask, key));
                }
                self.count = self.count + 1;
                {
                    let chain = &mut self.cache[bucket];
                    chain.push((key, value));
                }
                proof {
                    let cs1 = self.chains();
                    let c1 = cs0[ix].push((key, value));
                    assert(cs1 =~= cs0.update(ix, c1));
                    lemma_chain_push(cs0[ix], (key, value));
                    lemma_pairs_of_update(cs0, ix, c1);
                    assert(chains_ok(cs1, mask)) by {
                        assert forall|a: int, b: int|
                            0 <= a < cs1.len() && 0 <= b < cs1[a].len() implies bucket_of(
                            (cs1[a][b]).0,
                            mask,
                        ) == a by {
                            if a != ix || b < cs0[a].len() {
                                assert(cs1[a][b] == cs0[a][b]);
                            } else {
                                assert(cs1[a][b] == (key, value));
                            }
                        }
                        assert forall|a: int| 0 <= a < cs1.len() implies nodup_keys(
                            #[trigger] cs1[a],
                        ) by {
                            if a != ix {
                                assert(cs1[a] == cs0[a]);
                            }
                        }
                    }
                    assert(self.as_map() =~= pre0.as_map().insert(key, value)) by {
                        assert forall|k: u64|
                            #![trigger cs_has(cs1, mask, k)]
                            true implies {
                            &&& (cs_has(cs1, mask, k) <==> (k == key || cs_has(cs0, mask, k)))
                            &&& (cs_has(cs1, mask, k) && k != key ==> cs_val(cs1, mask, k)
                                == cs_val(cs0, mask, k))
                        } by {
                            lemma_bucket_le_mask(k, mask);
                            if bucket_of(k, mask) == ix {
                                assert(cs1[bucket_of(k, mask)] == c1);
                            } else {
                                assert(cs1[bucket_of(k, mask)] == cs0[bucket_of(k, mask)]);
                            }
                        }
                        assert(cs_has(cs1, mask, key));
                        assert(cs_val(cs1, mask, key) == value);
                    }
                    lemma_view(self);
                    assert(self.wf());
                }
                let pos = self.cache[bucket].len() - 1;
                let ghost pre = *self;
                let ghost csm = pre.chains();
                let ghost j = pos as int;
                proof {
                    lemma_chain_at(csm[ix], key, j);
                    assert forall|fs: IntMap<V>, bv: Vec<(u64, V)>, w: V|
                        #![trigger fs.cache@, pre.cache@.update(ix, bv), csm[ix].update(j, (key, w))]
                        fs.size == pre.size && fs.mod_mask == mask && fs.count == pre.count
                            && fs.cache@ == pre.cache@.update(ix, bv) && bv@ == csm[ix].update(
                            j,
                            (key, w),
                        ) implies fs.wf() && fs.as_map() == pre0.as_map().insert(key, w) by {
                        let c1 = csm[ix].update(j, (key, w));
                        let cs1 = fs.chains();
                        assert(cs1 =~= csm.update(ix, c1));
                        lemma_chain_set(csm[ix], j, w);
                        lemma_pairs_of_update(csm, ix, c1);
                        assert(chains_ok(cs1, mask)) by {
                            assert forall|a: int, b: int|
                                0 <= a < cs1.len() && 0 <= b < cs1[a].len() implies bucket_of(
                                (cs1[a][b]).0,
                                mask,
                            ) == a by {
                                if a == ix {
                                    assert((cs1[a][b]).0 == (csm[a][b]).0);
                                } else {
                                    assert(cs1[a][b] == csm[a][b]);
                                }
                            }
                            assert forall|a: int| 0 <= a < cs1.len() implies nodup_keys(
                                #[trigger] cs1[a],
                            ) by {
                                if a != ix {
                                    assert(cs1[a] == csm[a]);
                                }
                            }
                        }
                        assert(fs.as_map() =~= pre.as_map().insert(key, w)) by {
                            assert forall|k: u64|
                                #![trigger cs_has(cs1, mask, k)]
                                true implies {
                                &&& (cs_has(cs1, mask, k) <==> (k == key || cs_has(
                                    csm,
                                    mask,
                                    k,
                                )))
                                &&& (cs_has(cs1, mask, k) && k != key ==> cs_val(cs1, mask, k)
                                    == cs_val(csm, mask, k))
                            } by {
                                lemma_bucket_le_mask(k, mask);
                                if bucket_of(k, mask) == ix {
                                    assert(cs1[bucket_of(k, mask)] == c1);
                                } else {
                                    assert(cs1[bucket_of(k, mask)] == csm[bucket_of(k, mask)]);
                                }
                            }
                            assert(cs_has(cs1, mask, key)) by {
                                assert(c1[j].0 == key);
                            }
                            assert(cs_val(cs1, mask, key) == w);
                        }
                        assert(pre.as_map().insert(key, w) =~= pre0.as_map().insert(key, w));
                    }
                }
                let chain = &mut self.cache[bucket];
                Self::chain_value_mut(chain, pos)
            },
            Entry::Occupied { .. } => {
                proof {
                    assert(false);
                }
                unreached()
            },
        }
    }
}

} // verus!
