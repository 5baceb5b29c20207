//! Occupancy diagnostics: how many buckets are in use, whether the stored
//! count matches the chains, and the collision histogram.

use vstd::prelude::*;
use crate::chains::{
    lemma_pairs_prefix_le, lemma_pairs_take_step, num_chains_of_len, occupied_count, pairs_of,
};
use crate::IntMap;

verus! {

broadcast use crate::lemma_view;

impl<V> IntMap<V> {
    /// How many buckets hold at least one pair.
    pub fn load(&self) -> (r: u64)
        requires
            self.wf(),
        ensures
            r as nat == occupied_count(self.chains()),
    {
        let ghost cs = self.chains();
        let n = self.cache.len();
        let mut filled: u64 = 0;
        let mut i: usize = 0;
        while i < n
            invariant
                self.wf(),
                cs == self.chains(),
                n == self.cache@.len(),
                i <= n,
                filled as nat == occupied_count(cs.take(i as int)),
                filled as int <= i as int,
            decreases n - i,
        {
            proof {
                assert(cs.take(i + 1).drop_last() =~= cs.take(i as int));
                assert(cs.take(i + 1).last() == cs[i as int]);
            }
            if self.cache[i].len() > 0 {
                filled = filled + 1;
            }
            i += 1;
        }
        proof {
            assert(cs.take(n as int) =~= cs);
        }
        filled
    }

    /// Recounts the stored pairs chain by chain and compares the result
    /// with `count`; under the invariant this always answers true.
    pub fn assert_count(&self) -> (r: bool)
        requires
            self.wf(),
        ensures
            r == true,
    {
        let ghost cs = self.chains();
        let n = self.cache.len();
        let mut total: usize = 0;
        let mut i: usize = 0;
        while i < n
            invariant
                self.wf(),
                cs == self.chains(),
                n == self.cache@.len(),
                i <= n,
                total as nat == pairs_of(cs.take(i as int)).len(),
            decreases n - i,
        {
            proof {
                lemma_pairs_take_step(cs, i as int);
                lemma_pairs_prefix_le(cs, i + 1);
            }
            total = total + self.cache[i].len();
            i += 1;
        }
        proof {
            assert(cs.take(n as int) =~= cs);
        }
        total == self.count
    }

    /// The collision histogram: for every chain length above 1, how many
    /// chains have exactly that length.
    pub fn collisions(&self) -> (r: IntMap<u64>)
        requires
            self.wf(),
            self@.dom().len() <= usize::MAX / 4,
        ensures
            r.wf(),
            forall|l: u64| #[trigger]
                r@.contains_key(l) <==> (l >= 2 && num_chains_of_len(self.chains(), l as nat)
                    > 0),
            forall|l: u64| #[trigger]
                r@.contains_key(l) ==> r@[l] as nat == num_chains_of_len(
                    self.chains(),
                    l as nat,
                ),
    {
        proof {
            self.lemma_count_is_distinct_keys();
        }
        let ghost cs = self.chains();
        let n = self.cache.len();
        let mut hist: IntMap<u64> = IntMap::new();
        let mut i: usize = 0;
        while i < n
            invariant
                self.wf(),
                cs == self.chains(),
                n == self.cache@.len(),
                i <= n,
                self.count as nat == pairs_of(cs).len(),
                self.count <= usize::MAX / 4,
                hist.wf(),
                forall|l: u64| #[trigger]
                    hist@.contains_key(l) <==> (l >= 2 && num_chains_of_len(
                        cs.take(i as int),
                        l as nat,
                    ) > 0),
                forall|l: u64| #[trigger]
                    hist@.contains_key(l) ==> hist@[l] as nat == num_chains_of_len(
                        cs.take(i as int),
                        l as nat,
                    ) && hist@[l] as int <= i as int,
                2 * hist@.dom().len() <= pairs_of(cs.take(i as int)).len(),
            decreases n - i,
        {
            proof {
                assert(cs.take(i + 1).drop_last() =~= cs.take(i as int));
                assert(cs.take(i + 1).last() == cs[i as int]);
                lemma_pairs_take_step(cs, i as int);
                lemma_pairs_prefix_le(cs, i + 1);
                hist.lemma_count_is_distinct_keys();
            }
            let clen = self.cache[i].len();
            if clen > 1 {
                let l = clen as u64;
                proof {
                    assert(cs[i as int].len() == l as nat);
                }
                if !hist.contains_key(l) {
                    hist.insert(l, 1);
                } else {
                    let c = hist.get_mut(l).unwrap();
                    let cur = *c;
                    *c = cur + 1;
                }
            }
            i += 1;
        }
        proof {
            assert(cs.take(n as int) =~= cs);
        }
        hist
    }
}

} // verus!
