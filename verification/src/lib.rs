//! A hash map keyed by `u64`, using separate chaining over a power-of-two
//! bucket array and a multiplicative hash.  Every operation carries a
//! contract over the map's abstract view, a `Map<u64, V>`.

use vstd::prelude::*;

mod chains;
mod entry;
mod eq;
mod growth;
mod iter;
mod laws;
mod mutate;
mod ops;
mod stats;

use crate::chains::{
    chain_has, chains_ok, cs_has, cs_val, key_set, lemma_key_set_card, pairs_of,
};
use vstd::arithmetic::power2::pow2;

pub use crate::entry::Entry;

verus! {

/// Scrambles a key by multiplying with a fixed odd 64-bit constant
/// (Fibonacci hashing), keeping the low 64 bits of the product.
pub open(crate) spec fn scramble(k: u64) -> u64 {
    11400714819323198549u64.wrapping_mul(k)
}

/// The bucket index a key selects under the given mask.
pub open(crate) spec fn bucket_of(k: u64, mask: u64) -> int {
    (scramble(k) & mask) as int
}

/// A map from `u64` keys to values of any type, backed by an array of
/// bucket chains whose length is always a power of two.
#[derive(Clone)]
pub struct IntMap<V> {
    pub(crate) cache: Vec<Vec<(u64, V)>>,
    pub(crate) size: u32,
    pub(crate) mod_mask: u64,
    pub(crate) count: usize,
}

impl<V> IntMap<V> {
    /// The bucket array as a sequence of chains.
    pub open(crate) spec fn chains(self) -> Seq<Seq<(u64, V)>> {
        self.cache@.map_values(|c: Vec<(u64, V)>| c@)
    }

    /// The well-formedness invariant: the bucket count is `2^size` with
    /// `size` at least 1, the mask selects exactly a bucket index, every
    /// pair sits in its key's bucket, no key is stored twice, and `count`
    /// is the exact number of stored pairs.
    pub open(crate) spec fn wf(self) -> bool {
        &&& 1 <= self.size
        &&& self.cache@.len() == pow2(self.size as nat)
        &&& self.mod_mask as int == self.cache@.len() - 1
        &&& chains_ok(self.chains(), self.mod_mask)
        &&& self.count as nat == pairs_of(self.chains()).len()
    }

    /// The number of buckets.
    pub open(crate) spec fn spec_capacity(self) -> int {
        self.cache@.len() as int
    }

    /// The abstract contents: each stored key maps to the value beside it
    /// in the chain of the bucket its hash selects.
    pub open(crate) spec fn as_map(self) -> Map<u64, V> {
        Map::new(
            |k: u64| cs_has(self.chains(), self.mod_mask, k),
            |k: u64| cs_val(self.chains(), self.mod_mask, k),
        )
    }
}

impl<V> View for IntMap<V> {
    type V = Map<u64, V>;

    closed spec fn view(&self) -> Map<u64, V> {
        self.as_map()
    }
}

/// A masked hash never exceeds the mask, so it is a valid bucket index
/// whenever the bucket count is `mask + 1`.
pub(crate) proof fn lemma_bucket_le_mask(k: u64, mask: u64)
    ensures
        0 <= bucket_of(k, mask) <= mask as int,
{
    let h = scramble(k);
    assert(h & mask <= mask) by (bit_vector);
}

/// The view of the map is its bucket contents read as a `Map`.
pub(crate) broadcast proof fn lemma_view<V>(m: &IntMap<V>)
    ensures
        #[trigger] m@ == m.as_map(),
{
}

impl<V> IntMap<V> {
    /// Scrambles a key with the fixed multiplier.
    #[inline]
    fn hash_u64(seed: u64) -> (r: u64)
        ensures
            r == scramble(seed),
    {
        let a = 11400714819323198549u64;
        let val = a.wrapping_mul(seed);
        val
    }

    /// The bucket index for a key under the current mask.
    #[inline]
    pub(crate) fn calc_index(&self, key: u64) -> (r: usize)
        requires
            self.cache@.len() >= 1,
            self.mod_mask as int == self.cache@.len() - 1,
        ensures
            r as int == bucket_of(key, self.mod_mask),
            r < self.cache@.len(),
    {
        let n = self.cache.len();
        let hash = Self::hash_u64(key);
        let masked = hash & self.mod_mask;
        proof {
            let m = self.mod_mask;
            let h = scramble(key);
            assert(h & m <= m) by (bit_vector);
            assert(masked < n);
        }
        masked as usize
    }

    /// The current bucket count, always `2^size`.
    #[inline]
    pub(crate) fn lim(&self) -> (r: usize)
        requires
            self.wf(),
        ensures
            r as nat == pow2(self.size as nat),
            r == self.spec_capacity(),
    {
        self.cache.len()
    }

    /// Number of elements in the map.
    pub fn len(&self) -> (r: usize)
        requires
            self.wf(),
        ensures
            r == self@.dom().len(),
    {
        proof {
            lemma_view(self);
            self.lemma_count_is_distinct_keys();
        }
        self.count
    }

    /// Whether the map holds no element.
    pub fn is_empty(&self) -> (r: bool)
        requires
            self.wf(),
        ensures
            r <==> self@ == Map::<u64, V>::empty(),
    {
        proof {
            lemma_view(self);
            self.lemma_count_is_distinct_keys();
            if self.count == 0 {
                self@.dom().lemma_len0_is_empty();
                assert(self@ =~= Map::<u64, V>::empty());
            } else {
                assert(self@.dom().len() != 0);
                if self@ == Map::<u64, V>::empty() {
                    assert(self@.dom() =~= Set::<u64>::empty());
                }
            }
        }
        self.count == 0
    }

    /// Total number of buckets available.
    pub fn capacity(&self) -> (r: usize)
        ensures
            r == self.spec_capacity(),
    {
        self.cache.len()
    }

    /// The stored pair count always equals the number of distinct stored
    /// keys: `count` tracks insertions and removals exactly.
    pub(crate) proof fn lemma_count_is_distinct_keys(self)
        requires
            self.wf(),
        ensures
            self@.dom().finite(),
            self.count as nat == self@.dom().len(),
    {
        lemma_view(&self);
        lemma_key_set_card(self.chains(), self.mod_mask);
        assert(self@.dom() =~= key_set(self.chains())) by {
            assert forall|k: u64| key_set(self.chains()).contains(k) implies self@.dom().contains(
                k,
            ) by {
                assert(chain_has(self.chains()[bucket_of(k, self.mod_mask)], k));
            }
        }
    }
}

} // verus!
