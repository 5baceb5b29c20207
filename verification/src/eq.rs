//! Equality of contents between two maps: every key of the left map must
//! hold an equal value in the right map, and the two maps must store the
//! same number of pairs — the length comparison is what makes the
//! one-directional scan a genuine equivalence.

use vstd::prelude::*;
use vstd::set_lib::lemma_subset_equality;
use vstd::std_specs::cmp::PartialEqSpec;
use crate::IntMap;

verus! {

broadcast use crate::lemma_view;

impl<V: PartialEq + PartialEqSpec> IntMap<V> {
    /// Whether the two maps store the same keys with equal values.
    pub fn map_eq(&self, other: &IntMap<V>) -> (r: bool)
        requires
            self.wf(),
            other.wf(),
            V::obeys_eq_spec(),
        ensures
            r <==> (self@.dom() == other@.dom() && (forall|k: u64| #[trigger]
                self@.contains_key(k) ==> self@[k].eq_spec(&other@[k]))),
    {
        proof {
            self.lemma_count_is_distinct_keys();
            other.lemma_count_is_distinct_keys();
        }
        if self.len() != other.len() {
            proof {
                if self@.dom() == other@.dom() {
                    assert(self@.dom().len() == other@.dom().len());
                }
            }
            return false;
        }
        let pairs = self.iter();
        let n = pairs.len();
        let mut t: usize = 0;
        while t < n
            invariant
                self.wf(),
                other.wf(),
                V::obeys_eq_spec(),
                n == pairs@.len(),
                t <= n,
                n == self@.dom().len(),
                self@.dom().len() == other@.dom().len(),
                self@.dom().finite(),
                other@.dom().finite(),
                forall|s: int|
                    0 <= s < n ==> self@.contains_key((#[trigger] pairs@[s]).0) && *pairs@[s].1
                        == self@[pairs@[s].0],
                forall|k: u64|
                    self@.contains_key(k) ==> exists|s: int| 0 <= s < n && (#[trigger] pairs@[
                        s]).0 == k,
                forall|s: int|
                    0 <= s < t ==> other@.contains_key((#[trigger] pairs@[s]).0) && self@[pairs@[
                        s].0].eq_spec(&other@[pairs@[s].0]),
            decreases n - t,
        {
            let k = pairs[t].0;
            match other.get(k) {
                Some(w) => {
                    if !pairs[t].1.eq(w) {
                        proof {
                            assert(self@.contains_key(k));
                            assert(!self@[k].eq_spec(&other@[k]));
                        }
                        return false;
                    }
                },
                None => {
                    proof {
                        assert(self@.dom().contains(k) && !other@.dom().contains(k));
                    }
                    return false;
                },
            }
            t += 1;
        }
        proof {
            assert forall|k: u64| self@.contains_key(k) implies #[trigger] other@.contains_key(
                k,
            ) && self@[k].eq_spec(&other@[k]) by {
                let s = choose|s: int| 0 <= s < n && (#[trigger] pairs@[s]).0 == k;
            }
            assert(self@.dom().subset_of(other@.dom()));
            lemma_subset_equality(self@.dom(), other@.dom());
            assert(self@.dom() =~= other@.dom());
        }
        true
    }
}

} // verus!
