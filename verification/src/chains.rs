//! Specification model of the bucket array: a sequence of chains, each chain a
//! sequence of key/value pairs, together with the lemmas that relate a chain's
//! contents to the map the bucket array represents.

use vstd::prelude::*;
use vstd::set_lib::lemma_set_disjoint_lens;
use crate::bucket_of;

verus! {

/// The chain holds the key `k` at some position.
pub open(crate) spec fn chain_has<V>(c: Seq<(u64, V)>, k: u64) -> bool {
    exists|j: int| 0 <= j < c.len() && c[j].0 == k
}

/// Some position of the chain that holds the key `k`.
pub open(crate) spec fn chain_at<V>(c: Seq<(u64, V)>, k: u64) -> int {
    choose|j: int| 0 <= j < c.len() && c[j].0 == k
}

/// The value stored beside the key `k`.
pub open(crate) spec fn chain_value<V>(c: Seq<(u64, V)>, k: u64) -> V {
    c[chain_at(c, k)].1
}

/// No key occurs twice within the chain.
pub open(crate) spec fn nodup_keys<V>(c: Seq<(u64, V)>) -> bool {
    forall|j1: int, j2: int|
        0 <= j1 < j2 < c.len() ==> (#[trigger] c[j1]).0 != (#[trigger] c[j2]).0
}

/// Every pair sits in the bucket that `mask` selects for its key.
pub open(crate) spec fn placed<V>(cs: Seq<Seq<(u64, V)>>, mask: u64) -> bool {
    forall|i: int, j: int|
        0 <= i < cs.len() && 0 <= j < cs[i].len() ==> bucket_of(
            (#[trigger] cs[i][j]).0,
            mask,
        ) == i
}

/// The structural invariant of a bucket array: correct placement, and no
/// duplicate key within any chain.  Together these imply that a key occurs
/// in at most one position of the whole array.
pub open(crate) spec fn chains_ok<V>(cs: Seq<Seq<(u64, V)>>, mask: u64) -> bool {
    placed(cs, mask) && (forall|i: int| 0 <= i < cs.len() ==> nodup_keys(#[trigger] cs[i]))
}

/// All pairs of the bucket array, in bucket order, then chain order.
pub open(crate) spec fn pairs_of<V>(cs: Seq<Seq<(u64, V)>>) -> Seq<(u64, V)>
    decreases cs.len(),
{
    if cs.len() == 0 {
        Seq::empty()
    } else {
        pairs_of(cs.drop_last()) + cs.last()
    }
}

/// The bucket array stores the key `k` (in the bucket its hash selects).
pub open(crate) spec fn cs_has<V>(cs: Seq<Seq<(u64, V)>>, mask: u64, k: u64) -> bool {
    0 <= bucket_of(k, mask) < cs.len() && chain_has(cs[bucket_of(k, mask)], k)
}

/// The value the bucket array stores beside the key `k`.
pub open(crate) spec fn cs_val<V>(cs: Seq<Seq<(u64, V)>>, mask: u64, k: u64) -> V {
    chain_value(cs[bucket_of(k, mask)], k)
}

/// The set of keys that occur anywhere in the bucket array.
pub open(crate) spec fn key_set<V>(cs: Seq<Seq<(u64, V)>>) -> Set<u64> {
    Set::new(|k: u64| exists|i: int| 0 <= i < cs.len() && chain_has(#[trigger] cs[i], k))
}

/// In a chain without duplicate keys, any position holding `k` is the
/// position the model reads, so the value there is the chain's value for `k`.
pub(crate) proof fn lemma_chain_at<V>(c: Seq<(u64, V)>, k: u64, j: int)
    requires
        nodup_keys(c),
        0 <= j < c.len(),
        c[j].0 == k,
    ensures
        chain_has(c, k),
        chain_at(c, k) == j,
        chain_value(c, k) == c[j].1,
{
    assert(chain_has(c, k));
    let jj = chain_at(c, k);
    assert(0 <= jj < c.len() && c[jj].0 == k);
    if jj < j {
        assert(c[jj].0 != c[j].0);
    } else if j < jj {
        assert(c[j].0 != c[jj].0);
    }
}

/// Replacing one chain changes the pair count by the difference of the two
/// chain lengths.
pub(crate) proof fn lemma_pairs_of_update<V>(cs: Seq<Seq<(u64, V)>>, i: int, c2: Seq<(u64, V)>)
    requires
        0 <= i < cs.len(),
    ensures
        pairs_of(cs.update(i, c2)).len() == pairs_of(cs).len() - cs[i].len() + c2.len(),
    decreases cs.len(),
{
    let cs2 = cs.update(i, c2);
    if i == cs.len() - 1 {
        assert(cs2.drop_last() =~= cs.drop_last());
        assert(cs2.last() == c2);
    } else {
        assert(cs2.drop_last() =~= cs.drop_last().update(i, c2));
        lemma_pairs_of_update(cs.drop_last(), i, c2);
        assert(cs2.last() == cs.last());
    }
}

/// Appending a pair with a fresh key keeps the chain duplicate-free, adds
/// that key, and disturbs no other key.
pub(crate) proof fn lemma_chain_push<V>(c: Seq<(u64, V)>, p: (u64, V))
    requires
        nodup_keys(c),
        !chain_has(c, p.0),
    ensures
        nodup_keys(c.push(p)),
        chain_has(c.push(p), p.0),
        chain_value(c.push(p), p.0) == p.1,
        forall|k: u64| k != p.0 ==> (chain_has(c.push(p), k) <==> chain_has(c, k)),
        forall|k: u64| k != p.0 && chain_has(c, k) ==> chain_value(c.push(p), k) == chain_value(
            c,
            k,
        ),
{
    let c2 = c.push(p);
    assert(nodup_keys(c2)) by {
        assert forall|j1: int, j2: int| 0 <= j1 < j2 < c2.len() implies (c2[j1]).0 != (
        c2[j2]).0 by {
            if j2 < c.len() {
                assert(c[j1].0 != c[j2].0);
            } else {
                assert(c2[j2] == p);
                if c2[j1].0 == p.0 {
                    assert(chain_has(c, p.0));
                }
            }
        }
    }
    lemma_chain_at(c2, p.0, c.len() as int);
    assert forall|k: u64| k != p.0 implies (chain_has(c2, k) <==> chain_has(c, k)) by {
        if chain_has(c2, k) {
            let j = choose|j: int| 0 <= j < c2.len() && c2[j].0 == k;
            assert(j < c.len());
            assert(c[j].0 == k);
        }
        if chain_has(c, k) {
            let j = choose|j: int| 0 <= j < c.len() && c[j].0 == k;
            assert(c2[j].0 == k);
        }
    }
    assert forall|k: u64| k != p.0 && chain_has(c, k) implies chain_value(c2, k) == chain_value(
        c,
        k,
    ) by {
        let j = choose|j: int| 0 <= j < c.len() && c[j].0 == k;
        lemma_chain_at(c, k, j);
        lemma_chain_at(c2, k, j);
    }
}

/// Replacing the value at one position changes that key's value and
/// nothing else.
pub(crate) proof fn lemma_chain_set<V>(c: Seq<(u64, V)>, j: int, w: V)
    requires
        nodup_keys(c),
        0 <= j < c.len(),
    ensures
        ({
            let c2 = c.update(j, (c[j].0, w));
            &&& nodup_keys(c2)
            &&& forall|k: u64| chain_has(c2, k) <==> chain_has(c, k)
            &&& chain_value(c2, c[j].0) == w
            &&& forall|k: u64| k != c[j].0 && chain_has(c, k) ==> chain_value(c2, k)
                == chain_value(c, k)
        }),
{
    let c2 = c.update(j, (c[j].0, w));
    assert(forall|t: int| 0 <= t < c.len() ==> (#[trigger] c2[t]).0 == c[t].0);
    assert forall|k: u64| chain_has(c2, k) <==> chain_has(c, k) by {
        if chain_has(c2, k) {
            let t = choose|t: int| 0 <= t < c2.len() && c2[t].0 == k;
            assert(c[t].0 == k);
        }
        if chain_has(c, k) {
            let t = choose|t: int| 0 <= t < c.len() && c[t].0 == k;
            assert(c2[t].0 == k);
        }
    }
    lemma_chain_at(c2, c[j].0, j);
    assert forall|k: u64| k != c[j].0 && chain_has(c, k) implies chain_value(c2, k) == chain_value(
        c,
        k,
    ) by {
        let t = choose|t: int| 0 <= t < c.len() && c[t].0 == k;
        assert(t != j);
        lemma_chain_at(c, k, t);
        lemma_chain_at(c2, k, t);
    }
}

/// Removing the pair at one position by swapping in the last pair drops
/// exactly that key and keeps every other key with its value.
pub(crate) proof fn lemma_chain_swap_remove<V>(c: Seq<(u64, V)>, j: int)
    requires
        nodup_keys(c),
        0 <= j < c.len(),
    ensures
        ({
            let c2 = c.update(j, c.last()).drop_last();
            &&& nodup_keys(c2)
            &&& !chain_has(c2, c[j].0)
            &&& forall|k: u64| k != c[j].0 ==> (chain_has(c2, k) <==> chain_has(c, k))
            &&& forall|k: u64| k != c[j].0 && chain_has(c, k) ==> chain_value(c2, k)
                == chain_value(c, k)
        }),
{
    let n = c.len() - 1;
    let c2 = c.update(j, c.last()).drop_last();
    assert(c2.len() == n);
    assert(forall|t: int| 0 <= t < n ==> c2[t] == (if t == j { c[n] } else { c[t] }));
    assert(nodup_keys(c2)) by {
        assert forall|t1: int, t2: int| 0 <= t1 < t2 < n implies (c2[t1]).0 != (c2[t2]).0 by {
            let s1: int = if t1 == j { n } else { t1 };
            let s2: int = if t2 == j { n } else { t2 };
            if s1 < s2 {
                assert(c[s1].0 != c[s2].0);
            } else {
                assert(c[s2].0 != c[s1].0);
            }
        }
    }
    assert(!chain_has(c2, c[j].0)) by {
        if chain_has(c2, c[j].0) {
            let t = choose|t: int| 0 <= t < n && c2[t].0 == c[j].0;
            if t == j {
                assert(c[n].0 == c[j].0);
                if j < n {
                    assert(c[j].0 != c[n].0);
                }
            } else {
                assert(c[t].0 == c[j].0);
                if t < j {
                    assert(c[t].0 != c[j].0);
                } else {
                    assert(c[j].0 != c[t].0);
                }
            }
        }
    }
    assert forall|k: u64| k != c[j].0 implies (chain_has(c2, k) <==> chain_has(c, k)) by {
        if chain_has(c2, k) {
            let t = choose|t: int| 0 <= t < n && c2[t].0 == k;
            if t == j {
                assert(c[n].0 == k);
            } else {
                assert(c[t].0 == k);
            }
        }
        if chain_has(c, k) {
            let t = choose|t: int| 0 <= t < c.len() && c[t].0 == k;
            if t == n {
                if j < n {
                    assert(c2[j].0 == k);
                }
            } else if t == j {
            } else {
                assert(c2[t].0 == k);
            }
        }
    }
    assert forall|k: u64| k != c[j].0 && chain_has(c, k) implies chain_value(c2, k) == chain_value(
        c,
        k,
    ) by {
        let t = choose|t: int| 0 <= t < c.len() && c[t].0 == k;
        lemma_chain_at(c, k, t);
        if t == n {
            assert(j < n);
            assert(c2[j] == c[n]);
            lemma_chain_at(c2, k, j);
        } else {
            assert(c2[t] == c[t]);
            lemma_chain_at(c2, k, t);
        }
    }
}

/// Every pair of all-empty chains amounts to nothing stored.
pub(crate) proof fn lemma_pairs_of_empty<V>(cs: Seq<Seq<(u64, V)>>)
    requires
        forall|i: int| 0 <= i < cs.len() ==> (#[trigger] cs[i]).len() == 0,
    ensures
        pairs_of(cs).len() == 0,
    decreases cs.len(),
{
    if cs.len() > 0 {
        let front = cs.drop_last();
        assert(forall|i: int| 0 <= i < front.len() ==> (#[trigger] front[i]).len() == 0) by {
            assert(forall|i: int| 0 <= i < front.len() ==> front[i] == cs[i]);
        }
        lemma_pairs_of_empty(front);
        assert(cs.last().len() == 0);
    }
}

/// Walking one more bucket appends exactly that bucket's chain.
pub(crate) proof fn lemma_pairs_take_step<V>(cs: Seq<Seq<(u64, V)>>, i: int)
    requires
        0 <= i < cs.len(),
    ensures
        pairs_of(cs.take(i + 1)) == pairs_of(cs.take(i)) + cs[i],
{
    assert(cs.take(i + 1).drop_last() =~= cs.take(i));
    assert(cs.take(i + 1).last() == cs[i]);
}

/// A prefix of the buckets holds at most all stored pairs.
pub(crate) proof fn lemma_pairs_prefix_le<V>(cs: Seq<Seq<(u64, V)>>, m: int)
    requires
        0 <= m <= cs.len(),
    ensures
        pairs_of(cs.take(m)).len() <= pairs_of(cs).len(),
    decreases cs.len() - m,
{
    if m == cs.len() {
        assert(cs.take(m) =~= cs);
    } else {
        lemma_pairs_take_step(cs, m);
        lemma_pairs_prefix_le(cs, m + 1);
    }
}

/// How many chains are not empty.
pub open(crate) spec fn occupied_count<V>(cs: Seq<Seq<(u64, V)>>) -> nat
    decreases cs.len(),
{
    if cs.len() == 0 {
        0
    } else {
        occupied_count(cs.drop_last()) + if cs.last().len() > 0 {
            1nat
        } else {
            0nat
        }
    }
}

/// How many chains have exactly the length `l`.
pub open(crate) spec fn num_chains_of_len<V>(cs: Seq<Seq<(u64, V)>>, l: nat) -> nat
    decreases cs.len(),
{
    if cs.len() == 0 {
        0
    } else {
        num_chains_of_len(cs.drop_last(), l) + if cs.last().len() == l {
            1nat
        } else {
            0nat
        }
    }
}

/// The key sequence of a chain.
pub open(crate) spec fn chain_keys<V>(c: Seq<(u64, V)>) -> Seq<u64> {
    c.map_values(|p: (u64, V)| p.0)
}

/// A chain without duplicate keys contributes exactly `c.len()` keys.
pub(crate) proof fn lemma_chain_key_set<V>(c: Seq<(u64, V)>)
    requires
        nodup_keys(c),
    ensures
        chain_keys(c).to_set().finite(),
        chain_keys(c).to_set().len() == c.len(),
        forall|k: u64| chain_keys(c).to_set().contains(k) <==> chain_has(c, k),
{
    let ks = chain_keys(c);
    assert(ks.no_duplicates()) by {
        assert forall|j1: int, j2: int|
            0 <= j1 < ks.len() && 0 <= j2 < ks.len() && j1 != j2 implies ks[j1] != ks[j2] by {
            if j1 < j2 {
                assert(c[j1].0 != c[j2].0);
            } else {
                assert(c[j2].0 != c[j1].0);
            }
        }
    }
    ks.unique_seq_to_set();
    assert forall|k: u64| ks.to_set().contains(k) <==> chain_has(c, k) by {
        if ks.to_set().contains(k) {
            let j = choose|j: int| 0 <= j < ks.len() && ks[j] == k;
            assert(c[j].0 == k);
        }
        if chain_has(c, k) {
            let j = choose|j: int| 0 <= j < c.len() && c[j].0 == k;
            assert(ks[j] == k);
            assert(ks.to_set().contains(k));
        }
    }
}

/// Under the structural invariant the keys of the array are pairwise
/// distinct across buckets, so the number of distinct keys equals the total
/// number of stored pairs.
pub(crate) proof fn lemma_key_set_card<V>(cs: Seq<Seq<(u64, V)>>, mask: u64)
    requires
        chains_ok(cs, mask),
    ensures
        key_set(cs).finite(),
        key_set(cs).len() == pairs_of(cs).len(),
        forall|k: u64| #[trigger] key_set(cs).contains(k) ==> 0 <= bucket_of(k, mask) < cs.len()
            && chain_has(cs[bucket_of(k, mask)], k),
    decreases cs.len(),
{
    if cs.len() == 0 {
        assert(key_set(cs) =~= Set::<u64>::empty());
    } else {
        let front = cs.drop_last();
        let lastc = cs.last();
        let n = cs.len() - 1;
        assert(chains_ok(front, mask)) by {
            assert forall|i: int, j: int|
                0 <= i < front.len() && 0 <= j < front[i].len() implies bucket_of(
                (front[i][j]).0,
                mask,
            ) == i by {
                assert(cs[i][j] == front[i][j]);
            }
            assert forall|i: int| 0 <= i < front.len() implies nodup_keys(front[i]) by {
                assert(front[i] == cs[i]);
            }
        }
        lemma_key_set_card(front, mask);
        assert(nodup_keys(lastc)) by {
            assert(cs[n] == lastc);
        }
        lemma_chain_key_set(lastc);
        let a = key_set(front);
        let b = chain_keys(lastc).to_set();
        assert(a.disjoint(b)) by {
            assert forall|k: u64| a.contains(k) implies !b.contains(k) by {
                assert(0 <= bucket_of(k, mask) < front.len());
                if b.contains(k) {
                    assert(chain_has(lastc, k));
                    let j = choose|j: int| 0 <= j < lastc.len() && lastc[j].0 == k;
                    assert(cs[n][j] == lastc[j]);
                    assert(bucket_of(k, mask) == n);
                }
            }
        }
        assert(key_set(cs) =~= a + b) by {
            assert forall|k: u64| key_set(cs).contains(k) implies (a + b).contains(k) by {
                let i = choose|i: int| 0 <= i < cs.len() && chain_has(#[trigger] cs[i], k);
                if i < n {
                    assert(front[i] == cs[i]);
                    assert(a.contains(k));
                } else {
                    assert(b.contains(k));
                }
            }
            assert forall|k: u64| (a + b).contains(k) implies key_set(cs).contains(k) by {
                if a.contains(k) {
                    let i = choose|i: int| 0 <= i < front.len() && chain_has(#[trigger] front[i], k);
                    assert(cs[i] == front[i]);
                    assert(chain_has(cs[i], k));
                } else {
                    assert(chain_has(cs[n], k));
                }
            }
        }
        lemma_set_disjoint_lens(a, b);
        assert(pairs_of(cs).len() == pairs_of(front).len() + lastc.len());
        assert forall|k: u64| #[trigger] key_set(cs).contains(k) implies 0 <= bucket_of(k, mask)
            < cs.len() && chain_has(cs[bucket_of(k, mask)], k) by {
            let i = choose|i: int| 0 <= i < cs.len() && chain_has(#[trigger] cs[i], k);
            let j = choose|j: int| 0 <= j < cs[i].len() && cs[i][j].0 == k;
            assert(bucket_of(k, mask) == i);
        }
    }
}

} // verus!
