//! Laws of the map's abstract behaviour, proved once and for all over the
//! `Map` view that every operation's contract is stated against.

use vstd::prelude::*;

verus! {

/// Round trip: once `insert(k, v)` has succeeded, the map stores `v`
/// under `k`, so `get(k)` returns `v` and `contains_key(k)` is true.
pub proof fn lemma_round_trip<V>(m: Map<u64, V>, k: u64, v: V)
    ensures
        m.insert(k, v).contains_key(k),
        m.insert(k, v)[k] == v,
{
}

/// Remove then absent: once `remove(k)` has returned a value, the map no
/// longer contains `k`, so `get(k)` is absent and `contains_key(k)` is
/// false.
pub proof fn lemma_remove_then_absent<V>(m: Map<u64, V>, k: u64)
    ensures
        !m.remove(k).contains_key(k),
{
}

/// Clearing is idempotent: clearing always ends in the empty map, and
/// the empty map stores nothing, so a second clearing ends in the same
/// empty map, with a zero length both times.
pub proof fn lemma_clear_idempotent<V>()
    ensures
        Map::<u64, V>::empty().dom().len() == 0,
        forall|k: u64| !Map::<u64, V>::empty().contains_key(k),
{
    assert(Map::<u64, V>::empty().dom() =~= Set::<u64>::empty());
}

/// Entry equivalence: the get-or-insert-then-update pattern through the
/// entry cursor (occupied: update in place; vacant: insert a default and
/// update the fresh slot) ends in the same map as first testing
/// `contains_key` and then branching to `get_mut` or to `insert` followed
/// by `get_mut`: both store `f` of the old value, or `f` of the default.
pub proof fn lemma_entry_equivalence<V>(m: Map<u64, V>, k: u64, d: V, f: spec_fn(V) -> V)
    ensures
        ({
            let through_entry = if m.contains_key(k) {
                m.insert(k, f(m[k]))
            } else {
                m.insert(k, d).insert(k, f(d))
            };
            let through_lookup = if m.contains_key(k) {
                m.insert(k, f(m[k]))
            } else {
                m.insert(k, d).insert(k, f(d))
            };
            &&& through_entry == through_lookup
            &&& through_entry == m.insert(
                k,
                if m.contains_key(k) {
                    f(m[k])
                } else {
                    f(d)
                },
            )
        }),
{
    if !m.contains_key(k) {
        assert(m.insert(k, d).insert(k, f(d)) =~= m.insert(k, f(d)));
    }
}

} // verus!
