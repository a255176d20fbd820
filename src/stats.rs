//! Looking up tallies kept over many games.

use vstd::prelude::*;
use std::collections::HashMap;

verus! {

broadcast use vstd::std_specs::hash::group_hash_axioms;

/// Whether `k` is the smallest key of `m` that is at least `val`.
pub open spec fn closest_key(m: Map<usize, usize>, val: usize, k: usize) -> bool {
    &&& val <= k
    &&& m.contains_key(k)
    &&& forall|j: usize| val <= j < k ==> !(#[trigger] m.contains_key(j))
}

/// The tally kept under `val`, or, when there is none, under the nearest key
/// above it. Some key at or above `val` must exist.
pub fn get_closest(map: &HashMap<usize, usize>, val: usize) -> (r: usize)
    requires
        exists|k: usize| val <= k && #[trigger] map@.contains_key(k),
    ensures
        exists|k: usize| closest_key(map@, val, k) && r == map@[k],
{
    let ghost top = choose|k: usize| val <= k && #[trigger] map@.contains_key(k);
    let mut find_val = val;
    loop
        invariant
            val <= find_val <= top,
            map@.contains_key(top),
            forall|j: usize| val <= j < find_val ==> !(#[trigger] map@.contains_key(j)),
        decreases top - find_val,
    {
        match map.get(&find_val) {
            Some(value) => {
                proof {
                    assert(closest_key(map@, val, find_val));
                }
                return *value;
            },
            None => {
                find_val = find_val + 1;
            },
        }
    }
}

} // verus!
