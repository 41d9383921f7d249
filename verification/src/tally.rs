//! The tally of finished games by their highest tile.
use std::collections::HashMap;
use vstd::prelude::*;

verus! {

broadcast use vstd::std_specs::hash::group_hash_axioms;

/// The tally after one more game whose highest tile is `key`.
pub open spec fn counted<K>(res: Map<K, u32>, key: K) -> Map<K, u32> {
    res.insert(key, if res.contains_key(key) { (res[key] + 1) as u32 } else { 1 })
}

/// Counts one more game whose highest tile (an exponent) is `max_val`.
pub fn count_game(res: &mut HashMap<u64, u32>, max_val: u64)
    requires
        old(res)@.contains_key(max_val) ==> old(res)@[max_val] < u32::MAX,
    ensures
        final(res)@ == counted(old(res)@, max_val),
{
    match res.get(&max_val) {
        Some(c) => {
            let c = *c;
            res.insert(max_val, c + 1);
        },
        None => {
            res.insert(max_val, 1);
        },
    }
}

/// Counts one more game on the web page whose highest tile is `max_tile`.
pub fn count_run(res: &mut HashMap<i32, u32>, max_tile: i32)
    requires
        old(res)@.contains_key(max_tile) ==> old(res)@[max_tile] < u32::MAX,
    ensures
        final(res)@ == counted(old(res)@, max_tile),
{
    match res.get(&max_tile) {
        Some(c) => {
            let c = *c;
            res.insert(max_tile, c + 1);
        },
        None => {
            res.insert(max_tile, 1);
        },
    }
}

} // verus!
