use std::collections::HashMap;

use own2048::tally::{count_game, count_run};

#[test]
fn count_game_tallies_highest_tiles() {
    let mut res: HashMap<u64, u32> = HashMap::new();
    count_game(&mut res, 11);
    count_game(&mut res, 11);
    count_game(&mut res, 10);
    assert_eq!(Some(&2), res.get(&11));
    assert_eq!(Some(&1), res.get(&10));
    assert_eq!(2, res.len());
}

#[test]
fn count_run_tallies_highest_tiles() {
    let mut res: HashMap<i32, u32> = HashMap::new();
    count_run(&mut res, 2048);
    count_run(&mut res, 1024);
    count_run(&mut res, 2048);
    assert_eq!(Some(&2), res.get(&2048));
    assert_eq!(Some(&1), res.get(&1024));
}
