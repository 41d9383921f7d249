use own2048::grid::{
    can_predict_grid, eval_tiles, line_can_move, predict, tiles_can_count, try_push, weighted_can_score, weighted_score,
    Direction,
};
use own2048::page::{cells_available, get_grid_info, max_tile, parse_number, split_bytes, stuck_step, tile_info};

#[test]
fn split_bytes_like_str_split() {
    let parts = split_bytes(b"tile tile-2  x", b' ');
    assert_eq!(vec![b"tile".to_vec(), b"tile-2".to_vec(), Vec::new(), b"x".to_vec()], parts);
    assert_eq!(vec![Vec::<u8>::new()], split_bytes(b"", b'-'));
    assert_eq!(vec![Vec::<u8>::new(), Vec::new()], split_bytes(b"-", b'-'));
}

#[test]
fn parse_number_like_str_parse() {
    assert_eq!(Some(2048), parse_number(&b"2048".to_vec()));
    assert_eq!(Some(5), parse_number(&b"+5".to_vec()));
    assert_eq!(Some(7), parse_number(&b"007".to_vec()));
    assert_eq!(None, parse_number(&b"".to_vec()));
    assert_eq!(None, parse_number(&b"+".to_vec()));
    assert_eq!(None, parse_number(&b"-1".to_vec()));
    assert_eq!(None, parse_number(&b"12a".to_vec()));
    assert_eq!(Some(u64::MAX), parse_number(&b"18446744073709551615".to_vec()));
    assert_eq!(None, parse_number(&b"18446744073709551616".to_vec()));
    assert_eq!(None, parse_number(&b"99999999999999999999".to_vec()));
    for s in ["0", "1", "42", "+17", "x", "4-2"] {
        assert_eq!(s.parse::<u64>().ok(), parse_number(&s.as_bytes().to_vec()));
    }
}

#[test]
fn get_grid_info_writes_the_tile() {
    let mut tiles = vec![vec![0u64; 4]; 4];
    get_grid_info(&mut tiles, String::from("tile tile-2 tile-position-1-3 tile-new"));
    get_grid_info(&mut tiles, String::from("tile tile-1024 tile-position-4-1"));
    assert_eq!(
        vec![vec![0, 0, 0, 1024], vec![0, 0, 0, 0], vec![2, 0, 0, 0], vec![0, 0, 0, 0]],
        tiles
    );
}

#[test]
fn stuck_step_counts_unchanged_readings() {
    let a = vec![vec![0u64, 2], vec![4, 0]];
    let b = vec![vec![0u64, 2], vec![4, 2]];
    assert_eq!((1, false), stuck_step(0, &a, &a.clone()));
    assert_eq!((11, true), stuck_step(10, &a, &a.clone()));
    assert_eq!((0, false), stuck_step(7, &a, &b));
}

#[test]
fn max_tile_is_the_largest() {
    assert_eq!(2048, max_tile(&vec![4, 2048, 16, 2]));
    assert_eq!(-3, max_tile(&vec![-3]));
}

#[test]
fn cells_available_row_by_row() {
    let tiles = vec![vec![2u64, 0, 4, 0], vec![8, 8, 8, 8], vec![0, 2, 2, 2], vec![2, 2, 2, 0]];
    assert_eq!(vec![(0, 1), (0, 3), (2, 0), (3, 3)], cells_available(&tiles));
}

#[test]
fn weighted_score_unchanged_move_scores_minus_one() {
    let g = vec![vec![0u64, 2, 0, 0], vec![0, 2, 0, 0], vec![0, 0, 2, 2], vec![0, 0, 0, 0]];
    assert_eq!(-1, weighted_score(&g, &g.clone()));
}

#[test]
fn weighted_score_weighs_the_moved_grid() {
    let org = vec![vec![0u64, 0, 0, 0], vec![0, 0, 0, 0], vec![0, 0, 0, 0], vec![0, 0, 0, 0]];
    let moved = vec![vec![0u64, 0, 0, 0], vec![0, 0, 0, 0], vec![0, 0, 0, 0], vec![0, 0, 0, 2]];
    // 15 empty cells (100 each), the 2 weighted by 6400, equal right
    // neighbours in rows 2 and 3 (5000 each, five of them) and a larger one
    // at the end of row 3 (1000).
    assert_eq!(1500 + 12800 + 5 * 5000 + 1000, weighted_score(&org, &moved));
}

#[test]
fn direction_from_draw_on_the_page() {
    assert_eq!(Direction::Top, Direction::from_draw(0));
    assert_eq!(Direction::Right, Direction::from_draw(1));
    assert_eq!(Direction::Left, Direction::from_draw(2));
    assert_eq!(Direction::Bottom, Direction::from_draw(3));
}

#[test]
fn tile_info_reads_value_and_position() {
    assert_eq!(Some((2, 1, 3)), tile_info(&String::from("tile tile-2 tile-position-1-3 tile-new")));
    assert_eq!(Some((2048, 4, 4)), tile_info(&String::from("tile tile-2048 tile-position-4-4")));
    assert_eq!(None, tile_info(&String::from("tile")));
    assert_eq!(None, tile_info(&String::from("tile tile-x tile-position-1-1")));
    assert_eq!(None, tile_info(&String::from("tile tile-2 tile-position-1")));
    assert_eq!(Some((4, 0, 2)), tile_info(&String::from("tile tile-4 tile-position-0-2")));
}

#[test]
fn line_can_move_cases() {
    assert!(line_can_move(&vec![2, 2, 0, 0]));
    assert!(!line_can_move(&vec![1, 2, 3, 4, 5]));
    assert!(line_can_move(&vec![1, 0, 2, 3, 4, 0]));
    assert!(!line_can_move(&vec![1u64 << 63, 1u64 << 63]));
    assert!(line_can_move(&vec![1u64 << 62, 1u64 << 62]));
    assert!(!line_can_move(&vec![3, 1u64 << 63, 1u64 << 63]));
}

#[test]
fn try_push_cases() {
    let g = vec![vec![0u64, 2, 0, 0], vec![0, 2, 0, 0], vec![0, 0, 2, 2], vec![0, 0, 0, 0]];
    assert_eq!(
        Some(vec![vec![0, 4, 2, 2], vec![0, 0, 0, 0], vec![0, 0, 0, 0], vec![0, 0, 0, 0]]),
        try_push(&g, Direction::Top)
    );
    let short = vec![vec![0u64, 2, 0], vec![0, 2, 0], vec![0, 0, 2]];
    assert_eq!(None, try_push(&short, Direction::Left));
    let ragged = vec![vec![0u64, 2, 0, 0], vec![0, 2], vec![0, 0, 2, 2], vec![0, 0, 0, 0]];
    assert_eq!(None, try_push(&ragged, Direction::Bottom));
}

#[test]
fn weighted_can_score_cases() {
    let org = vec![vec![0u64; 4]; 4];
    assert!(weighted_can_score(&org, &org.clone()));
    let mut moved = vec![vec![0u64; 4]; 4];
    moved[3][3] = 2048;
    assert!(weighted_can_score(&org, &moved));
    moved[3][3] = 400_000;
    assert!(!weighted_can_score(&org, &moved));
    assert!(!weighted_can_score(&org, &vec![vec![2u64; 4]; 3]));
}

#[test]
fn can_predict_grid_cases() {
    let g = vec![vec![0u64, 2, 0, 0], vec![0, 2, 0, 0], vec![0, 0, 4, 2], vec![0, 0, 0, 0]];
    assert!(can_predict_grid(&g));
    let short = vec![vec![0u64, 2, 0], vec![0, 2, 0], vec![0, 0, 2]];
    assert!(!can_predict_grid(&short));
}

#[test]
fn eval_tiles_counts_every_row() {
    assert_eq!(0, eval_tiles(&vec![vec![0u64; 4]; 4]));
    assert_eq!(16, eval_tiles(&vec![vec![2u64; 4]; 4]));
    assert_eq!(3, eval_tiles(&vec![vec![0u64, 8], vec![], vec![4, 0, 0, 0, 2]]));
    assert!(tiles_can_count(&vec![vec![2u64; 4]; 4]));
}

#[test]
fn weighted_score_of_the_moves_on_a_grid() {
    let g = vec![vec![0u64, 2, 0, 0], vec![0, 2, 0, 0], vec![0, 0, 4, 2], vec![0, 0, 0, 0]];
    let scores: Vec<i32> = [Direction::Right, Direction::Left, Direction::Top, Direction::Bottom]
        .iter()
        .map(|d| weighted_score(&g, &try_push(&g, *d).unwrap()))
        .collect();
    assert_eq!(vec![70200, 21202, 45304, 39904], scores);
}

#[test]
fn predict_prefers_the_move_that_merges_most() {
    // Up and down each merge two pairs, sideways moves none; up is tried
    // before down.
    let g = vec![vec![4u64, 0, 0, 2], vec![4, 0, 0, 2], vec![0, 0, 0, 0], vec![0, 0, 0, 0]];
    assert_eq!(Direction::Top, predict(&g));
    // Right and left each merge one pair; right is tried first.
    let h = vec![vec![2u64, 2, 0, 0], vec![0, 0, 0, 0], vec![0, 0, 0, 0], vec![0, 0, 0, 0]];
    assert_eq!(Direction::Right, predict(&h));
}
