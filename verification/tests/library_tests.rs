use own2048::game::{Direction, Game};
use own2048::solver::Solver;

fn game(board: u64) -> Game {
    Game { board, score: 0 }
}

#[test]
fn new_clears_board_and_score() {
    let mut g = Game { board: 0x1234_5678_9ABC_DEF1, score: 77 };
    g.new();
    assert_eq!(0, g.board);
    assert_eq!(0, g.score);
}

#[test]
fn get_value_reads_back_set_value() {
    let mut g = game(0x0123_4567_89AB_CDEF);
    for idx in 0..16usize {
        let before = g.board;
        g.set_value(idx, 0x7);
        assert_eq!(0x7, g.get_value(idx));
        for other in 0..16usize {
            if other != idx {
                let mut h = game(before);
                assert_eq!(h.get_value(other), g.get_value(other));
            }
        }
    }
}

#[test]
fn transpose_twice_gives_board_back() {
    let mut g = game(0x1A2B_3C4D_5E6F_7081);
    g.transpose();
    g.transpose();
    assert_eq!(0x1A2B_3C4D_5E6F_7081, g.board);
}

#[test]
fn cols_transposes_the_board() {
    let mut g = game(0x0123_4567_89AB_CDEF);
    let c = g.cols();
    assert_eq!([0x048C, 0x159D, 0x26AE, 0x37BF], c);
    assert_eq!(0x048C_159D_26AE_37BF_u64, g.board);
}

#[test]
fn four_quarter_turns_give_board_back() {
    let mut g = game(0x0123_4567_89AB_CDEF);
    g.score = 9;
    for _ in 0..4 {
        g.rotate90deg();
    }
    assert_eq!(0x0123_4567_89AB_CDEF, g.board);
    assert_eq!(9, g.score);
}

#[test]
fn vec2row_packs_cells() {
    let g = game(0);
    assert_eq!(0x1234, g.vec2row(vec![1, 2, 3, 4]));
    assert_eq!(0x1000, g.vec2row(vec![0, 16, 0, 0]));
    assert_eq!(0xFFFF, g.vec2row(vec![0xF, 0xF, 0xF, 0xF, 9]));
}

#[test]
fn row2vec_then_vec2row_gives_row_back() {
    let g = game(0);
    for row in [0x0000u16, 0x1234, 0xF00F, 0xABCD] {
        assert_eq!(row as u64, g.vec2row(g.row2vec(row)));
    }
}

#[test]
fn row2left_empty_line_gets_a_tile() {
    let mut g = game(0);
    assert_eq!(0x1000, g.row2left(vec![0, 0, 0, 0]));
    assert_eq!(0, g.score);
}

#[test]
fn row2left_longer_line_with_gaps() {
    let mut g = game(0);
    assert_eq!(0x2000, g.row2left(vec![0, 1, 0, 0, 1, 0]));
    assert_eq!(1, g.score);
    assert_eq!(0x1200, g.row2left(vec![0, 1, 0, 0, 2, 0]));
    assert_eq!(1, g.score);
}

#[test]
fn row2left_second_merge_spills_into_the_first_cell() {
    let mut g = game(0);
    assert_eq!(0x3000, g.row2left(vec![3, 15, 15, 0]));
    assert_eq!(15, g.score);
}

#[test]
fn row2left_third_position_merges() {
    let mut g = game(5);
    assert_eq!(0x1240, g.row2left(vec![1, 2, 3, 3]));
    assert_eq!(3, g.score);
    assert_eq!(5, g.board);
}

#[test]
fn into_left_on_board_with_empty_rows() {
    let mut g = game(0x0000_1100_0000_0000);
    g.into_left();
    assert_eq!(0x1000_2000_1000_1000, g.board);
    assert_eq!(1, g.score);
}

#[test]
fn move_left_is_into_left() {
    let mut a = game(0x1121_4014_4023_2111);
    let mut b = a;
    a.move_to(Direction::Left);
    b.into_left();
    assert_eq!(a.board, b.board);
    assert_eq!(a.score, b.score);
}

#[test]
fn moves_never_lose_points() {
    for dir in [Direction::Left, Direction::Right, Direction::Up, Direction::Down] {
        let mut g = Game { board: 0x1121_4014_4023_2111, score: 10 };
        g.move_to(dir);
        assert!(g.score >= 10);
    }
}

#[test]
fn count_empty_is_length_of_empty_tile_idx() {
    for b in [0u64, 0x0566_0100_0000_0001, 0x1566_3431_5555_6666, 0xF0F0_0F0F_1234_0000] {
        let g = game(b);
        assert_eq!(g.count_empty() as usize, g.empty_tile_idx().len());
        for i in g.empty_tile_idx() {
            let mut h = g;
            assert_eq!(0, h.get_value(i as usize));
        }
    }
}

#[test]
fn get_max_value_of_empty_board() {
    assert_eq!(0, game(0).get_max_value());
    assert_eq!(0xF, game(0xF000_0000_0000_0001).get_max_value());
}

#[test]
fn tile_for_draws() {
    assert_eq!(2, Game::tile_for(0));
    assert_eq!(1, Game::tile_for(1));
    assert_eq!(1, Game::tile_for(9));
    let t = game(0).tile();
    assert!(t == 1 || t == 2);
}

#[test]
fn direction_from_draw() {
    assert_eq!(Direction::Left, Direction::from_draw(0));
    assert_eq!(Direction::Right, Direction::from_draw(1));
    assert_eq!(Direction::Up, Direction::from_draw(2));
    assert_eq!(Direction::Down, Direction::from_draw(3));
    assert_eq!(Direction::Down, Direction::from_draw(7));
    let d = Direction::random_dir();
    assert!(matches!(d, Direction::Left | Direction::Right | Direction::Up | Direction::Down));
}

#[test]
fn direction_iterator_order() {
    assert_eq!([Direction::Right, Direction::Left, Direction::Up, Direction::Down], Direction::iterator());
}

#[test]
fn spawn_tile_fills_one_empty_cell() {
    let mut g = game(0x1234_0000_0000_0000);
    let before = g.count_empty();
    g.spawn_tile();
    assert_eq!(before - 1, g.count_empty());
    assert_eq!(0x1234, g.board >> 48);
    let v = g.get_max_value();
    assert!(v == 4);
}

#[test]
fn is_end_restores_board_but_keeps_points() {
    let mut g = game(0x1123_4567_89AB_CDEF);
    assert_eq!(false, g.is_end());
    assert_eq!(0x1123_4567_89AB_CDEF, g.board);
    assert_eq!(3, g.score);
}

#[test]
fn is_end_with_empty_cells_changes_nothing() {
    let mut g = Game { board: 0x0000_4567_89AB_CDEF, score: 4 };
    assert_eq!(false, g.is_end());
    assert_eq!(0x0000_4567_89AB_CDEF, g.board);
    assert_eq!(4, g.score);
}

#[test]
fn leaf_score_plays_the_four_moves() {
    let org = game(0x1100_0000_0000_0000);
    assert_eq!(4, Solver::leaf_score(org, &vec![15], &vec![1]));
    assert_eq!(4, Solver::leaf_score(org, &vec![2, 15], &vec![1, 2]));
    assert_eq!(0, Solver::leaf_score(org, &vec![], &vec![]));
}

#[test]
fn choose_dir_prefers_first_best() {
    assert_eq!(Direction::Down, Solver::choose_dir(&vec![0, 0, 0, 0]));
    assert_eq!(Direction::Right, Solver::choose_dir(&vec![3, 0, 0, 0]));
    assert_eq!(Direction::Left, Solver::choose_dir(&vec![5, 7, 7, 1]));
    assert_eq!(Direction::Up, Solver::choose_dir(&vec![5, 7, 8, 8]));
    assert_eq!(Direction::Down, Solver::choose_dir(&vec![0, 0, 0, 1]));
}

#[test]
fn dfs_without_positions_scores_nothing() {
    let g = game(0x1100_0000_0000_0000);
    let mut s = Solver { game: g, max_value: 0 };
    assert_eq!(0, s.dfs(g, Direction::Left, vec![], 0));
}

#[test]
fn next_dir_returns_a_direction() {
    let g = game(0x1100_0000_0000_0000);
    let mut s = Solver { game: g, max_value: 0 };
    let d = s.next_dir(1);
    assert!(matches!(d, Direction::Left | Direction::Right | Direction::Up | Direction::Down));
    assert_eq!(g.board, s.game.board);
}

#[test]
fn can_move_to_spots_row_overflow() {
    let g = game(0xFF00_0000_0000_0000);
    assert!(!g.can_move_to(Direction::Left));
    assert!(!g.can_move_to(Direction::Right));
    assert!(g.can_move_to(Direction::Up));
    assert!(g.can_move_to(Direction::Down));
}

#[test]
fn can_move_to_spots_score_overflow() {
    let g = Game { board: 0x1100_0000_0000_0000, score: u64::MAX };
    assert!(!g.can_move_to(Direction::Left));
    assert!(g.can_move_to(Direction::Up));
    let h = Game { board: 0x1100_0000_0000_0000, score: u64::MAX - 1 };
    assert!(h.can_move_to(Direction::Left));
}

#[test]
fn can_check_end_cases() {
    assert!(game(0x0123_4567_89AB_CDEF).can_check_end());
    assert!(game(0x1123_4567_89AB_CDEF).can_check_end());
    assert!(!game(0xFF23_4567_89AB_CDE1).can_check_end());
}

#[test]
fn can_search_cases() {
    let ok = Solver { game: game(0x1100_0000_0000_0000), max_value: 0 };
    assert!(ok.can_search());
    let bad = Solver { game: game(0xFF00_0000_0000_0000), max_value: 0 };
    assert!(!bad.can_search());
}

#[test]
fn moving_a_line_adds_no_tile() {
    let mut g = game(0);
    let packed = g.row2left(vec![1, 1, 1, 1]);
    let cells = g.row2vec(packed as u16);
    assert_eq!(vec![2, 2, 0, 0], cells);
    assert_eq!(2, g.score);
    let packed = g.row2left(vec![0, 3, 0, 4]);
    assert_eq!(vec![3, 4, 0, 0], g.row2vec(packed as u16));
}

#[test]
fn turns_before_and_after_a_move_cancel() {
    for k in 0..4u32 {
        let mut g = game(0x0123_4567_89AB_CDEF);
        for _ in 0..k {
            g.rotate90deg();
        }
        for _ in 0..((4 - k) % 4) {
            g.rotate90deg();
        }
        assert_eq!(0x0123_4567_89AB_CDEF, g.board);
    }
}

#[test]
fn is_end_with_equal_neighbours_in_a_column() {
    let mut g = game(0x1234_1567_89AB_CDEF);
    assert_eq!(false, g.is_end());
    assert_eq!(0x1234_1567_89AB_CDEF, g.board);
}

#[test]
fn moving_a_line_keeps_its_worth() {
    let mut g = game(0);
    let packed = g.row2left(vec![1, 1, 2, 0]);
    let cells = g.row2vec(packed as u16);
    assert_eq!(vec![2, 2, 0, 0], cells);
    let worth = |v: &Vec<u16>| v.iter().filter(|x| **x != 0).map(|x| 1u32 << x).sum::<u32>();
    assert_eq!(worth(&vec![1, 1, 2, 0]), worth(&cells));
}

#[test]
fn move_right_slides_reversed_rows() {
    let mut g = game(0x1121_4014_4023_2111);
    g.move_to(Direction::Right);
    let mut h = game(0);
    for (r, row) in [[1u16, 2, 1, 1], [4, 1, 0, 4], [3, 2, 0, 4], [1, 1, 1, 2]].iter().enumerate() {
        let slid = h.row2vec(h.row2left(row.to_vec()) as u16);
        let mut expect = slid.clone();
        expect.reverse();
        let got = ((g.board >> (48 - 16 * r)) & 0xFFFF) as u16;
        assert_eq!(expect, h.row2vec(got));
    }
}

#[test]
fn small_board_moves_every_way_near_the_score_limit() {
    // Every cell below 15 and 180 points of room: each move can be made.
    let b = 0xEEDD_CCBB_AA99_8877u64;
    let g = Game { board: b, score: u64::MAX - 180 };
    for d in [Direction::Left, Direction::Right, Direction::Up, Direction::Down] {
        assert!(g.can_move_to(d));
        let mut h = g;
        h.move_to(d);
        assert!(h.score >= g.score && h.score <= g.score + 180);
    }
    let mut h = g;
    h.into_left();
    // Each row merges two pairs, scoring the values that merged.
    assert_eq!(g.score + (14 + 13) + (12 + 11) + (10 + 9) + (8 + 7), h.score);
    assert_eq!(0xFE00_DC00_BA00_9800, h.board);
}

#[test]
fn small_full_board_ends_without_equal_neighbours() {
    // Cells at most 11, no empty cell, no equal neighbours: the game is over.
    let b = 0x1212_2121_1212_2121u64;
    let mut g = Game { board: b, score: u64::MAX - 720 };
    assert!(g.can_check_end());
    assert!(g.is_end());
    assert_eq!(b, g.board);
    // An equal pair in a column: a move is left.
    let c = 0x1212_2121_1212_1212u64;
    let mut h = Game { board: c, score: 0 };
    assert!(!h.is_end());
}

#[test]
fn small_board_can_be_searched() {
    let g = Game { board: 0xBA98_7654_3210_0000, score: u64::MAX - 720 };
    let mut s = Solver { game: g, max_value: 0 };
    assert!(s.can_search());
    s.next_dir(1);
    assert_eq!(g.board, s.game.board);
    assert_eq!(g.score, s.game.score);
    assert_eq!(0, s.max_value);
}
