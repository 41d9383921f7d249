//! Properties of the game that span several operations.
use vstd::prelude::*;

use crate::board::{
    board_of, cell, cells, empties, empty_cells, from_rows, is_cells, lemma_board_of_cells, lemma_cells_of_board_of,
    lemma_empties_contains, lemma_from_rows_cells, lemma_row_nibbles, nibble, rotate_cells, row_of, transpose_cells,
    unpack,
};
use crate::game::{
    can_move, can_probe, left_board, left_gain, left_row, move_gain, moved, moved_board, probed, rotated, rotated_n,
    row_fits, transposed, turns, Direction, Game,
};
use crate::grid::{
    can_push, can_turn, can_turn_n, cell_points, is_square, lefted, lefts_fit, pushed, score_fits, score_upto, turned,
    turned_n, weighted_eval, weighted_fits, Direction as GridDirection, WEIGHT, best_move, gathered, line_left,
    join_at, move_score, try_order, as_u64s, grid_tiles, lemma_tiles_step, line_fits, tiles_of, can_predict,
    grid_turns,
};
use crate::solver::{after_moves, best_dir, leaf_ready, moves_ok, probe_order, with_tile};
use crate::tally::counted;
use crate::line::{
    lemma_line_below, lemma_full_line, lemma_last_nibble, lemma_nibbles_of_pack, lemma_nonzero_tiles, lemma_pack_unpack,
    lemma_slide_nonneg, merge_at, merges_at, nonzero, pack_row, padded, slid, slide_gain, tile_count, widen,
};
use vstd::arithmetic::power2::{lemma_pow2_unfold, pow2};

verus! {

proof fn lemma_cells_of_transposed(b: u64)
    ensures
        cells(transposed(b)) == transpose_cells(cells(b)),
        is_cells(transpose_cells(cells(b))),
{
    lemma_board_of_cells(b);
    let c = cells(b);
    assert forall|i: int| 0 <= i < 16 implies #[trigger] transpose_cells(c)[i] < 16 by {
        assert(0 <= 4 * (i % 4) + i / 4 < 16);
    }
    lemma_cells_of_board_of(transpose_cells(c));
}

proof fn lemma_cells_of_rotated(b: u64)
    ensures
        cells(rotated(b)) == rotate_cells(cells(b)),
        is_cells(rotate_cells(cells(b))),
{
    lemma_board_of_cells(b);
    let c = cells(b);
    assert forall|i: int| 0 <= i < 16 implies #[trigger] rotate_cells(c)[i] < 16 by {
        assert(0 <= 4 * (3 - i % 4) + i / 4 < 16);
    }
    lemma_cells_of_board_of(rotate_cells(c));
}

/// A board is fixed by its cells: the contracts that state the cells of a
/// result state the result.
pub proof fn law_cells_determine_board(a: u64, b: u64)
    requires
        cells(a) == cells(b),
    ensures
        a == b,
{
    lemma_board_of_cells(a);
    lemma_board_of_cells(b);
}

/// Transposing a board twice gives the board back.
pub proof fn law_transpose_twice(b: u64)
    ensures
        transposed(transposed(b)) == b,
{
    lemma_cells_of_transposed(b);
    lemma_cells_of_transposed(transposed(b));
    let c = cells(b);
    assert forall|i: int| 0 <= i < 16 implies #[trigger] transpose_cells(transpose_cells(c))[i] == c[i] by {
        let j = 4 * (i % 4) + i / 4;
        assert(0 <= j < 16);
        assert(4 * (j % 4) + j / 4 == i);
    }
    assert(transpose_cells(transpose_cells(c)) =~= c);
    lemma_board_of_cells(b);
    lemma_board_of_cells(transposed(transposed(b)));
}

/// Four quarter turns give the board back.
pub proof fn law_four_turns(b: u64)
    ensures
        rotated_n(b, 4) == b,
{
    let b1 = rotated(b);
    let b2 = rotated(b1);
    let b3 = rotated(b2);
    let b4 = rotated(b3);
    reveal_with_fuel(rotated_n, 5);
    assert(rotated_n(b, 4) == b4);
    lemma_cells_of_rotated(b);
    lemma_cells_of_rotated(b1);
    lemma_cells_of_rotated(b2);
    lemma_cells_of_rotated(b3);
    let c = cells(b);
    assert forall|i: int| 0 <= i < 16 implies #[trigger] cells(b4)[i] == c[i] by {
        let i1 = 4 * (3 - i % 4) + i / 4;
        let i2 = 4 * (3 - i1 % 4) + i1 / 4;
        let i3 = 4 * (3 - i2 % 4) + i2 / 4;
        let i4 = 4 * (3 - i3 % 4) + i3 / 4;
        assert(0 <= i1 < 16 && 0 <= i2 < 16 && 0 <= i3 < 16);
        assert(i4 == i);
    }
    assert(cells(b4) =~= c);
    lemma_board_of_cells(b);
    lemma_board_of_cells(b4);
}

/// Turns add up.
pub proof fn law_turns_add(b: u64, m: nat, n: nat)
    ensures
        rotated_n(rotated_n(b, m), n) == rotated_n(b, m + n),
    decreases n,
{
    if n > 0 {
        law_turns_add(b, m, (n - 1) as nat);
    }
}

/// After a move the board is turned back to where it was: the turns made
/// before the move to the left and after it make a whole turn.
pub proof fn law_turn_back(b: u64, dir: Direction)
    ensures
        rotated_n(rotated_n(b, turns(dir)), ((4 - turns(dir)) % 4) as nat) == b,
{
    law_turns_add(b, turns(dir), ((4 - turns(dir)) % 4) as nat);
    if turns(dir) != 0 {
        law_four_turns(b);
    }
}

/// A move to the left is `into_left`: no turn is made.
pub proof fn law_left_move(g: Game)
    requires
        can_move(g, Direction::Left),
    ensures
        moved(g, Direction::Left).board == left_board(g.board),
        moved(g, Direction::Left).score == g.score + left_gain(g.board),
{
}

/// What `set_value` writes, `get_value` reads back, and no other cell
/// changes.
pub proof fn law_read_after_write(before: u64, after: u64, idx: int, num: u64)
    requires
        0 <= idx < 16,
        cells(after) == cells(before).update(idx, num),
    ensures
        cell(after, idx) == num,
        forall|j: int| 0 <= j < 16 && j != idx ==> #[trigger] cell(after, j) == cell(before, j),
{
    assert(cells(after)[idx] == num);
    assert forall|j: int| 0 <= j < 16 && j != idx implies #[trigger] cell(after, j) == cell(before, j) by {
        assert(cells(after)[j] == cells(before)[j]);
    }
}

/// The list of empty cells (whose length `count_empty` gives) holds, in
/// increasing order, exactly the cells whose value is 0.
pub proof fn law_empty_cells(b: u64)
    ensures
        forall|j: int| 0 <= j < 16 ==> (#[trigger] empty_cells(b).contains(j as u32) <==> cell(b, j) == 0),
        forall|k: int| 0 <= k < empty_cells(b).len() ==> #[trigger] empty_cells(b)[k] < 16,
        forall|k: int, m: int| 0 <= k < m < empty_cells(b).len() ==> #[trigger] empty_cells(b)[k] < #[trigger] empty_cells(b)[m],
        empty_cells(b).len() <= 16,
{
    lemma_empties_contains(b, 0, 16);
    assert forall|j: int| 0 <= j < 16 implies (#[trigger] empty_cells(b).contains(j as u32) <==> cell(b, j) == 0) by {
        if empty_cells(b).contains(j as u32) {
            let k = choose|k: int| 0 <= k < empty_cells(b).len() && empty_cells(b)[k] == j as u32;
            assert(cell(b, empty_cells(b)[k] as int) == 0);
        }
    }
}

proof fn lemma_empties_one_filled(b: u64, n: u64, j: int, hi: int)
    requires
        0 <= j < 16,
        0 <= hi <= 16,
        cell(b, j) == 0,
        cell(n, j) != 0,
        forall|i: int| 0 <= i < 16 && i != j ==> #[trigger] cell(n, i) == cell(b, i),
    ensures
        empties(n, 0, hi).len() + (if j < hi { 1int } else { 0int }) == empties(b, 0, hi).len(),
    decreases hi,
{
    if hi > 0 {
        lemma_empties_one_filled(b, n, j, hi - 1);
    }
}

/// Putting a tile into one of the empty cells, as `spawn_tile` does, leaves
/// one empty cell fewer.
pub proof fn law_spawn_one_fewer(before: u64, after: u64, k: int, t: u64)
    requires
        0 <= k < empty_cells(before).len(),
        0 < t < 16,
        cells(after) == cells(before).update(empty_cells(before)[k] as int, t),
    ensures
        empty_cells(after).len() == empty_cells(before).len() - 1,
{
    lemma_empties_contains(before, 0, 16);
    let j = empty_cells(before)[k] as int;
    assert(cells(after)[j] == t);
    assert forall|i: int| 0 <= i < 16 && i != j implies #[trigger] cell(after, i) == cell(before, i) by {
        assert(cells(after)[i] == cells(before)[i]);
    }
    lemma_empties_one_filled(before, after, j, 16);
}

/// No move loses points.
pub proof fn law_moves_never_lose_points(g: Game, dir: Direction)
    requires
        can_move(g, dir),
    ensures
        moved(g, dir).score >= g.score,
{
    let r = rotated_n(g.board, turns(dir));
    lemma_slide_nonneg(unpack(row_of(r, 0)));
    lemma_slide_nonneg(unpack(row_of(r, 1)));
    lemma_slide_nonneg(unpack(row_of(r, 2)));
    lemma_slide_nonneg(unpack(row_of(r, 3)));
}

/// The grid has `n` rows of `n` cells.
pub open spec fn is_square_grid(t: Seq<Seq<u64>>) -> bool {
    forall|i: int| 0 <= i < t.len() ==> #[trigger] t[i].len() == t.len()
}

proof fn lemma_turned_square(t: Seq<Seq<u64>>)
    requires
        is_square_grid(t),
    ensures
        can_turn(t),
        is_square_grid(turned(t)),
        turned(t).len() == t.len(),
        forall|i: int, j: int| 0 <= i < t.len() && 0 <= j < t.len() ==> #[trigger] turned(t)[i][j] == t[t.len() - 1 - j][i],
{
    let n = t.len() as int;
    if n > 1 {
        assert(t[0].len() == n);
    }
}

/// A square grid can always be turned, and four quarter turns give it back.
pub proof fn law_grid_four_turns(t: Seq<Seq<u64>>)
    requires
        is_square_grid(t),
    ensures
        can_turn_n(t, 4),
        turned_n(t, 4) == t,
{
    let t1 = turned(t);
    let t2 = turned(t1);
    let t3 = turned(t2);
    let t4 = turned(t3);
    lemma_turned_square(t);
    lemma_turned_square(t1);
    lemma_turned_square(t2);
    lemma_turned_square(t3);
    reveal_with_fuel(turned_n, 5);
    reveal_with_fuel(can_turn_n, 5);
    let n = t.len() as int;
    assert forall|i: int| 0 <= i < n implies #[trigger] t4[i] =~= t[i] by {
        assert forall|j: int| 0 <= j < n implies t4[i][j] == t[i][j] by {
            assert(t4[i][j] == t3[n - 1 - j][i]);
            assert(t3[n - 1 - j][i] == t2[n - 1 - i][n - 1 - j]);
            assert(t2[n - 1 - i][n - 1 - j] == t1[j][n - 1 - i]);
            assert(t1[j][n - 1 - i] == t[i][j]);
        }
    }
    assert(t4 =~= t);
}

/// On the web grid, a move to the left is `tiles_to_left`: no turn is made.
pub proof fn law_grid_left_move(t: Seq<Seq<u64>>)
    ensures
        pushed(t, GridDirection::Left) == lefted(t),
        can_push(t, GridDirection::Left) == lefts_fit(t),
{
}

/// A move to the left adds no tile to a line that holds one: merges only
/// take tiles away. (A line with no tile is the exception: its first two
/// cells, both empty, merge into a tile of value 1.)
pub proof fn law_move_adds_no_tile(s: Seq<u16>)
    requires
        1 <= nonzero(s).len() <= 4,
    ensures
        tile_count(padded(s)) == nonzero(s).len(),
        tile_count(slid(s)) <= tile_count(padded(s)),
{
    lemma_nonzero_tiles(s);
    let c = nonzero(s).len() as int;
    let p0 = padded(s);
    assert(forall|k: int| 0 <= k < c ==> #[trigger] p0[k] != 0);
    assert(forall|k: int| c <= k < 4 ==> #[trigger] p0[k] == 0);
    assert(p0[0] != 0);
    lemma_slide_nonneg(s);
    let p1 = merge_at(p0, 0);
    let p2 = merge_at(p1, 1);
    let p3 = merge_at(p2, 2);
    assert(p0.len() == 4 && forall|k: int| 0 <= k < 4 ==> #[trigger] p0[k] >= 0);
    assert(tile_count(p1) <= tile_count(p0));
    assert(tile_count(p2) <= tile_count(p1));
    assert(tile_count(p3) <= tile_count(p2));
}

/// The number of empty cells among the first `n` cells of the square, row
/// by row.
pub open spec fn zeros_upto(t: Seq<Seq<u64>>, n: nat) -> int
    decreases n,
{
    if n == 0 {
        0
    } else {
        zeros_upto(t, (n - 1) as nat) + if t[(n - 1) / 4][(n - 1) % 4] == 0 { 1int } else { 0int }
    }
}

proof fn lemma_score_at_least(t: Seq<Seq<u64>>, n: nat)
    requires
        n <= 16,
        is_square(t),
        forall|i: int, j: int| 0 <= i < 4 && 0 <= j < 4 ==> #[trigger] t[i][j] <= 65536,
    ensures
        score_upto(t, n) >= 100 * zeros_upto(t, n),
        zeros_upto(t, n) >= 0,
    decreases n,
{
    if n > 0 {
        lemma_score_at_least(t, (n - 1) as nat);
        let i = (n - 1) / 4;
        let j = (n - 1) % 4;
        let v = t[i][j];
        assert(v <= 65536);
        assert((v as i32) as int == v as int);
        assert(0 <= WEIGHT[i][j]) by {
            assert(0 <= i < 4 && 0 <= j < 4);
            assert(WEIGHT@[i]@[j] == WEIGHT[i][j]);
        }
        let p = cell_points(t, i, j);
        assert(p[1] >= 0) by (nonlinear_arith)
            requires
                p[1] == WEIGHT[i][j] * (v as i32),
                0 <= WEIGHT[i][j],
                (v as i32) as int == v as int,
        ;
    }
}

/// The most that a cell of column `j` adds to the weighted score when no
/// tile exceeds 65536: the bonuses, and the largest weight of the column
/// times 65536.
spec fn cell_cap(j: int) -> int {
    6100 + (if j == 0 {
        0int
    } else if j == 1 {
        1
    } else if j == 2 {
        1200
    } else {
        6400
    }) * 65536
}

/// The most that the first `n` cells add, row by row.
spec fn cap_upto(n: nat) -> int
    decreases n,
{
    if n == 0 {
        0
    } else {
        cap_upto((n - 1) as nat) + cell_cap((n - 1) % 4)
    }
}

proof fn lemma_cap_grows(n: nat, m: nat)
    requires
        n <= m,
    ensures
        cap_upto(n) <= cap_upto(m),
    decreases m,
{
    if n < m {
        lemma_cap_grows(n, (m - 1) as nat);
    }
}

proof fn lemma_cap_total()
    ensures
        cap_upto(16) == 1992654144,
{
    reveal_with_fuel(cap_upto, 17);
}

proof fn lemma_cell_capped(t: Seq<Seq<u64>>, i: int, j: int)
    requires
        0 <= i < 4,
        0 <= j < 4,
        is_square(t),
        t[i][j] <= 65536,
    ensures
        ({
            let p = cell_points(t, i, j);
            &&& 0 <= p[0] && 0 <= p[1] && 0 <= p[2] && 0 <= p[3] && 0 <= p[4]
            &&& p[0] + p[1] + p[2] + p[3] + p[4] <= cell_cap(j)
        }),
{
    let v = t[i][j];
    assert((v as i32) as int == v as int);
    let cw: int = if j == 0 {
        0int
    } else if j == 1 {
        1
    } else if j == 2 {
        1200
    } else {
        6400
    };
    assert(0 <= WEIGHT[i][j] <= cw) by {
        assert(WEIGHT@[i]@[j] == WEIGHT[i][j]);
    }
    let p = cell_points(t, i, j);
    assert(0 <= p[1] <= cw * 65536) by (nonlinear_arith)
        requires
            p[1] == WEIGHT[i][j] * (v as i32),
            0 <= WEIGHT[i][j] <= cw,
            (v as i32) as int == v as int,
            0 <= v <= 65536,
    ;
}

proof fn lemma_score_capped(t: Seq<Seq<u64>>, n: nat)
    requires
        n <= 16,
        is_square(t),
        forall|i: int, j: int| 0 <= i < 4 && 0 <= j < 4 ==> #[trigger] t[i][j] <= 65536,
    ensures
        score_fits(t, n),
        0 <= score_upto(t, n) <= cap_upto(n),
    decreases n,
{
    if n > 0 {
        lemma_score_capped(t, (n - 1) as nat);
        lemma_cap_grows(n, 16);
        lemma_cap_total();
        let i = (n - 1) / 4;
        let j = (n - 1) % 4;
        assert(t[i][j] <= 65536);
        lemma_cell_capped(t, i, j);
    }
}

/// On a square grid whose tiles are no larger than 65536, the weighted
/// score of a move can be computed in `i32`; it is -1 exactly when the move
/// changed nothing, and otherwise at least 100 for every empty cell of the
/// moved grid, and so not negative.
pub proof fn law_eval_unchanged(org: Seq<Seq<u64>>, moved: Seq<Seq<u64>>)
    requires
        is_square(moved),
        forall|i: int, j: int| 0 <= i < 4 && 0 <= j < 4 ==> #[trigger] moved[i][j] <= 65536,
    ensures
        weighted_fits(org, moved),
        (weighted_eval(org, moved) == -1) == (org == moved),
        org != moved ==> weighted_eval(org, moved) >= 100 * zeros_upto(moved, 16) >= 0,
{
    lemma_score_at_least(moved, 16);
    lemma_score_capped(moved, 16);
}

/// What a cell is worth in points of the usual game: 2 to the power of its
/// value, nothing when empty.
pub open spec fn worth(v: int) -> int {
    if v <= 0 { 0 } else { pow2(v as nat) as int }
}

/// What the first four cells of a line are worth together.
pub open spec fn line_worth(p: Seq<int>) -> int {
    worth(p[0]) + worth(p[1]) + worth(p[2]) + worth(p[3])
}

/// The tiles of the first four cells all come before the empty cells.
pub open spec fn is_compact(p: Seq<int>) -> bool {
    forall|j: int, k: int| 0 <= j < k < 4 && #[trigger] p[j] == 0 ==> #[trigger] p[k] == 0
}

proof fn lemma_merge_keeps_worth(p: Seq<int>, k: int)
    requires
        p.len() == 4,
        0 <= k < 3,
        forall|j: int| 0 <= j < 4 ==> #[trigger] p[j] >= 0,
        is_compact(p),
        p[0] != 0,
    ensures
        merge_at(p, k).len() == 4,
        forall|j: int| 0 <= j < 4 ==> #[trigger] merge_at(p, k)[j] >= 0,
        is_compact(merge_at(p, k)),
        merge_at(p, k)[0] != 0,
        line_worth(merge_at(p, k)) == line_worth(p),
{
    let q = merge_at(p, k);
    if merges_at(p, k) {
        let v = p[k + 1];
        assert(v != 0) by {
            if k == 0 {
            } else {
                assert(p[k] != 0);
            }
        }
        assert(worth(v + 1) == 2 * worth(v)) by {
            lemma_pow2_unfold((v + 1) as nat);
        }
        assert(q[k] == v + 1);
        if k == 0 {
            assert(q =~= seq![v + 1, p[2], p[3], 0]);
        } else if k == 1 {
            assert(q =~= seq![p[0], v + 1, p[3], 0]);
        } else {
            assert(q =~= seq![p[0], p[1], v + 1, 0]);
        }
        assert(forall|j: int| 0 <= j < 4 ==> #[trigger] q[j] >= 0);
        assert(is_compact(q));
    }
}

/// Moving a line that holds a tile to the left keeps what its tiles are
/// worth (two tiles of value `v` merge into one of value `v + 1`), and
/// leaves its tiles in front of its empty cells. (A line with no tile is the
/// exception: its first two empty cells merge into a tile of value 1.)
pub proof fn law_move_keeps_worth(s: Seq<u16>)
    requires
        1 <= nonzero(s).len() <= 4,
    ensures
        line_worth(slid(s)) == line_worth(padded(s)),
        is_compact(slid(s)),
        is_compact(padded(s)),
{
    lemma_nonzero_tiles(s);
    let c = nonzero(s).len() as int;
    let p0 = padded(s);
    assert(forall|k: int| 0 <= k < c ==> #[trigger] p0[k] != 0);
    assert(forall|k: int| c <= k < 4 ==> #[trigger] p0[k] == 0);
    assert(forall|j: int| 0 <= j < 4 ==> #[trigger] p0[j] >= 0);
    assert(is_compact(p0));
    let p1 = merge_at(p0, 0);
    let p2 = merge_at(p1, 1);
    lemma_merge_keeps_worth(p0, 0);
    lemma_merge_keeps_worth(p1, 1);
    lemma_merge_keeps_worth(p2, 2);
}

/// No cell of the board is empty.
pub open spec fn is_full(b: u64) -> bool {
    forall|i: int| 0 <= i < 16 ==> #[trigger] cell(b, i) != 0
}

/// The cells `(r, c)` and `(r, c + 1)` hold the same value.
pub open spec fn same_across(b: u64, r: int, c: int) -> bool {
    cell(b, 4 * r + c) == cell(b, 4 * r + c + 1)
}

/// The cells `(r, c)` and `(r + 1, c)` hold the same value.
pub open spec fn same_down(b: u64, r: int, c: int) -> bool {
    cell(b, 4 * r + c) == cell(b, 4 * r + 4 + c)
}

/// No two cells side by side in a row hold the same value.
pub open spec fn no_pair_across(b: u64) -> bool {
    forall|r: int, c: int| 0 <= r < 4 && 0 <= c < 3 ==> !#[trigger] same_across(b, r, c)
}

/// No two cells one above the other in a column hold the same value.
pub open spec fn no_pair_down(b: u64) -> bool {
    forall|r: int, c: int| 0 <= r < 3 && 0 <= c < 4 ==> !#[trigger] same_down(b, r, c)
}

/// Some two neighbouring cells, side by side or one above the other, hold the
/// same value.
pub open spec fn has_equal_neighbours(b: u64) -> bool {
    !no_pair_across(b) || !no_pair_down(b)
}

proof fn lemma_rows_of_board(b: u64)
    ensures
        from_rows(row_of(b, 0), row_of(b, 1), row_of(b, 2), row_of(b, 3)) == b,
{
    let a0 = ((b >> 48u64) & 0xFFFF) as u16;
    let a1 = ((b >> 32u64) & 0xFFFF) as u16;
    let a2 = ((b >> 16u64) & 0xFFFF) as u16;
    let a3 = ((b >> 0u64) & 0xFFFF) as u16;
    assert(((a0 as u64) << 48u64) | ((a1 as u64) << 32u64) | ((a2 as u64) << 16u64) | (a3 as u64) == b) by (bit_vector)
        requires
            a0 == ((b >> 48u64) & 0xFFFF) as u16,
            a1 == ((b >> 32u64) & 0xFFFF) as u16,
            a2 == ((b >> 16u64) & 0xFFFF) as u16,
            a3 == ((b >> 0u64) & 0xFFFF) as u16,
    ;
}

/// Row `r` of the board moved to the left: its last cell, and the row
/// itself when it is full with no equal neighbours.
proof fn lemma_left_row_cells(b: u64, r: int)
    requires
        0 <= r < 4,
    ensures
        ({
            let good = cell(b, 4 * r) != 0 && cell(b, 4 * r + 1) != 0 && cell(b, 4 * r + 2) != 0 && cell(b, 4 * r + 3)
                != 0 && !same_across(b, r, 0) && !same_across(b, r, 1) && !same_across(b, r, 2);
            &&& (nibble(left_row(row_of(b, r)), 3) != 0) == good
            &&& good ==> left_row(row_of(b, r)) == row_of(b, r)
        }),
{
    let row = row_of(b, r);
    let s = unpack(row);
    lemma_row_nibbles(b);
    lemma_pack_unpack(row);
    assert(forall|k: int| 0 <= k < 4 ==> #[trigger] s[k] as int == widen(s)[k]);
    assert(forall|k: int| 0 <= k < 4 ==> #[trigger] s[k] < 16);
    assert(forall|k: int| 0 <= k < 4 ==> #[trigger] s[k] as u64 == cell(b, 4 * r + k)) by {
        assert forall|k: int| 0 <= k < 4 implies #[trigger] s[k] as u64 == cell(b, 4 * r + k) by {
            assert(s[k] == nibble(row, k));
            assert(nibble(row_of(b, r), k) as u64 == cells(b)[4 * r + k]);
        }
    }
    lemma_full_line(s);
    let v = slid(s);
    lemma_last_nibble(v);
    if v[3] != 0 {
        assert(v == widen(s));
    }
}

/// A board moved to the left is full exactly when it was full with no equal
/// neighbours in a row, and then it is the same board.
proof fn lemma_left_full(b: u64)
    ensures
        is_full(left_board(b)) == (is_full(b) && no_pair_across(b)),
        is_full(b) && no_pair_across(b) ==> left_board(b) == b,
{
    let l = left_board(b);
    let l0 = left_row(row_of(b, 0));
    let l1 = left_row(row_of(b, 1));
    let l2 = left_row(row_of(b, 2));
    let l3 = left_row(row_of(b, 3));
    lemma_from_rows_cells(l0, l1, l2, l3);
    lemma_left_row_cells(b, 0);
    lemma_left_row_cells(b, 1);
    lemma_left_row_cells(b, 2);
    lemma_left_row_cells(b, 3);
    assert(cell(l, 3) == nibble(l0, 3) as u64);
    assert(cell(l, 7) == nibble(l1, 3) as u64);
    assert(cell(l, 11) == nibble(l2, 3) as u64);
    assert(cell(l, 15) == nibble(l3, 3) as u64);
    if is_full(b) && no_pair_across(b) {
        assert(forall|r: int| 0 <= r < 4 ==> cell(b, 4 * r) != 0 && cell(b, 4 * r + 1) != 0 && cell(b, 4 * r + 2) != 0
            && #[trigger] cell(b, 4 * r + 3) != 0);
        assert(!same_across(b, 0, 0) && !same_across(b, 0, 1) && !same_across(b, 0, 2));
        assert(!same_across(b, 1, 0) && !same_across(b, 1, 1) && !same_across(b, 1, 2));
        assert(!same_across(b, 2, 0) && !same_across(b, 2, 1) && !same_across(b, 2, 2));
        assert(!same_across(b, 3, 0) && !same_across(b, 3, 1) && !same_across(b, 3, 2));
        lemma_rows_of_board(b);
        assert(l == b);
    } else if is_full(l) {
        assert(cell(l, 3) != 0 && cell(l, 7) != 0 && cell(l, 11) != 0 && cell(l, 15) != 0);
        assert forall|i: int| 0 <= i < 16 implies #[trigger] cell(b, i) != 0 by {
            let r = i / 4;
            assert(0 <= r < 4);
            if r == 0 {
            } else if r == 1 {
            } else if r == 2 {
            } else {
            }
        }
        assert forall|r: int, c: int| 0 <= r < 4 && 0 <= c < 3 implies !#[trigger] same_across(b, r, c) by {
            if r == 0 {
            } else if r == 1 {
            } else if r == 2 {
            } else {
            }
        }
        assert(false);
    }
}

/// Turning the board keeps it full or not, and swaps its equal neighbours in
/// rows with those in columns.
proof fn lemma_rotated_pairs(b: u64)
    ensures
        is_full(rotated(b)) == is_full(b),
        no_pair_across(rotated(b)) == no_pair_down(b),
        no_pair_down(rotated(b)) == no_pair_across(b),
{
    let x = rotated(b);
    lemma_cells_of_rotated(b);
    assert(forall|i: int| 0 <= i < 16 ==> #[trigger] cell(x, i) == cells(x)[i]);
    assert forall|r: int, c: int| 0 <= r < 4 && 0 <= c < 4 implies #[trigger] cell(x, 4 * r + c) == cell(b, 4 * (3 - c) + r) by {
        let i = 4 * r + c;
        assert(i % 4 == c && i / 4 == r);
        assert(cells(x)[i] == rotate_cells(cells(b))[i]);
    }
    if is_full(b) {
        assert forall|i: int| 0 <= i < 16 implies #[trigger] cell(x, i) != 0 by {
            assert(cell(x, 4 * (i / 4) + i % 4) == cell(b, 4 * (3 - i % 4) + i / 4));
        }
    }
    if is_full(x) {
        assert forall|i: int| 0 <= i < 16 implies #[trigger] cell(b, i) != 0 by {
            let a = i / 4;
            let d = i % 4;
            assert(cell(x, 4 * d + (3 - a)) == cell(b, 4 * a + d));
        }
    }
    assert forall|r: int, c: int| 0 <= r < 4 && 0 <= c < 3 implies #[trigger] same_across(x, r, c) == same_down(b, 2 - c, r) by {
        assert(cell(x, 4 * r + c) == cell(b, 4 * (3 - c) + r));
        assert(cell(x, 4 * r + (c + 1)) == cell(b, 4 * (3 - (c + 1)) + r));
    }
    assert forall|r: int, c: int| 0 <= r < 3 && 0 <= c < 4 implies #[trigger] same_down(x, r, c) == same_across(b, 3 - c, r) by {
        assert(cell(x, 4 * r + c) == cell(b, 4 * (3 - c) + r));
        assert(cell(x, 4 * (r + 1) + c) == cell(b, 4 * (3 - c) + r + 1));
    }
    if no_pair_down(b) {
        assert forall|r: int, c: int| 0 <= r < 4 && 0 <= c < 3 implies !#[trigger] same_across(x, r, c) by {
            assert(!same_down(b, 2 - c, r));
        }
    }
    if no_pair_across(x) {
        assert forall|r: int, c: int| 0 <= r < 3 && 0 <= c < 4 implies !#[trigger] same_down(b, r, c) by {
            assert(!same_across(x, c, 2 - r));
        }
    }
    if no_pair_across(b) {
        assert forall|r: int, c: int| 0 <= r < 3 && 0 <= c < 4 implies !#[trigger] same_down(x, r, c) by {
            assert(!same_across(b, 3 - c, r));
        }
    }
    if no_pair_down(x) {
        assert forall|r: int, c: int| 0 <= r < 4 && 0 <= c < 3 implies !#[trigger] same_across(b, r, c) by {
            assert(!same_down(x, c, 3 - r));
        }
    }
}

proof fn lemma_full_turns(b: u64, n: nat)
    ensures
        is_full(rotated_n(b, n)) == is_full(b),
    decreases n,
{
    if n > 0 {
        lemma_full_turns(b, (n - 1) as nat);
        lemma_rotated_pairs(rotated_n(b, (n - 1) as nat));
    }
}

proof fn lemma_turn_pairs(b: u64)
    ensures
        no_pair_across(rotated_n(b, 0)) == no_pair_across(b),
        no_pair_across(rotated_n(b, 1)) == no_pair_down(b),
        no_pair_across(rotated_n(b, 2)) == no_pair_across(b),
        no_pair_across(rotated_n(b, 3)) == no_pair_down(b),
{
    reveal_with_fuel(rotated_n, 4);
    lemma_rotated_pairs(b);
    lemma_rotated_pairs(rotated(b));
    lemma_rotated_pairs(rotated(rotated(b)));
}

/// After a move the board is full exactly when it was full and the move
/// found no equal neighbours to merge; then the move changed nothing.
proof fn lemma_move_full(b: u64, dir: Direction)
    ensures
        is_full(moved_board(b, dir)) == (is_full(b) && no_pair_across(rotated_n(b, turns(dir)))),
        is_full(b) && no_pair_across(rotated_n(b, turns(dir))) ==> moved_board(b, dir) == b,
{
    let k = turns(dir);
    let x = rotated_n(b, k);
    lemma_full_turns(b, k);
    lemma_left_full(x);
    lemma_full_turns(left_board(x), ((4 - k) % 4) as nat);
    if is_full(b) && no_pair_across(x) {
        law_turn_back(b, dir);
    }
}

/// A full board is left as it was by the four moves of `Game::is_end` (down,
/// left, right, up, in turn) exactly when no two neighbouring cells, side by
/// side or one above the other, hold the same value: `is_end` says that the
/// game is over exactly when no move could change the board.
pub proof fn law_end_iff_no_equal_neighbours(g: Game)
    requires
        empty_cells(g.board).len() == 0,
    ensures
        (probed(g).board == g.board) == !has_equal_neighbours(g.board),
{
    let b = g.board;
    law_empty_cells(b);
    assert forall|i: int| 0 <= i < 16 implies #[trigger] cell(b, i) != 0 by {
        if cell(b, i) == 0 {
            assert(empty_cells(b).contains(i as u32));
        }
    }
    lemma_turn_pairs(b);
    let g1 = moved(g, Direction::Down);
    let g2 = moved(g1, Direction::Left);
    let g3 = moved(g2, Direction::Right);
    let g4 = moved(g3, Direction::Up);
    lemma_move_full(b, Direction::Down);
    lemma_move_full(g1.board, Direction::Left);
    lemma_move_full(g2.board, Direction::Right);
    lemma_move_full(g3.board, Direction::Up);
    if no_pair_across(b) && no_pair_down(b) {
        assert(g1.board == b);
        assert(g2.board == b);
        assert(g3.board == b);
        assert(g4.board == b);
    } else {
        if no_pair_down(b) {
            assert(g1.board == b);
            assert(!is_full(g2.board));
        } else {
            assert(!is_full(g1.board));
        }
        assert(!is_full(g4.board));
    }
}

/// The cell `(r, c)` of the turned board is the cell `(3 - c, r)` of the
/// board.
proof fn lemma_rotated_cell(b: u64)
    ensures
        forall|r: int, c: int| 0 <= r < 4 && 0 <= c < 4 ==> #[trigger] cell(rotated(b), 4 * r + c) == cell(b, 4 * (3 - c) + r),
{
    let x = rotated(b);
    lemma_cells_of_rotated(b);
    assert forall|r: int, c: int| 0 <= r < 4 && 0 <= c < 4 implies #[trigger] cell(x, 4 * r + c) == cell(b, 4 * (3 - c) + r) by {
        let i = 4 * r + c;
        assert(i % 4 == c && i / 4 == r);
        assert(cells(x)[i] == rotate_cells(cells(b))[i]);
    }
}

/// The index of cell `j` of line `m` of a move in direction `dir`, the cells
/// counted from the side that the tiles move to: rows for left and right,
/// columns for up and down.
pub open spec fn line_cell(dir: Direction, m: int, j: int) -> int {
    match dir {
        Direction::Left => 4 * m + j,
        Direction::Right => 4 * m + 3 - j,
        Direction::Up => 4 * j + m,
        Direction::Down => 4 * (3 - j) + m,
    }
}

/// Line `m` of a move in direction `dir`, its cells counted from the side
/// that the tiles move to.
pub open spec fn line_of(b: u64, dir: Direction, m: int) -> Seq<u16> {
    Seq::new(4, |j: int| cell(b, line_cell(dir, m, j)) as u16)
}

/// The row of the board turned for a move in direction `dir` that holds
/// line `m`.
pub open spec fn turned_row(dir: Direction, m: int) -> int {
    match dir {
        Direction::Left => m,
        Direction::Down => m,
        Direction::Right => 3 - m,
        Direction::Up => 3 - m,
    }
}

proof fn lemma_turned_lines(z: u64, dir: Direction)
    ensures
        forall|m: int, j: int| 0 <= m < 4 && 0 <= j < 4 ==> #[trigger] cell(rotated_n(z, turns(dir)), 4 * turned_row(dir, m) + j)
            == cell(z, line_cell(dir, m, j)),
{
    reveal_with_fuel(rotated_n, 4);
    let z1 = rotated(z);
    let z2 = rotated(z1);
    let z3 = rotated(z2);
    lemma_rotated_cell(z);
    lemma_rotated_cell(z1);
    lemma_rotated_cell(z2);
    assert forall|m: int, j: int| 0 <= m < 4 && 0 <= j < 4 implies #[trigger] cell(rotated_n(z, turns(dir)), 4 * turned_row(dir, m) + j)
        == cell(z, line_cell(dir, m, j)) by {
        match dir {
            Direction::Left => {},
            Direction::Down => {
                assert(cell(z1, 4 * m + j) == cell(z, 4 * (3 - j) + m));
            },
            Direction::Right => {
                assert(cell(z2, 4 * (3 - m) + j) == cell(z1, 4 * (3 - j) + (3 - m)));
                assert(cell(z1, 4 * (3 - j) + (3 - m)) == cell(z, 4 * m + (3 - j)));
            },
            Direction::Up => {
                assert(cell(z3, 4 * (3 - m) + j) == cell(z2, 4 * (3 - j) + (3 - m)));
                assert(cell(z2, 4 * (3 - j) + (3 - m)) == cell(z1, 4 * m + (3 - j)));
                assert(cell(z1, 4 * m + (3 - j)) == cell(z, 4 * j + m));
            },
        }
    }
}

/// A move in direction `dir` slides each line (a row for left and right, a
/// column for up and down, its cells counted from the side that the tiles
/// move to) as `Game::row2left` slides a line, and scores the points of the
/// four slides; so long as no merge reaches 16.
pub proof fn law_move_by_lines(b: u64, dir: Direction)
    requires
        forall|m: int, j: int| 0 <= m < 4 && 0 <= j < 4 ==> #[trigger] slid(line_of(b, dir, m))[j] < 16,
    ensures
        forall|m: int, j: int| 0 <= m < 4 && 0 <= j < 4 ==> #[trigger] cell(moved_board(b, dir), line_cell(dir, m, j)) as int
            == slid(line_of(b, dir, m))[j],
        move_gain(b, dir) == slide_gain(line_of(b, dir, 0)) + slide_gain(line_of(b, dir, 1)) + slide_gain(line_of(b, dir, 2))
            + slide_gain(line_of(b, dir, 3)),
{
    let k = turns(dir);
    let x = rotated_n(b, k);
    let y = moved_board(b, dir);
    lemma_turned_lines(b, dir);
    lemma_turned_lines(y, dir);
    lemma_row_nibbles(x);
    assert(rotated_n(y, k) == left_board(x)) by {
        law_turns_add(left_board(x), ((4 - k) % 4) as nat, k);
        if k != 0 {
            law_four_turns(left_board(x));
        }
    }
    // Each row of the turned board is a line of the move.
    assert forall|m: int| 0 <= m < 4 implies #[trigger] unpack(row_of(x, turned_row(dir, m))) == line_of(b, dir, m) by {
        let rr = turned_row(dir, m);
        assert forall|j: int| 0 <= j < 4 implies unpack(row_of(x, rr))[j] == line_of(b, dir, m)[j] by {
            assert(nibble(row_of(x, rr), j) as u64 == cells(x)[4 * rr + j]);
            assert(cell(x, 4 * rr + j) == cell(b, line_cell(dir, m, j)));
            lemma_pack_unpack(row_of(x, rr));
            assert(widen(unpack(row_of(x, rr)))[j] < 16);
        }
        assert(unpack(row_of(x, rr)) =~= line_of(b, dir, m));
    }
    let l0 = left_row(row_of(x, 0));
    let l1 = left_row(row_of(x, 1));
    let l2 = left_row(row_of(x, 2));
    let l3 = left_row(row_of(x, 3));
    lemma_from_rows_cells(l0, l1, l2, l3);
    assert forall|m: int, j: int| 0 <= m < 4 && 0 <= j < 4 implies #[trigger] cell(y, line_cell(dir, m, j)) as int
        == slid(line_of(b, dir, m))[j] by {
        let rr = turned_row(dir, m);
        let v = slid(line_of(b, dir, m));
        lemma_slide_nonneg(line_of(b, dir, m));
        assert(forall|q: int| 0 <= q < 4 ==> 0 <= #[trigger] v[q] < 16);
        lemma_nibbles_of_pack(v);
        assert(left_row(row_of(x, rr)) == pack_row(v));
        assert(cell(y, line_cell(dir, m, j)) == cell(left_board(x), 4 * rr + j));
        if rr == 0 {
            assert(cells(left_board(x))[j] == nibble(l0, j) as u64);
        } else if rr == 1 {
            assert(cells(left_board(x))[4 + j] == nibble(l1, j) as u64);
        } else if rr == 2 {
            assert(cells(left_board(x))[8 + j] == nibble(l2, j) as u64);
        } else {
            assert(cells(left_board(x))[12 + j] == nibble(l3, j) as u64);
        }
    }
    assert(unpack(row_of(x, turned_row(dir, 0))) == line_of(b, dir, 0));
    assert(unpack(row_of(x, turned_row(dir, 1))) == line_of(b, dir, 1));
    assert(unpack(row_of(x, turned_row(dir, 2))) == line_of(b, dir, 2));
    assert(unpack(row_of(x, turned_row(dir, 3))) == line_of(b, dir, 3));
    assert(move_gain(b, dir) == left_gain(x));
}

/// Every cell of the board is below `m`.
pub open spec fn cells_below(b: u64, m: int) -> bool {
    forall|i: int| 0 <= i < 16 ==> #[trigger] cell(b, i) < m
}

proof fn lemma_rotated_below(b: u64, m: int)
    requires
        cells_below(b, m),
    ensures
        cells_below(rotated(b), m),
{
    lemma_rotated_cell(b);
    assert forall|i: int| 0 <= i < 16 implies #[trigger] cell(rotated(b), i) < m by {
        let r = i / 4;
        let c = i % 4;
        assert(i == 4 * r + c);
        assert(cell(rotated(b), 4 * r + c) == cell(b, 4 * (3 - c) + r));
    }
}

proof fn lemma_rotated_n_below(b: u64, m: int, n: nat)
    requires
        cells_below(b, m),
    ensures
        cells_below(rotated_n(b, n), m),
    decreases n,
{
    if n > 0 {
        lemma_rotated_n_below(b, m, (n - 1) as nat);
        lemma_rotated_below(rotated_n(b, (n - 1) as nat), m);
    }
}

/// A move on a board whose cells are below `m` (at most 15): every row
/// fits, every line slides within 16, the move scores at most 180 points,
/// and every cell afterwards is below `m + 1`.
proof fn lemma_move_below(b: u64, dir: Direction, m: int)
    requires
        1 <= m <= 15,
        cells_below(b, m),
    ensures
        forall|r: int| 0 <= r < 4 ==> #[trigger] row_fits(row_of(rotated_n(b, turns(dir)), r)),
        forall|q: int, j: int| 0 <= q < 4 && 0 <= j < 4 ==> #[trigger] slid(line_of(b, dir, q))[j] < 16,
        0 <= move_gain(b, dir) <= 180,
        cells_below(moved_board(b, dir), m + 1),
{
    let x = rotated_n(b, turns(dir));
    lemma_rotated_n_below(b, m, turns(dir));
    lemma_row_nibbles(x);
    assert forall|r: int| 0 <= r < 4 implies #[trigger] row_fits(row_of(x, r)) by {
        let s = unpack(row_of(x, r));
        assert forall|k: int| 0 <= k < s.len() implies #[trigger] s[k] < m by {
            assert(nibble(row_of(x, r), k) as u64 == cells(x)[4 * r + k]);
            assert(cell(x, 4 * r + k) < m);
        }
        lemma_line_below(s, m);
    }
    assert forall|q: int, k: int| 0 <= q < 4 && 0 <= k < 4 implies #[trigger] line_of(b, dir, q)[k] < m by {
        assert(0 <= line_cell(dir, q, k) < 16);
        assert(cell(b, line_cell(dir, q, k)) < m);
    }
    assert forall|q: int| 0 <= q < 4 implies 0 <= #[trigger] slide_gain(line_of(b, dir, q)) <= 45 by {
        lemma_line_below(line_of(b, dir, q), m);
    }
    assert forall|q: int, j: int| 0 <= q < 4 && 0 <= j < 4 implies 0 <= #[trigger] slid(line_of(b, dir, q))[j] < m + 1 by {
        lemma_line_below(line_of(b, dir, q), m);
    }
    law_move_by_lines(b, dir);
    let y = moved_board(b, dir);
    assert forall|i: int| 0 <= i < 16 implies #[trigger] cell(y, i) < m + 1 by {
        let (q, j) = match dir {
            Direction::Left => (i / 4, i % 4),
            Direction::Right => (i / 4, 3 - i % 4),
            Direction::Up => (i % 4, i / 4),
            Direction::Down => (i % 4, 3 - i / 4),
        };
        assert(line_cell(dir, q, j) == i);
        assert(cell(y, line_cell(dir, q, j)) as int == slid(line_of(b, dir, q))[j]);
    }
}

/// On a board whose cells are all below `m`, at most 15, a move in any
/// direction can be made when the score has room for 180 more points: no
/// merge reaches 16 and no row scores more than 45. Every line then slides
/// within 16 (so `law_move_by_lines` applies), the move scores at most 180
/// points, and every cell afterwards is below `m + 1`.
pub proof fn law_small_board_moves(g: Game, dir: Direction, m: int)
    requires
        1 <= m <= 15,
        cells_below(g.board, m),
        g.score + 180 <= u64::MAX,
    ensures
        can_move(g, dir),
        forall|q: int, j: int| 0 <= q < 4 && 0 <= j < 4 ==> #[trigger] slid(line_of(g.board, dir, q))[j] < 16,
        g.score <= moved(g, dir).score <= g.score + 180,
        cells_below(moved(g, dir).board, m + 1),
{
    lemma_move_below(g.board, dir, m);
}

/// On a board whose cells are all below 15, with room in the score for 180
/// more points, every row can be moved to the left (`Game::into_left` can
/// run).
pub proof fn law_small_board_into_left(g: Game)
    requires
        cells_below(g.board, 15),
        g.score + 180 <= u64::MAX,
    ensures
        forall|r: int| 0 <= r < 4 ==> #[trigger] row_fits(row_of(g.board, r)),
        g.score + left_gain(g.board) <= u64::MAX,
{
    lemma_move_below(g.board, Direction::Left, 15);
    assert(rotated_n(g.board, 0) == g.board);
}

/// On a board whose cells are all below 12, with room in the score for 720
/// more points, the four moves that `Game::is_end` tries can all be made;
/// on such a board with no empty cell, those moves change nothing exactly
/// when no two neighbouring cells are equal.
pub proof fn law_small_board_probes(g: Game)
    requires
        cells_below(g.board, 12),
        g.score + 720 <= u64::MAX,
    ensures
        can_probe(g),
        empty_cells(g.board).len() == 0 ==> ((probed(g).board == g.board) == !has_equal_neighbours(g.board)),
{
    let g1 = moved(g, Direction::Down);
    let g2 = moved(g1, Direction::Left);
    let g3 = moved(g2, Direction::Right);
    law_small_board_moves(g, Direction::Down, 12);
    law_small_board_moves(g1, Direction::Left, 13);
    law_small_board_moves(g2, Direction::Right, 14);
    law_small_board_moves(g3, Direction::Up, 15);
    if empty_cells(g.board).len() == 0 {
        law_end_iff_no_equal_neighbours(g);
    }
}

/// The four moves of the search can be played in turn from a game whose
/// cells are below 12 with room for 720 more points.
proof fn lemma_small_moves_ok(h: Game)
    requires
        cells_below(h.board, 12),
        h.score + 720 <= u64::MAX,
    ensures
        moves_ok(h),
{
    let h1 = moved(h, probe_order()[0]);
    let h2 = moved(h1, probe_order()[1]);
    let h3 = moved(h2, probe_order()[2]);
    law_small_board_moves(h, probe_order()[0], 12);
    law_small_board_moves(h1, probe_order()[1], 13);
    law_small_board_moves(h2, probe_order()[2], 14);
    law_small_board_moves(h3, probe_order()[3], 15);
    reveal_with_fuel(after_moves, 4);
    assert(after_moves(h, 1) == h1);
    assert(after_moves(h, 2) == h2);
    assert(after_moves(h, 3) == h3);
    assert forall|n: nat| n < 4 implies #[trigger] can_move(after_moves(h, n), probe_order()[n as int]) by {
        if n == 0 {
        } else if n == 1 {
        } else if n == 2 {
        } else {
        }
    }
}

/// On a board whose cells are all below 12, with room in the score for 720
/// more points, the last level of the search can be played with a tile of 1
/// or 2 in any of the cells `pos`: `Solver::dfs` can run at its last level
/// over `pos`, and `Solver::next_dir` (which searches the empty cells) can
/// run.
pub proof fn law_small_board_searches(g: Game, pos: Seq<u32>)
    requires
        cells_below(g.board, 12),
        g.score + 720 <= u64::MAX,
        forall|k: int| 0 <= k < pos.len() ==> #[trigger] pos[k] < 16,
    ensures
        leaf_ready(g, pos),
        leaf_ready(g, empty_cells(g.board)),
{
    lemma_board_of_cells(g.board);
    assert forall|p: int, t: u64| 0 <= p < 16 && 1 <= t <= 2 implies #[trigger] moves_ok(with_tile(g, p, t)) by {
        let c = cells(g.board).update(p, t);
        assert(is_cells(c));
        lemma_cells_of_board_of(c);
        let h = with_tile(g, p, t);
        assert forall|i: int| 0 <= i < 16 implies #[trigger] cell(h.board, i) < 12 by {
            assert(cells(h.board)[i] == c[i]);
            if i != p {
                assert(cells(g.board)[i] == cell(g.board, i));
            }
        }
        lemma_small_moves_ok(h);
    }
    assert forall|k: int| 0 <= k < pos.len() implies #[trigger] pos[k] < 16 && moves_ok(with_tile(g, pos[k] as int, 1))
        && moves_ok(with_tile(g, pos[k] as int, 2)) by {
        assert(moves_ok(with_tile(g, pos[k] as int, 1)));
        assert(moves_ok(with_tile(g, pos[k] as int, 2)));
    }
    law_empty_cells(g.board);
    let e = empty_cells(g.board);
    assert forall|k: int| 0 <= k < e.len() implies #[trigger] e[k] < 16 && moves_ok(with_tile(g, e[k] as int, 1))
        && moves_ok(with_tile(g, e[k] as int, 2)) by {
        assert(moves_ok(with_tile(g, e[k] as int, 1)));
        assert(moves_ok(with_tile(g, e[k] as int, 2)));
    }
}

/// `v` is empty, one tile of the compacted line `p`, or two equal
/// neighbouring tiles of `p` joined into one.
pub open spec fn one_or_two_tiles(v: int, p: Seq<int>) -> bool {
    ||| v == 0
    ||| v == p[0] || v == p[1] || v == p[2] || v == p[3]
    ||| p[0] == p[1] && v == 2 * p[0]
    ||| p[1] == p[2] && v == 2 * p[1]
    ||| p[2] == p[3] && v == 2 * p[2]
}

/// A move to the left on the web grid keeps the total of a line's tiles,
/// and every cell afterwards is empty, a tile of the line, or two equal
/// neighbouring tiles joined: a tile made by a join does not join again in
/// the same move. The first cell is the first tile, doubled exactly when the
/// second tile equals it; so a line `[a, a, b, 0]` with `b != a` becomes
/// `[2a, b, 0, 0]`.
pub proof fn law_line_joins_once(s: Seq<u64>)
    ensures
        line_left(s).len() == 4,
        line_left(s)[0] + line_left(s)[1] + line_left(s)[2] + line_left(s)[3] == gathered(s)[0] + gathered(s)[1]
            + gathered(s)[2] + gathered(s)[3],
        forall|j: int| 0 <= j < 4 ==> #[trigger] one_or_two_tiles(line_left(s)[j], gathered(s)),
        line_left(s)[0] == (if gathered(s)[0] == gathered(s)[1] { 2 * gathered(s)[0] } else { gathered(s)[0] }),
        forall|a: int, b: int|
            gathered(s) == seq![a, a, b, 0] && b != a ==> #[trigger] line_left(s) == seq![2 * a, b, 0int, 0int],
{
    let p0 = gathered(s);
    let p1 = join_at(p0, 0);
    let p2 = join_at(p1, 1);
    let p3 = join_at(p2, 2);
    assert(p0.len() == 4);
    assert(p1.len() == 4 && p2.len() == 4 && p3.len() == 4);
    assert(p1[0] + p1[1] + p1[2] + p1[3] == p0[0] + p0[1] + p0[2] + p0[3]);
    assert(p2[0] + p2[1] + p2[2] + p2[3] == p0[0] + p0[1] + p0[2] + p0[3]);
    assert(p3[0] + p3[1] + p3[2] + p3[3] == p0[0] + p0[1] + p0[2] + p0[3]);
    assert(forall|j: int| 0 <= j < 4 ==> #[trigger] one_or_two_tiles(p1[j], p0));
    assert(forall|j: int| 0 <= j < 4 ==> #[trigger] one_or_two_tiles(p2[j], p0));
    assert(forall|j: int| 0 <= j < 4 ==> #[trigger] one_or_two_tiles(p3[j], p0));
    assert forall|a: int, b: int| gathered(s) == seq![a, a, b, 0] && b != a implies #[trigger] line_left(s)
        == seq![2 * a, b, 0int, 0int] by {
        assert(p0[0] == a && p0[1] == a && p0[2] == b && p0[3] == 0);
        assert(p3 =~= seq![2 * a, b, 0int, 0int]);
    }
}

/// The best score and direction of the web player: the score never falls
/// below -1, and when it is above -1 the direction chosen changes the grid:
/// a move that leaves the grid as it is never wins.
pub proof fn law_best_move_changes_grid(t: Seq<Seq<u64>>, n: nat)
    requires
        n <= 4,
    ensures
        best_move(t, n).0 >= -1,
        best_move(t, n).0 != -1 ==> pushed(t, best_move(t, n).1) != t,
        best_move(t, n).0 != -1 ==> move_score(t, pushed(t, best_move(t, n).1)) == best_move(t, n).0,
    decreases n,
{
    if n > 0 {
        law_best_move_changes_grid(t, (n - 1) as nat);
    }
}

/// The place of a direction in the order in which the search tries them.
pub open spec fn probe_index(d: Direction) -> int {
    match d {
        Direction::Right => 0,
        Direction::Left => 1,
        Direction::Up => 2,
        Direction::Down => 3,
    }
}

/// The search picks, among four scores given in the order right, left, up,
/// down, one with the highest score, and the first of them: when some score
/// is positive, the score of the direction picked is at least every score
/// and above every score before it. When no score is positive it picks
/// down.
pub proof fn law_best_dir_is_first_highest(scores: Seq<u64>)
    requires
        scores.len() == 4,
    ensures
        probe_order()[probe_index(best_dir(scores))] == best_dir(scores),
        (exists|k: int| 0 <= k < 4 && #[trigger] scores[k] > 0) ==> {
            let i = probe_index(best_dir(scores));
            &&& scores[i] > 0
            &&& forall|j: int| 0 <= j < 4 ==> #[trigger] scores[j] <= scores[i]
            &&& forall|j: int| 0 <= j < i ==> #[trigger] scores[j] < scores[i]
        },
        (forall|k: int| 0 <= k < 4 ==> #[trigger] scores[k] == 0) ==> best_dir(scores) == Direction::Down,
{
}

/// Counting a game raises the count of its highest tile by exactly one (a
/// tile seen for the first time gets 1) and leaves every other count as it
/// was.
pub proof fn law_count_adds_one<K>(res: Map<K, u32>, key: K)
    requires
        res.contains_key(key) ==> res[key] < u32::MAX,
    ensures
        counted(res, key).contains_key(key),
        counted(res, key)[key] == (if res.contains_key(key) { res[key] + 1 } else { 1 }),
        counted(res, key).dom() == res.dom().insert(key),
        forall|k: K| k != key && #[trigger] res.contains_key(k) ==> counted(res, key)[k] == res[k],
{
}

/// The tally after `n` games, each with highest tile `key`.
pub open spec fn counted_times<K>(res: Map<K, u32>, key: K, n: nat) -> Map<K, u32>
    decreases n,
{
    if n == 0 {
        res
    } else {
        counted(counted_times(res, key, (n - 1) as nat), key)
    }
}

/// After `n` games with the same highest tile, counted from an empty
/// tally, that tile's count is `n`.
pub proof fn law_count_n_times<K>(key: K, n: nat)
    requires
        n <= u32::MAX,
    ensures
        n > 0 ==> counted_times(Map::<K, u32>::empty(), key, n).contains_key(key),
        n > 0 ==> counted_times(Map::<K, u32>::empty(), key, n)[key] == n,
        n == 0 ==> !counted_times(Map::<K, u32>::empty(), key, n).contains_key(key),
    decreases n,
{
    if n > 0 {
        law_count_n_times(key, (n - 1) as nat);
        law_count_adds_one(counted_times(Map::<K, u32>::empty(), key, (n - 1) as nat), key);
    }
}

/// The grid has four rows of four cells, as the page's grid does.
pub open spec fn four_by_four(t: Seq<Seq<u64>>) -> bool {
    t.len() == 4 && forall|i: int| 0 <= i < 4 ==> #[trigger] t[i].len() == 4
}

/// One for a tile, zero for an empty cell.
pub open spec fn is_tile(v: u64) -> int {
    if v != 0 { 1 } else { 0 }
}

/// The number of tiles among the four cells of a row.
pub open spec fn row_tiles(r: Seq<u64>) -> int {
    is_tile(r[0]) + is_tile(r[1]) + is_tile(r[2]) + is_tile(r[3])
}

/// The number of tiles among the sixteen cells of a four by four grid.
pub open spec fn square_tiles(t: Seq<Seq<u64>>) -> int {
    row_tiles(t[0]) + row_tiles(t[1]) + row_tiles(t[2]) + row_tiles(t[3])
}

proof fn lemma_row_tiles(r: Seq<u64>)
    requires
        r.len() == 4,
    ensures
        tiles_of(r).len() == row_tiles(r),
{
    assert(r.take(0) =~= Seq::<u64>::empty());
    assert(tiles_of(Seq::<u64>::empty()) =~= Seq::<u64>::empty()) by {
        reveal(Seq::filter);
    }
    lemma_tiles_step(r, 0);
    lemma_tiles_step(r, 1);
    lemma_tiles_step(r, 2);
    lemma_tiles_step(r, 3);
    assert(r.take(4) =~= r);
}

proof fn lemma_square_tiles(t: Seq<Seq<u64>>)
    requires
        four_by_four(t),
    ensures
        grid_tiles(t) == square_tiles(t),
{
    let t3 = t.drop_last();
    let t2 = t3.drop_last();
    let t1 = t2.drop_last();
    let t0 = t1.drop_last();
    assert(t.last() == t[3] && t3.last() == t[2] && t2.last() == t[1] && t1.last() == t[0]);
    assert(t0.len() == 0);
    assert(grid_tiles(t0) == 0);
    assert(grid_tiles(t1) == grid_tiles(t0) + tiles_of(t[0]).len());
    assert(grid_tiles(t2) == grid_tiles(t1) + tiles_of(t[1]).len());
    assert(grid_tiles(t3) == grid_tiles(t2) + tiles_of(t[2]).len());
    assert(grid_tiles(t) == grid_tiles(t3) + tiles_of(t[3]).len());
    lemma_row_tiles(t[0]);
    lemma_row_tiles(t[1]);
    lemma_row_tiles(t[2]);
    lemma_row_tiles(t[3]);
}

proof fn lemma_turned_row(t: Seq<Seq<u64>>, i: int)
    requires
        four_by_four(t),
        0 <= i < 4,
    ensures
        turned(t)[i].len() == 4,
        row_tiles(turned(t)[i]) == is_tile(t[3][i]) + is_tile(t[2][i]) + is_tile(t[1][i]) + is_tile(t[0][i]),
{
    let r = turned(t)[i];
    assert(t[3 - i].len() == 4);
    assert(r.len() == 4);
    assert(r[0] == t[3][i] && r[1] == t[2][i] && r[2] == t[1][i] && r[3] == t[0][i]);
}

proof fn lemma_turned_tiles(t: Seq<Seq<u64>>)
    requires
        four_by_four(t),
    ensures
        four_by_four(turned(t)),
        can_turn(t),
        square_tiles(turned(t)) == square_tiles(t),
{
    lemma_turned_row(t, 0);
    lemma_turned_row(t, 1);
    lemma_turned_row(t, 2);
    lemma_turned_row(t, 3);
    assert(t[1].len() == 4 && t[2].len() == 4 && t[3].len() == 4);
    assert(turned(t).len() == 4);
    assert forall|i: int| 0 <= i < 4 implies #[trigger] turned(t)[i].len() == 4 by {
        lemma_turned_row(t, i);
    }
}

proof fn lemma_turned_n_tiles(t: Seq<Seq<u64>>, k: nat)
    requires
        four_by_four(t),
    ensures
        four_by_four(turned_n(t, k)),
        square_tiles(turned_n(t, k)) == square_tiles(t),
    decreases k,
{
    if k > 0 {
        lemma_turned_tiles(t);
        lemma_turned_n_tiles(turned(t), (k - 1) as nat);
    }
}

/// The number of nonzero values among the first four of `p`.
spec fn nonzero_of(p: Seq<int>) -> int {
    (if p[0] != 0 { 1int } else { 0 }) + (if p[1] != 0 { 1int } else { 0 }) + (if p[2] != 0 { 1int } else { 0 }) + (
    if p[3] != 0 { 1int } else { 0 })
}

proof fn lemma_line_left_tiles(r: Seq<u64>)
    requires
        r.len() == 4,
        line_fits(r),
    ensures
        row_tiles(as_u64s(line_left(r))) <= row_tiles(r),
{
    let f = tiles_of(r);
    let pred = |x: u64| x != 0;
    r.lemma_filter_len(pred);
    assert forall|k: int| 0 <= k < f.len() implies #[trigger] f[k] != 0 by {
        r.lemma_filter_pred(pred, k);
    }
    lemma_row_tiles(r);
    let p0 = gathered(r);
    assert(nonzero_of(p0) == f.len());
    let p1 = join_at(p0, 0);
    let p2 = join_at(p1, 1);
    let p3 = join_at(p2, 2);
    assert(nonzero_of(p1) <= nonzero_of(p0));
    assert(nonzero_of(p2) <= nonzero_of(p1));
    assert(nonzero_of(p3) <= nonzero_of(p2));
    assert(forall|k: int| 0 <= k < 4 ==> 0 <= #[trigger] p0[k] <= u64::MAX);
    assert(p3 == line_left(r));
    assert(forall|k: int| 0 <= k < 4 ==> 0 <= #[trigger] p3[k] <= u64::MAX);
    let q = as_u64s(p3);
    assert(forall|k: int| 0 <= k < 4 ==> (#[trigger] q[k] != 0) == (p3[k] != 0));
}

proof fn lemma_lefted_tiles(u: Seq<Seq<u64>>)
    requires
        four_by_four(u),
        lefts_fit(u),
    ensures
        four_by_four(lefted(u)),
        square_tiles(lefted(u)) <= square_tiles(u),
{
    lemma_line_left_tiles(u[0]);
    lemma_line_left_tiles(u[1]);
    lemma_line_left_tiles(u[2]);
    lemma_line_left_tiles(u[3]);
}

/// A move on a four by four grid never adds a tile: when it changes the
/// grid, its score, the number of tiles that merged, is not negative.
pub proof fn law_move_adds_no_grid_tile(t: Seq<Seq<u64>>, dir: GridDirection)
    requires
        four_by_four(t),
        can_push(t, dir),
    ensures
        four_by_four(pushed(t, dir)),
        grid_tiles(pushed(t, dir)) <= grid_tiles(t),
        pushed(t, dir) != t ==> move_score(t, pushed(t, dir)) >= 0,
{
    let a = turned_n(t, grid_turns(dir));
    lemma_turned_n_tiles(t, grid_turns(dir));
    lemma_lefted_tiles(a);
    lemma_turned_n_tiles(lefted(a), ((4 - grid_turns(dir)) % 4) as nat);
    lemma_square_tiles(t);
    lemma_square_tiles(pushed(t, dir));
}

proof fn lemma_best_move_at_least(t: Seq<Seq<u64>>, n: nat, j: int)
    requires
        n <= 4,
        0 <= j < n,
    ensures
        best_move(t, n).0 >= move_score(t, pushed(t, try_order()[j])),
    decreases n,
{
    if j < n - 1 {
        lemma_best_move_at_least(t, (n - 1) as nat, j);
    }
}

/// On the page's four by four grid, when some move changes the grid, the
/// web player's best move scores at least 0 and changes the grid: `predict`
/// then returns a direction in which the tiles move.
pub proof fn law_predict_changes_grid(t: Seq<Seq<u64>>)
    requires
        four_by_four(t),
        can_predict(t),
        exists|k: int| 0 <= k < 4 && pushed(t, #[trigger] try_order()[k]) != t,
    ensures
        best_move(t, 4).0 >= 0,
        pushed(t, best_move(t, 4).1) != t,
{
    let k = choose|k: int| 0 <= k < 4 && pushed(t, #[trigger] try_order()[k]) != t;
    assert(can_push(t, try_order()[k]));
    law_move_adds_no_grid_tile(t, try_order()[k]);
    lemma_best_move_at_least(t, 4, k);
    law_best_move_changes_grid(t, 4);
}

} // verus!
