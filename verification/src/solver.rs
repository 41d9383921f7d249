//! A search for the next move: each possible next tile is tried on the
//! board and the four moves are played after it.
use vstd::prelude::*;

use crate::board::{board_of, cells, empty_cells, lemma_board_of_cells, lemma_empties_contains};
use crate::game::{can_move, moved, Direction, Game};

verus! {

/// The order in which the search tries the four directions.
pub open spec fn probe_order() -> Seq<Direction> {
    seq![Direction::Right, Direction::Left, Direction::Up, Direction::Down]
}

/// The game after the first `n` moves of `probe_order`, made in turn.
pub open spec fn after_moves(g: Game, n: nat) -> Game
    decreases n,
{
    if n == 0 { g } else { moved(after_moves(g, (n - 1) as nat), probe_order()[n - 1]) }
}

/// All four moves of `probe_order` can be made in turn.
pub open spec fn moves_ok(g: Game) -> bool {
    forall|n: nat| n < 4 ==> #[trigger] can_move(after_moves(g, n), probe_order()[n as int])
}

/// The game with tile `t` put into cell `k`.
pub open spec fn with_tile(g: Game, k: int, t: u64) -> Game {
    Game { board: board_of(cells(g.board).update(k, t)), score: g.score }
}

/// The running result after the first `n` moves played on `g`: the score
/// after each move replaces it when that score is positive.
pub open spec fn probe_result(ret: u64, g: Game, n: nat) -> u64
    decreases n,
{
    if n == 0 {
        ret
    } else {
        let r = probe_result(ret, g, (n - 1) as nat);
        let s = after_moves(g, n).score;
        if 0 < s { s } else { r }
    }
}

/// The result of the last search level over the first `n` positions, with
/// `tiles[k]` put into cell `pos[k]`.
pub open spec fn leaf_value(org: Game, pos: Seq<u32>, tiles: Seq<u64>, n: nat) -> u64
    decreases n,
{
    if n == 0 {
        0
    } else {
        let k = n - 1;
        probe_result(leaf_value(org, pos, tiles, (n - 1) as nat), with_tile(org, pos[k] as int, tiles[k]), 4)
    }
}

/// The last search level can be played with any tile in any of the cells
/// `pos`.
pub open spec fn leaf_ready(org: Game, pos: Seq<u32>) -> bool {
    forall|k: int| 0 <= k < pos.len() ==> #[trigger] pos[k] < 16 && moves_ok(with_tile(org, pos[k] as int, 1))
        && moves_ok(with_tile(org, pos[k] as int, 2))
}

/// The search from `org` over `pos` to depth `depth` can be made; every
/// level below the first searches `game` over its empty cells.
pub open spec fn dfs_ready(game: Game, org: Game, pos: Seq<u32>, depth: u32) -> bool {
    if depth == 0 { leaf_ready(org, pos) } else { leaf_ready(game, empty_cells(game.board)) }
}

/// The larger of two values, the first kept on a tie.
pub open spec fn larger(x: u64, y: u64) -> u64 {
    if x < y { y } else { x }
}

/// `r` is a result that the search can give: at the last level, for some
/// draw of tiles (each 1 or 2); above it, the largest of the results of the
/// four searches one level down, each from `game` over its empty cells.
pub open spec fn dfs_outcome(game: Game, org: Game, pos: Seq<u32>, depth: u32, r: u64) -> bool
    decreases depth,
{
    if depth == 0 {
        exists|tiles: Seq<u64>|
            tiles.len() == pos.len() && (forall|k: int| 0 <= k < tiles.len() ==> #[trigger] tiles[k] == 1 || tiles[k] == 2)
                && r == #[trigger] leaf_value(org, pos, tiles, pos.len())
    } else {
        exists|a: u64, b: u64, c: u64, d: u64|
            #![trigger larger(larger(larger(larger(0, a), b), c), d)]
            dfs_outcome(game, game, empty_cells(game.board), (depth - 1) as u32, a)
                && dfs_outcome(game, game, empty_cells(game.board), (depth - 1) as u32, b)
                && dfs_outcome(game, game, empty_cells(game.board), (depth - 1) as u32, c)
                && dfs_outcome(game, game, empty_cells(game.board), (depth - 1) as u32, d)
                && r == larger(larger(larger(larger(0, a), b), c), d)
    }
}

/// The direction whose score is the first strictly largest positive one,
/// scores given in `probe_order`; down when no score is positive.
pub open spec fn best_dir(scores: Seq<u64>) -> Direction {
    let d0 = if 0 < scores[0] { Direction::Right } else { Direction::Down };
    let t0 = larger(0, scores[0]);
    let d1 = if t0 < scores[1] { Direction::Left } else { d0 };
    let t1 = larger(t0, scores[1]);
    let d2 = if t1 < scores[2] { Direction::Up } else { d1 };
    let t2 = larger(t1, scores[2]);
    if t2 < scores[3] { Direction::Down } else { d2 }
}

/// A search over a game.
#[derive(Clone, Copy)]
pub struct Solver {
    pub game: Game,
    pub max_value: u64,
}

impl Solver {
    /// Plays the four moves of `probe_order` in turn on `g`, starting from
    /// the result `ret`; each positive score after a move replaces it.
    fn probe(ret: u64, g: Game) -> (r: u64)
        requires
            moves_ok(g),
        ensures
            r == probe_result(ret, g, 4),
    {
        let mut ret = ret;
        let mut board_pos = g;
        let dirs = Direction::iterator();
        let ghost r0 = ret;
        let mut i: usize = 0;
        while i < 4
            invariant
                i <= 4,
                dirs@ == probe_order(),
                moves_ok(g),
                board_pos == after_moves(g, i as nat),
                ret == probe_result(r0, g, i as nat),
            decreases 4 - i,
        {
            assert(can_move(after_moves(g, i as nat), probe_order()[i as int]));
            board_pos.move_to(dirs[i]);
            let tmp = board_pos.score;
            if 0 < tmp {
                ret = tmp;
            }
            i += 1;
        }
        ret
    }

    /// The last level of the search: for each cell `pos[k]`, the tile
    /// `tiles[k]` is put into it and the four moves are played in turn
    /// (see `probe`); the result runs on from cell to cell.
    pub fn leaf_score(board_org: Game, pos: &Vec<u32>, tiles: &Vec<u64>) -> (r: u64)
        requires
            tiles.len() == pos.len(),
            forall|k: int| 0 <= k < pos.len() ==> #[trigger] pos[k] < 16 && tiles[k] < 16
                && moves_ok(with_tile(board_org, pos[k] as int, tiles[k])),
        ensures
            r == leaf_value(board_org, pos@, tiles@, pos.len() as nat),
    {
        let mut ret: u64 = 0;
        let mut i: usize = 0;
        while i < pos.len()
            invariant
                i <= pos.len(),
                tiles.len() == pos.len(),
                forall|k: int| 0 <= k < pos.len() ==> #[trigger] pos[k] < 16 && tiles[k] < 16
                    && moves_ok(with_tile(board_org, pos[k] as int, tiles[k])),
                ret == leaf_value(board_org, pos@, tiles@, i as nat),
            decreases pos.len() - i,
        {
            let mut board_trg = board_org;
            board_trg.set_value(pos[i] as usize, tiles[i]);
            proof {
                lemma_board_of_cells(board_trg.board);
                assert(board_trg == with_tile(board_org, pos[i as int] as int, tiles[i as int]));
            }
            ret = Self::probe(ret, board_trg);
            i += 1;
        }
        ret
    }

    /// Searches `depth` levels deep and returns the best score found. At the
    /// last level each cell of `pos` gets a random tile and the four moves
    /// are played on it (see `leaf_score`); above it the search goes one
    /// level down once per direction, each time from `self.game` over its
    /// empty cells, and keeps the largest result.
    pub fn dfs(&mut self, board_org: Game, dir: Direction, pos: Vec<u32>, depth: u32) -> (r: u64)
        requires
            dfs_ready(old(self).game, board_org, pos@, depth),
        ensures
            *final(self) == *old(self),
            dfs_outcome(old(self).game, board_org, pos@, depth, r),
        decreases depth,
    {
        if depth == 0 {
            let mut tiles: Vec<u64> = Vec::new();
            let mut i: usize = 0;
            while i < pos.len()
                invariant
                    i <= pos.len(),
                    tiles.len() == i,
                    forall|k: int| 0 <= k < i ==> #[trigger] tiles[k] == 1 || tiles[k] == 2,
                decreases pos.len() - i,
            {
                tiles.push(board_org.tile());
                i += 1;
            }
            let r = Self::leaf_score(board_org, &pos, &tiles);
            assert(tiles@.len() == pos@.len() && forall|k: int| 0 <= k < tiles@.len() ==> #[trigger] tiles@[k] == 1 || tiles@[k] == 2);
            assert(r == leaf_value(board_org, pos@, tiles@, pos@.len()));
            return r;
        } else {
            let d = depth - 1;
            let dirs = Direction::iterator();
            let mut ret: u64 = 0;
            let mut found: Vec<u64> = Vec::new();
            let mut i: usize = 0;
            while i < 4
                invariant
                    i <= 4,
                    d < depth,
                    d == depth - 1,
                    found.len() == i,
                    *self == *old(self),
                    dfs_ready(self.game, self.game, empty_cells(self.game.board), d),
                    forall|k: int| 0 <= k < i ==> #[trigger] dfs_outcome(self.game, self.game, empty_cells(self.game.board), d, found[k]),
                    i == 0 ==> ret == 0,
                    i == 1 ==> ret == larger(0, found[0]),
                    i == 2 ==> ret == larger(larger(0, found[0]), found[1]),
                    i == 3 ==> ret == larger(larger(larger(0, found[0]), found[1]), found[2]),
                    i == 4 ==> ret == larger(larger(larger(larger(0, found[0]), found[1]), found[2]), found[3]),
                decreases 4 - i,
            {
                let game = self.game;
                let score = self.dfs(game, dirs[i], game.empty_tile_idx(), d);
                found.push(score);
                if ret < score {
                    ret = score;
                }
                i += 1;
            }
            proof {
                let g = self.game;
                let e = empty_cells(g.board);
                assert((depth - 1) as u32 == d);
                assert(dfs_outcome(g, g, e, (depth - 1) as u32, found[0]));
                assert(dfs_outcome(g, g, e, (depth - 1) as u32, found[1]));
                assert(dfs_outcome(g, g, e, (depth - 1) as u32, found[2]));
                assert(dfs_outcome(g, g, e, (depth - 1) as u32, found[3]));
            }
            return ret;
        }
    }

    /// The direction to move in, given the score of each direction in the
    /// order of `probe_order`: the first with a strictly larger positive
    /// score than those before it, down when none is positive.
    pub fn choose_dir(scores: &Vec<u64>) -> (d: Direction)
        requires
            scores.len() == 4,
        ensures
            d == best_dir(scores@),
    {
        let dirs = Direction::iterator();
        let mut ret_dir = Direction::Down;
        let mut tmp: u64 = 0;
        let mut i: usize = 0;
        while i < 4
            invariant
                i <= 4,
                scores.len() == 4,
                dirs@ == probe_order(),
                i == 0 ==> tmp == 0 && ret_dir == Direction::Down,
                i == 1 ==> tmp == larger(0, scores[0]) && ret_dir == (if 0 < scores[0] { Direction::Right } else { Direction::Down }),
                i == 2 ==> tmp == larger(larger(0, scores[0]), scores[1]),
                i == 2 ==> ret_dir == (if larger(0, scores[0]) < scores[1] { Direction::Left } else if 0 < scores[0] { Direction::Right } else { Direction::Down }),
                i == 3 ==> tmp == larger(larger(larger(0, scores[0]), scores[1]), scores[2]),
                i == 3 ==> ret_dir == (if larger(larger(0, scores[0]), scores[1]) < scores[2] { Direction::Up } else if larger(0, scores[0]) < scores[1] { Direction::Left } else if 0 < scores[0] { Direction::Right } else { Direction::Down }),
                i == 4 ==> ret_dir == best_dir(scores@),
            decreases 4 - i,
        {
            let score = scores[i];
            if tmp < score {
                tmp = score;
                ret_dir = dirs[i];
            }
            i += 1;
        }
        ret_dir
    }

    /// The direction to move in: the search of `dfs` to depth `depth` is run
    /// once for each direction, from the game over its empty cells, and the
    /// scores are weighed by `choose_dir`.
    pub fn next_dir(&mut self, depth: u32) -> (d: Direction)
        requires
            leaf_ready(old(self).game, empty_cells(old(self).game.board)),
        ensures
            *final(self) == *old(self),
            exists|s: Seq<u64>| s.len() == 4
                && (forall|k: int| 0 <= k < 4 ==> #[trigger] dfs_outcome(old(self).game, old(self).game, empty_cells(old(self).game.board), depth, s[k]))
                && d == #[trigger] best_dir(s),
    {
        let dirs = Direction::iterator();
        let mut scores: Vec<u64> = Vec::new();
        let mut i: usize = 0;
        while i < 4
            invariant
                i <= 4,
                scores.len() == i,
                *self == *old(self),
                dfs_ready(self.game, self.game, empty_cells(self.game.board), depth),
                forall|k: int| 0 <= k < i ==> #[trigger] dfs_outcome(self.game, self.game, empty_cells(self.game.board), depth, scores[k]),
            decreases 4 - i,
        {
            let game = self.game;
            let score = self.dfs(game, dirs[i], game.empty_tile_idx(), depth);
            scores.push(score);
            i += 1;
        }
        let d = Self::choose_dir(&scores);
        assert(forall|k: int| 0 <= k < 4 ==> #[trigger] dfs_outcome(self.game, self.game, empty_cells(self.game.board), depth, scores@[k]));
        d
    }

    /// Whether the four moves of `probe_order` can be made in turn on `g`
    /// (see `moves_ok`).
    fn can_probe_moves(g: Game) -> (ok: bool)
        ensures
            ok == moves_ok(g),
    {
        let dirs = Direction::iterator();
        let mut h = g;
        let mut i: usize = 0;
        while i < 4
            invariant
                i <= 4,
                dirs@ == probe_order(),
                h == after_moves(g, i as nat),
                forall|n: nat| n < i ==> #[trigger] can_move(after_moves(g, n), probe_order()[n as int]),
            decreases 4 - i,
        {
            if !h.can_move_to(dirs[i]) {
                assert(!can_move(after_moves(g, i as nat), probe_order()[i as int]));
                return false;
            }
            h.move_to(dirs[i]);
            i += 1;
        }
        true
    }

    /// Whether the search of `next_dir` can be made on the game (see
    /// `leaf_ready`): every move it plays stays within the board and the
    /// score.
    pub fn can_search(&self) -> (ok: bool)
        ensures
            ok == leaf_ready(self.game, empty_cells(self.game.board)),
    {
        let g = self.game;
        let pos = g.empty_tile_idx();
        proof {
            lemma_empties_contains(g.board, 0, 16);
        }
        let mut k: usize = 0;
        while k < pos.len()
            invariant
                k <= pos.len(),
                g == self.game,
                pos@ == empty_cells(g.board),
                forall|q: int| 0 <= q < pos@.len() ==> #[trigger] pos@[q] < 16,
                forall|q: int| 0 <= q < k ==> #[trigger] pos@[q] < 16 && moves_ok(with_tile(g, pos@[q] as int, 1))
                    && moves_ok(with_tile(g, pos@[q] as int, 2)),
            decreases pos.len() - k,
        {
            let mut t: u64 = 1;
            while t <= 2
                invariant
                    1 <= t <= 3,
                    k < pos.len(),
                    g == self.game,
                    pos@ == empty_cells(g.board),
                    pos@[k as int] < 16,
                    forall|u: u64| 1 <= u < t ==> #[trigger] moves_ok(with_tile(g, pos@[k as int] as int, u)),
                decreases 3 - t,
            {
                let mut h = g;
                h.set_value(pos[k] as usize, t);
                proof {
                    lemma_board_of_cells(h.board);
                    assert(h == with_tile(g, pos@[k as int] as int, t));
                }
                if !Self::can_probe_moves(h) {
                    proof {
                        let e = empty_cells(g.board);
                        assert(e[k as int] == pos@[k as int]);
                        if t == 1 {
                            assert(!moves_ok(with_tile(g, e[k as int] as int, 1)));
                        } else {
                            assert(!moves_ok(with_tile(g, e[k as int] as int, 2)));
                        }
                        assert(!leaf_ready(g, e));
                    }
                    return false;
                }
                t += 1;
            }
            assert(moves_ok(with_tile(g, pos@[k as int] as int, 1)));
            assert(moves_ok(with_tile(g, pos@[k as int] as int, 2)));
            k += 1;
        }
        true
    }
}

} // verus!
