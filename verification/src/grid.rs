//! The player for the web version of the game: the grid is read from the
//! page into rows of tile values (2, 4, 8, ...; 0 for an empty cell), the
//! four moves are tried on a copy and the best one is chosen.
use vstd::prelude::*;

use crate::laws::{four_by_four, law_predict_changes_grid};
use crate::random::random_index;

verus! {

/// The side of the grid.
pub const TILE_SIZE: usize = 4;

/// A direction in which the tiles can be pushed on the page.
#[derive(Debug, Clone, Copy, PartialEq, Eq, Structural)]
pub enum Direction {
    Right,
    Left,
    Top,
    Bottom,
}

impl Direction {
    /// The four directions in the order in which they are tried.
    pub fn iterator() -> (dirs: [Direction; 4])
        ensures
            dirs@ == seq![Direction::Right, Direction::Left, Direction::Top, Direction::Bottom],
    {
        let dirs = [Direction::Right, Direction::Left, Direction::Top, Direction::Bottom];
        assert(dirs@ =~= seq![Direction::Right, Direction::Left, Direction::Top, Direction::Bottom]);
        dirs
    }

    /// The direction that a draw `k` from `0..4` stands for.
    pub fn from_draw(k: usize) -> (d: Direction)
        ensures
            d == (if k == 0 { Direction::Top } else if k == 1 { Direction::Right } else if k == 2 {
                Direction::Left
            } else {
                Direction::Bottom
            }),
    {
        match k {
            0 => Direction::Top,
            1 => Direction::Right,
            2 => Direction::Left,
            _ => Direction::Bottom,
        }
    }
}

/// The rows of a grid as sequences.
pub open spec fn grid_of(t: Seq<Vec<u64>>) -> Seq<Seq<u64>> {
    Seq::new(t.len(), |i: int| t[i]@)
}

/// The tiles of a line, in order.
pub open spec fn tiles_of(s: Seq<u64>) -> Seq<u64> {
    s.filter(|x: u64| x != 0)
}

/// The tiles moved to the front of four positions, the rest empty.
pub open spec fn gathered(s: Seq<u64>) -> Seq<int> {
    Seq::new(4, |k: int| if k < tiles_of(s).len() { tiles_of(s)[k] as int } else { 0 })
}

/// The line after the join at position `k`, when the values at `k` and
/// `k + 1` are equal: the value at `k` is dropped, the next one moves into
/// its place doubled, and an empty cell enters at the end.
pub open spec fn join_at(p: Seq<int>, k: int) -> Seq<int> {
    if p[k] == p[k + 1] {
        p.remove(k).update(k, p[k + 1] * 2).push(0)
    } else {
        p
    }
}

/// A line of the web grid after a move to the left: compacted, then joined
/// at the first, second and third positions in turn.
pub open spec fn line_left(s: Seq<u64>) -> Seq<int> {
    join_at(join_at(join_at(gathered(s), 0), 1), 2)
}

/// A line can be moved to the left: at most four tiles, and no doubled
/// value leaves 64 bits.
pub open spec fn line_fits(s: Seq<u64>) -> bool {
    &&& tiles_of(s).len() <= TILE_SIZE
    &&& forall|k: int| 0 <= k < 4 ==> #[trigger] line_left(s)[k] <= u64::MAX
}

/// A sequence of four values as `u64`.
pub open spec fn as_u64s(p: Seq<int>) -> Seq<u64> {
    Seq::new(4, |k: int| p[k] as u64)
}

/// Moves one line to the left: the tiles slide together, and equal
/// neighbours join into one tile of twice the value. The line is left with
/// four cells.
pub fn line_to_left(l: &mut Vec<u64>)
    requires
        line_fits(old(l)@),
    ensures
        final(l)@ == as_u64s(line_left(old(l)@)),
{
    let ghost s = l@;
    // remove zero
    let mut kept: Vec<u64> = Vec::new();
    let mut i: usize = 0;
    while i < l.len()
        invariant
            i <= l.len(),
            l@ == s,
            kept@ == tiles_of(s.take(i as int)),
        decreases l.len() - i,
    {
        proof {
            reveal(Seq::filter);
            assert(s.take(i + 1).drop_last() =~= s.take(i as int));
        }
        if l[i] != 0 {
            kept.push(l[i]);
        }
        i += 1;
    }
    assert(s.take(s.len() as int) =~= s);
    *l = kept;
    let pad = TILE_SIZE - l.len();
    let mut k: usize = 0;
    while k < pad
        invariant
            k <= pad,
            pad == 4 - tiles_of(s).len(),
            l@.len() == tiles_of(s).len() + k,
            forall|j: int| 0 <= j < tiles_of(s).len() ==> l@[j] == tiles_of(s)[j],
            forall|j: int| tiles_of(s).len() <= j < l@.len() ==> l@[j] == 0,
        decreases pad - k,
    {
        l.push(0);
        k += 1;
    }
    let ghost p0 = gathered(s);
    let ghost p1 = join_at(p0, 0);
    let ghost p2 = join_at(p1, 1);
    let ghost p3 = join_at(p2, 2);
    assert(l@.len() == 4 && forall|j: int| 0 <= j < 4 ==> l@[j] as int == p0[j]);
    assert(p3 == line_left(s));
    assert(p1[0] == p3[0]);
    assert(p2[1] == p3[1]);
    assert(p3[0] <= u64::MAX && p3[1] <= u64::MAX && p3[2] <= u64::MAX);
    if l[0] == l[1] {
        l.remove(0);
        l[0] *= 2;
        l.push(0);
    }
    assert(l@.len() == 4 && forall|j: int| 0 <= j < 4 ==> l@[j] as int == p1[j]);
    if l[1] == l[2] {
        l.remove(1);
        l[1] *= 2;
        l.push(0);
    }
    assert(l@.len() == 4 && forall|j: int| 0 <= j < 4 ==> l@[j] as int == p2[j]);
    if l[2] == l[3] {
        l.remove(2);
        l[2] *= 2;
        l.push(0);
    }
    assert(l@.len() == 4 && forall|j: int| 0 <= j < 4 ==> l@[j] as int == p3[j]);
    assert(l@ =~= as_u64s(p3));
}

/// The grid turned a quarter turn clockwise: its rows are reversed and the
/// leading square is mirrored on its main diagonal. Cells right of the square
/// stay with their row.
pub open spec fn turned(t: Seq<Seq<u64>>) -> Seq<Seq<u64>> {
    let n = t.len();
    Seq::new(
        n as nat,
        |i: int| Seq::new(t[n - 1 - i].len(), |j: int| if j < n { t[n - 1 - j][i] } else { t[n - 1 - i][j] }),
    )
}

/// The grid can be turned: after its rows are reversed, every row but the
/// last reaches across the square, and the last one to its last column but
/// one.
pub open spec fn can_turn(t: Seq<Seq<u64>>) -> bool {
    let n = t.len();
    n <= 1 || (t[0].len() >= n - 1 && forall|m: int| 1 <= m < n ==> #[trigger] t[m].len() >= n)
}

/// The grid turned `k` quarter turns clockwise.
pub open spec fn turned_n(t: Seq<Seq<u64>>, k: nat) -> Seq<Seq<u64>>
    decreases k,
{
    if k == 0 { t } else { turned_n(turned(t), (k - 1) as nat) }
}

/// The grid can be turned `k` times in a row.
pub open spec fn can_turn_n(t: Seq<Seq<u64>>, k: nat) -> bool
    decreases k,
{
    if k == 0 { true } else { can_turn(t) && can_turn_n(turned(t), (k - 1) as nat) }
}

/// Cells `(a, b)` and `(b, a)` of the square have been exchanged once the
/// exchange has gone up to row `i` and, in it, to column `j`.
pub open spec fn exchanged(n: int, i: int, j: int, a: int, b: int) -> bool {
    &&& a != b
    &&& 0 <= a < n
    &&& 0 <= b < n
    &&& (if a < b { b < i || (b == i && a < j) } else { a < i || (a == i && b < j) })
}

/// Turns the grid a quarter turn clockwise (see `turned`).
fn turn_once(tiles: &mut Vec<Vec<u64>>)
    requires
        can_turn(grid_of(old(tiles)@)),
    ensures
        grid_of(final(tiles)@) == turned(grid_of(old(tiles)@)),
{
    let ghost t = grid_of(tiles@);
    let ghost n = t.len() as int;
    let mut rev: Vec<Vec<u64>> = Vec::new();
    while tiles.len() > 0
        invariant
            tiles@.len() + rev@.len() == n,
            forall|a: int| 0 <= a < tiles@.len() ==> #[trigger] tiles@[a]@ == t[a],
            forall|a: int| 0 <= a < rev@.len() ==> #[trigger] rev@[a]@ == t[n - 1 - a],
        decreases tiles@.len(),
    {
        let row = tiles.pop().unwrap();
        rev.push(row);
    }
    *tiles = rev;
    let ghost u = grid_of(tiles@);
    assert(u.len() == n);
    assert(forall|a: int| 0 <= a < n ==> #[trigger] u[a] == t[n - 1 - a]);
    let len = tiles.len();
    let mut i: usize = 1;
    while i < len
        invariant
            len == n,
            1 <= i <= n || n == 0,
            tiles@.len() == n,
            can_turn(t),
            t.len() == n,
            u.len() == n,
            forall|a: int| 0 <= a < n ==> #[trigger] u[a] == t[n - 1 - a],
            forall|a: int| 0 <= a < n ==> #[trigger] tiles@[a]@.len() == u[a].len(),
            forall|a: int, b: int| 0 <= a < n && 0 <= b < u[a].len() ==> #[trigger] tiles@[a]@[b]
                == if exchanged(n, i as int, 0, a, b) { u[b][a] } else { u[a][b] },
        decreases len - i,
    {
        let mut j: usize = 0;
        while j < i
            invariant
                len == n,
                1 <= i < n,
                j <= i,
                tiles@.len() == n,
                can_turn(t),
                t.len() == n,
                u.len() == n,
                forall|a: int| 0 <= a < n ==> #[trigger] u[a] == t[n - 1 - a],
                forall|a: int| 0 <= a < n ==> #[trigger] tiles@[a]@.len() == u[a].len(),
                forall|a: int, b: int| 0 <= a < n && 0 <= b < u[a].len() ==> #[trigger] tiles@[a]@[b]
                    == if exchanged(n, i as int, j as int, a, b) { u[b][a] } else { u[a][b] },
            decreases i - j,
        {
            assert(u[j as int] == t[n - 1 - j]);
            assert(u[i as int] == t[n - 1 - i]);
            proof {
                assert(t[n - 1 - j].len() >= n);
                if i + 1 < n {
                    assert(t[n - 1 - i].len() >= n);
                }
            }
            let x = tiles[j][i];
            let y = tiles[i][j];
            tiles[j][i] = y;
            tiles[i][j] = x;
            j += 1;
        }
        i += 1;
    }
    assert forall|a: int| 0 <= a < n implies #[trigger] grid_of(tiles@)[a] =~= turned(t)[a] by {
        assert forall|b: int| 0 <= b < u[a].len() implies grid_of(tiles@)[a][b] == turned(t)[a][b] by {
            assert(exchanged(n, n, 0, a, b) == (a != b && b < n));
        }
    }
    assert(grid_of(tiles@) =~= turned(t));
}

/// Turns the grid `rot_count` quarter turns clockwise.
pub fn rotate(tiles: &mut Vec<Vec<u64>>, rot_count: u32)
    requires
        can_turn_n(grid_of(old(tiles)@), rot_count as nat),
    ensures
        grid_of(final(tiles)@) == turned_n(grid_of(old(tiles)@), rot_count as nat),
{
    let ghost t = grid_of(tiles@);
    let mut k: u32 = 0;
    while k < rot_count
        invariant
            k <= rot_count,
            turned_n(t, rot_count as nat) == turned_n(grid_of(tiles@), (rot_count - k) as nat),
            can_turn_n(grid_of(tiles@), (rot_count - k) as nat),
        decreases rot_count - k,
    {
        turn_once(tiles);
        k += 1;
    }
}

/// The grid with its first four rows moved to the left.
pub open spec fn lefted(t: Seq<Seq<u64>>) -> Seq<Seq<u64>> {
    Seq::new(t.len(), |i: int| if i < 4 { as_u64s(line_left(t[i])) } else { t[i] })
}

/// The first four rows of the grid can be moved to the left.
pub open spec fn lefts_fit(t: Seq<Seq<u64>>) -> bool {
    t.len() >= 4 && forall|i: int| 0 <= i < 4 ==> #[trigger] line_fits(t[i])
}

/// Moves the first four rows of the grid to the left.
pub fn tiles_to_left(tiles: &mut Vec<Vec<u64>>)
    requires
        lefts_fit(grid_of(old(tiles)@)),
    ensures
        grid_of(final(tiles)@) == lefted(grid_of(old(tiles)@)),
{
    let ghost t = grid_of(tiles@);
    let mut row: usize = 0;
    while row < TILE_SIZE
        invariant
            row <= 4,
            t.len() >= 4,
            tiles@.len() == t.len(),
            forall|i: int| 0 <= i < 4 ==> #[trigger] line_fits(t[i]),
            forall|i: int| 0 <= i < tiles@.len() ==> #[trigger] tiles@[i]@ == if i < row { as_u64s(line_left(t[i])) } else { t[i] },
        decreases 4 - row,
    {
        line_to_left(&mut tiles[row]);
        row += 1;
    }
    assert(grid_of(tiles@) =~= lefted(t));
}

/// The quarter turns clockwise that bring `dir` to the left.
pub open spec fn grid_turns(dir: Direction) -> nat {
    match dir {
        Direction::Right => 2,
        Direction::Left => 0,
        Direction::Top => 3,
        Direction::Bottom => 1,
    }
}

/// The grid after a move in direction `dir`: turned until `dir` points
/// left, moved to the left, and turned back.
pub open spec fn pushed(t: Seq<Seq<u64>>, dir: Direction) -> Seq<Seq<u64>> {
    turned_n(lefted(turned_n(t, grid_turns(dir))), ((4 - grid_turns(dir)) % 4) as nat)
}

/// The move in direction `dir` can be made on the grid.
pub open spec fn can_push(t: Seq<Seq<u64>>, dir: Direction) -> bool {
    &&& can_turn_n(t, grid_turns(dir))
    &&& lefts_fit(turned_n(t, grid_turns(dir)))
    &&& can_turn_n(lefted(turned_n(t, grid_turns(dir))), ((4 - grid_turns(dir)) % 4) as nat)
}

/// Moves the grid in direction `dir`.
pub fn next_tiles(tiles: &mut Vec<Vec<u64>>, dir: Direction)
    requires
        can_push(grid_of(old(tiles)@), dir),
    ensures
        grid_of(final(tiles)@) == pushed(grid_of(old(tiles)@), dir),
{
    let rot_count: u32 = match dir {
        Direction::Right => 2,
        Direction::Left => 0,
        Direction::Top => 3,
        Direction::Bottom => 1,
    };
    rotate(tiles, rot_count);
    tiles_to_left(tiles);
    rotate(tiles, (4 - rot_count) % 4);
}

/// The weight of each cell in the score of a grid.
pub const WEIGHT: [[i32; 4]; 4] = [
    [0, 1, 2 * 450, 8 * 650],
    [0, 1, 2 * 500, 8 * 700],
    [0, 1, 2 * 550, 8 * 750],
    [0, 1, 2 * 600, 8 * 800],
];

/// The value lies in the range of `i32`.
pub open spec fn in_i32(x: int) -> bool {
    i32::MIN <= x <= i32::MAX
}

/// The points that cell `(i, j)` adds to the score, in the order in which
/// they are added: 100 for an empty cell, the weighted value of the cell, and
/// the bonuses for a right neighbour that is larger or equal.
pub open spec fn cell_points(t: Seq<Seq<u64>>, i: int, j: int) -> Seq<int> {
    let v = t[i][j];
    let last = j == TILE_SIZE - 1;
    seq![
        if v == 0 { 100 } else { 0 },
        WEIGHT[i][j] * (v as i32),
        if i > 1 && !last && v < t[i][j + 1] { 1000 } else { 0 },
        if i > 1 && !last && v == t[i][j + 1] { 5000 } else { 0 },
        if (i == 1 || i == 2) && !last && v < t[i][j + 1] { 5000 } else { 0 },
    ]
}

/// The score after cell `(i, j)`, from the score `acc` before it.
pub open spec fn cell_total(acc: int, t: Seq<Seq<u64>>, i: int, j: int) -> int {
    let p = cell_points(t, i, j);
    acc + p[0] + p[1] + p[2] + p[3] + p[4]
}

/// Every value computed for cell `(i, j)` from the score `acc` lies in the
/// range of `i32`.
pub open spec fn cell_fits(acc: int, t: Seq<Seq<u64>>, i: int, j: int) -> bool {
    let p = cell_points(t, i, j);
    &&& in_i32(acc + p[0])
    &&& in_i32(p[1])
    &&& in_i32(acc + p[0] + p[1])
    &&& in_i32(acc + p[0] + p[1] + p[2])
    &&& in_i32(acc + p[0] + p[1] + p[2] + p[3])
    &&& in_i32(acc + p[0] + p[1] + p[2] + p[3] + p[4])
}

/// The score of the first `n` cells of the square, row by row.
pub open spec fn score_upto(t: Seq<Seq<u64>>, n: nat) -> int
    decreases n,
{
    if n == 0 { 0 } else { cell_total(score_upto(t, (n - 1) as nat), t, (n - 1) / 4, (n - 1) % 4) }
}

/// The score of the first `n` cells can be computed in `i32`.
pub open spec fn score_fits(t: Seq<Seq<u64>>, n: nat) -> bool
    decreases n,
{
    if n == 0 {
        true
    } else {
        score_fits(t, (n - 1) as nat) && cell_fits(score_upto(t, (n - 1) as nat), t, (n - 1) / 4, (n - 1) % 4)
    }
}

/// The grid has the four rows of four cells that its score reads.
pub open spec fn is_square(t: Seq<Seq<u64>>) -> bool {
    t.len() >= 4 && forall|i: int| 0 <= i < 4 ==> #[trigger] t[i].len() >= 4
}

/// The weighted score of a move from `org` to `moved`: -1 when the move
/// changed nothing, else the weighted score of the moved grid.
pub open spec fn weighted_eval(org: Seq<Seq<u64>>, moved: Seq<Seq<u64>>) -> int {
    if org == moved { -1 } else { score_upto(moved, 16) }
}

/// The weighted score of a move can be computed: the move changed nothing,
/// or the moved grid is square and its score can be computed in `i32`.
pub open spec fn weighted_fits(org: Seq<Seq<u64>>, moved: Seq<Seq<u64>>) -> bool {
    org != moved ==> is_square(moved) && score_fits(moved, 16)
}

/// The weighted score of the move from `tiles_org` to `tiles_moved` (see
/// `weighted_eval`).
pub fn weighted_score(tiles_org: &Vec<Vec<u64>>, tiles_moved: &Vec<Vec<u64>>) -> (r: i32)
    requires
        weighted_fits(grid_of(tiles_org@), grid_of(tiles_moved@)),
    ensures
        r == weighted_eval(grid_of(tiles_org@), grid_of(tiles_moved@)),
{
    if same_grid(tiles_org, tiles_moved) {
        -1
    } else {
        let ghost t = grid_of(tiles_moved@);
        let mut ret: i32 = 0;
        let mut i: usize = 0;
        while i < TILE_SIZE
            invariant
                i <= 4,
                t == grid_of(tiles_moved@),
                is_square(t),
                score_fits(t, 16),
                ret == score_upto(t, (4 * i) as nat),
            decreases 4 - i,
        {
            let mut j: usize = 0;
            while j < TILE_SIZE
                invariant
                    i < 4,
                    j <= 4,
                    t == grid_of(tiles_moved@),
                    is_square(t),
                    score_fits(t, 16),
                    ret == score_upto(t, (4 * i + j) as nat),
                decreases 4 - j,
            {
                proof {
                    lemma_score_fits_prefix(t, 16, (4 * i + j + 1) as nat);
                    assert((4 * i + j) / 4 == i && (4 * i + j) % 4 == j);
                }
                let v = tiles_moved[i][j];
                if v == 0 {
                    ret += 100;
                }
                ret += WEIGHT[i][j] * v as i32;
                if i > 1 && j != TILE_SIZE - 1 && v < tiles_moved[i][j + 1] {
                    ret += 1000;
                }
                if i > 1 && j != TILE_SIZE - 1 && v == tiles_moved[i][j + 1] {
                    ret += 5000;
                }
                if (i == 1 || i == 2) && j != TILE_SIZE - 1 && v < tiles_moved[i][j + 1] {
                    ret += 5000;
                }
                j += 1;
            }
            i += 1;
        }
        ret
    }
}

/// The score of a shorter prefix can be computed when that of a longer one
/// can.
proof fn lemma_score_fits_prefix(t: Seq<Seq<u64>>, n: nat, m: nat)
    requires
        score_fits(t, n),
        m <= n,
    ensures
        score_fits(t, m),
    decreases n,
{
    if m < n {
        lemma_score_fits_prefix(t, (n - 1) as nat, m);
    }
}

/// Whether two grids hold the same rows.
pub(crate) fn same_grid(a: &Vec<Vec<u64>>, b: &Vec<Vec<u64>>) -> (r: bool)
    ensures
        r == (grid_of(a@) == grid_of(b@)),
{
    if a.len() != b.len() {
        assert(grid_of(a@).len() != grid_of(b@).len());
        return false;
    }
    let mut i: usize = 0;
    while i < a.len()
        invariant
            i <= a.len(),
            a.len() == b.len(),
            forall|k: int| 0 <= k < i ==> #[trigger] a@[k]@ == b@[k]@,
        decreases a.len() - i,
    {
        let ra = &a[i];
        let rb = &b[i];
        if ra.len() != rb.len() {
            assert(grid_of(a@)[i as int] != grid_of(b@)[i as int]);
            return false;
        }
        let mut j: usize = 0;
        while j < ra.len()
            invariant
                ra == a@[i as int],
                rb == b@[i as int],
                i < a.len(),
                a.len() == b.len(),
                j <= ra.len(),
                ra.len() == rb.len(),
                forall|k: int| 0 <= k < j ==> #[trigger] ra@[k] == rb@[k],
            decreases ra.len() - j,
        {
            if ra[j] != rb[j] {
                assert(grid_of(a@)[i as int] == ra@ && grid_of(b@)[i as int] == rb@);
                assert(grid_of(a@)[i as int][j as int] != grid_of(b@)[i as int][j as int]);
                return false;
            }
            j += 1;
        }
        assert(ra@ =~= rb@);
        i += 1;
    }
    assert(grid_of(a@) =~= grid_of(b@));
    true
}

/// The directions in the order in which they are tried.
pub open spec fn try_order() -> Seq<Direction> {
    seq![Direction::Right, Direction::Left, Direction::Top, Direction::Bottom]
}

/// The number of tiles on a grid: its nonzero cells, over all rows.
pub open spec fn grid_tiles(t: Seq<Seq<u64>>) -> int
    decreases t.len(),
{
    if t.len() == 0 {
        0
    } else {
        grid_tiles(t.drop_last()) + tiles_of(t.last()).len()
    }
}

/// The tiles of a grid can be counted in `i32`.
pub open spec fn tiles_fit(t: Seq<Seq<u64>>) -> bool {
    grid_tiles(t) <= i32::MAX
}

/// The score of a move from `org` to `moved`: -1 when the move changed
/// nothing, else the number of tiles that merged away.
pub open spec fn move_score(org: Seq<Seq<u64>>, moved: Seq<Seq<u64>>) -> int {
    if org == moved {
        -1
    } else {
        grid_tiles(org) - grid_tiles(moved)
    }
}

/// Every move can be made on the grid, and the tiles before and after each
/// of them can be counted.
pub open spec fn can_predict(t: Seq<Seq<u64>>) -> bool {
    &&& tiles_fit(t)
    &&& forall|k: int|
        0 <= k < 4 ==> can_push(t, #[trigger] try_order()[k]) && tiles_fit(pushed(t, try_order()[k]))
}

/// The best score among the first `n` directions of `try_order` and the
/// direction that first reached it; -1 and up when none scores above -1.
pub open spec fn best_move(t: Seq<Seq<u64>>, n: nat) -> (int, Direction)
    decreases n,
{
    if n == 0 {
        (-1, Direction::Top)
    } else {
        let prev = best_move(t, (n - 1) as nat);
        let d = try_order()[n - 1];
        let s = move_score(t, pushed(t, d));
        if prev.0 < s {
            (s, d)
        } else {
            prev
        }
    }
}

/// The tiles of the first `j + 1` cells of a line: those of the first `j`,
/// and one more when cell `j` holds a tile.
pub(crate) proof fn lemma_tiles_step(s: Seq<u64>, j: int)
    requires
        0 <= j < s.len(),
    ensures
        tiles_of(s.take(j + 1)).len() == tiles_of(s.take(j)).len() + (if s[j] != 0 { 1int } else { 0 }),
{
    reveal(Seq::filter);
    assert(s.take(j + 1).drop_last() =~= s.take(j));
}

/// A prefix of a line holds no more tiles than the whole line.
proof fn lemma_tiles_prefix(s: Seq<u64>, j: int)
    requires
        0 <= j <= s.len(),
    ensures
        tiles_of(s.take(j)).len() <= tiles_of(s).len(),
    decreases s.len() - j,
{
    if j < s.len() {
        lemma_tiles_step(s, j);
        lemma_tiles_prefix(s, j + 1);
    } else {
        assert(s.take(j) =~= s);
    }
}

/// The first `i` rows of a grid hold no more tiles than the whole grid.
proof fn lemma_grid_prefix(t: Seq<Seq<u64>>, i: int)
    requires
        0 <= i <= t.len(),
    ensures
        grid_tiles(t.take(i)) <= grid_tiles(t),
    decreases t.len() - i,
{
    if i < t.len() {
        assert(t.take(i + 1).drop_last() =~= t.take(i));
        lemma_grid_prefix(t, i + 1);
    } else {
        assert(t.take(i) =~= t);
    }
}

/// The number of tiles on the grid, or 2^31 when there are more than
/// `i32::MAX`.
fn capped_tile_count(tiles: &Vec<Vec<u64>>) -> (r: u64)
    ensures
        r == (if tiles_fit(grid_of(tiles@)) { grid_tiles(grid_of(tiles@)) } else { 0x8000_0000 }),
{
    let ghost g = grid_of(tiles@);
    let cap: u64 = 0x8000_0000;
    let mut n: u64 = 0;
    let mut i: usize = 0;
    assert(g.take(0) =~= Seq::<Seq<u64>>::empty());
    while i < tiles.len()
        invariant
            i <= tiles.len(),
            g == grid_of(tiles@),
            n == grid_tiles(g.take(i as int)),
            n < cap,
            cap == 0x8000_0000,
        decreases tiles.len() - i,
    {
        let row = &tiles[i];
        assert(g[i as int] == row@);
        let mut j: usize = 0;
        assert(row@.take(0) =~= Seq::<u64>::empty());
        while j < row.len()
            invariant
                row@ == g[i as int],
                i < tiles.len(),
                g == grid_of(tiles@),
                j <= row.len(),
                n == grid_tiles(g.take(i as int)) + tiles_of(row@.take(j as int)).len(),
                n < cap,
                cap == 0x8000_0000,
            decreases row.len() - j,
        {
            proof {
                lemma_tiles_step(row@, j as int);
            }
            if row[j] != 0 {
                n += 1;
                if n == cap {
                    proof {
                        lemma_tiles_prefix(row@, j + 1);
                        assert(g.take(i + 1).drop_last() =~= g.take(i as int));
                        lemma_grid_prefix(g, i + 1);
                    }
                    return cap;
                }
            }
            j += 1;
        }
        proof {
            assert(row@.take(row@.len() as int) =~= row@);
            assert(g.take(i + 1).drop_last() =~= g.take(i as int));
        }
        i += 1;
    }
    assert(g.take(tiles@.len() as int) =~= g);
    n
}

/// The number of tiles on the grid (see `grid_tiles`).
pub fn eval_tiles(tiles: &Vec<Vec<u64>>) -> (r: i32)
    requires
        tiles_fit(grid_of(tiles@)),
    ensures
        r == grid_tiles(grid_of(tiles@)),
        r >= 0,
{
    let n = capped_tile_count(tiles);
    n as i32
}

/// Whether the tiles of the grid can be counted in `i32` (see `tiles_fit`).
pub fn tiles_can_count(tiles: &Vec<Vec<u64>>) -> (r: bool)
    ensures
        r == tiles_fit(grid_of(tiles@)),
{
    capped_tile_count(tiles) < 0x8000_0000
}

/// The direction to move in: the one whose move scores best (see
/// `move_score`: the number of tiles that merge, -1 for a move that leaves
/// the grid as it is), the first of them on a tie. When no move scores above
/// -1 a direction is drawn at random.
pub fn predict(tiles: &Vec<Vec<u64>>) -> (d: Direction)
    requires
        can_predict(grid_of(tiles@)),
    ensures
        best_move(grid_of(tiles@), 4).0 != -1 ==> d == best_move(grid_of(tiles@), 4).1,
        four_by_four(grid_of(tiles@)) && (exists|k: int|
            0 <= k < 4 && pushed(grid_of(tiles@), #[trigger] try_order()[k]) != grid_of(tiles@)) ==> pushed(
            grid_of(tiles@),
            d,
        ) != grid_of(tiles@),
{
    let ghost t = grid_of(tiles@);
    let before = eval_tiles(tiles);
    let mut ans: i32 = -1;
    let mut ret = Direction::Top;
    let dirs = Direction::iterator();
    let mut k: usize = 0;
    while k < 4
        invariant
            k <= 4,
            t == grid_of(tiles@),
            dirs@ == try_order(),
            can_predict(t),
            before == grid_tiles(t),
            before >= 0,
            (ans as int, ret) == best_move(t, k as nat),
        decreases 4 - k,
    {
        let mut tiles_moved = copy_grid(tiles);
        assert(can_push(t, try_order()[k as int]));
        next_tiles(&mut tiles_moved, dirs[k]);
        let tmp: i32 = if same_grid(tiles, &tiles_moved) {
            -1
        } else {
            before - eval_tiles(&tiles_moved)
        };
        if ans < tmp {
            ans = tmp;
            ret = dirs[k];
        }
        k += 1;
    }
    proof {
        if four_by_four(t) && exists|k: int| 0 <= k < 4 && pushed(t, #[trigger] try_order()[k]) != t {
            law_predict_changes_grid(t);
        }
    }
    if ans == -1 {
        ret = Direction::from_draw(random_index(4));
    }
    ret
}

/// A copy of a grid.
fn copy_grid(tiles: &Vec<Vec<u64>>) -> (c: Vec<Vec<u64>>)
    ensures
        grid_of(c@) == grid_of(tiles@),
{
    let mut c: Vec<Vec<u64>> = Vec::new();
    let mut i: usize = 0;
    while i < tiles.len()
        invariant
            i <= tiles.len(),
            c@.len() == i,
            forall|k: int| 0 <= k < i ==> #[trigger] c@[k]@ == tiles@[k]@,
        decreases tiles.len() - i,
    {
        let row = &tiles[i];
        let mut r: Vec<u64> = Vec::new();
        let mut j: usize = 0;
        while j < row.len()
            invariant
                j <= row.len(),
                r@ == row@.take(j as int),
            decreases row.len() - j,
        {
            r.push(row[j]);
            proof {
                assert(row@.take(j + 1) =~= row@.take(j as int).push(row@[j as int]));
            }
            j += 1;
        }
        assert(row@.take(row.len() as int) =~= row@);
        c.push(r);
        i += 1;
    }
    assert(grid_of(c@) =~= grid_of(tiles@));
    c
}

/// Whether the grid can be turned (see `can_turn`).
fn can_turn_grid(tiles: &Vec<Vec<u64>>) -> (r: bool)
    ensures
        r == can_turn(grid_of(tiles@)),
{
    let n = tiles.len();
    if n <= 1 {
        return true;
    }
    if tiles[0].len() < n - 1 {
        return false;
    }
    let mut m: usize = 1;
    while m < n
        invariant
            1 <= m <= n,
            n == tiles@.len(),
            forall|k: int| 1 <= k < m ==> #[trigger] tiles@[k]@.len() >= n,
        decreases n - m,
    {
        if tiles[m].len() < n {
            assert(grid_of(tiles@)[m as int].len() < n);
            return false;
        }
        m += 1;
    }
    assert(forall|k: int| 1 <= k < n ==> #[trigger] grid_of(tiles@)[k].len() >= n);
    true
}

/// Whether a line can be moved to the left (see `line_fits`).
pub fn line_can_move(l: &Vec<u64>) -> (r: bool)
    ensures
        r == line_fits(l@),
{
    let ghost s = l@;
    let mut kept: Vec<u64> = Vec::new();
    let mut i: usize = 0;
    while i < l.len()
        invariant
            i <= l.len(),
            l@ == s,
            kept@ == tiles_of(s.take(i as int)),
        decreases l.len() - i,
    {
        proof {
            reveal(Seq::filter);
            assert(s.take(i + 1).drop_last() =~= s.take(i as int));
        }
        if l[i] != 0 {
            kept.push(l[i]);
        }
        i += 1;
    }
    assert(s.take(s.len() as int) =~= s);
    if kept.len() > TILE_SIZE {
        return false;
    }
    let ghost p0 = gathered(s);
    let mut p: Vec<u128> = Vec::new();
    let mut k: usize = 0;
    while k < 4
        invariant
            k <= 4,
            kept@ == tiles_of(s),
            kept@.len() <= 4,
            p0 == gathered(s),
            p@.len() == k,
            forall|j: int| 0 <= j < k ==> #[trigger] p@[j] as int == p0[j],
        decreases 4 - k,
    {
        if k < kept.len() {
            p.push(kept[k] as u128);
        } else {
            p.push(0);
        }
        k += 1;
    }
    let ghost p1 = join_at(p0, 0);
    let ghost p2 = join_at(p1, 1);
    let ghost p3 = join_at(p2, 2);
    assert(p3 == line_left(s));
    assert(forall|j: int| 0 <= j < 4 ==> 0 <= #[trigger] p0[j] <= u64::MAX);
    if p[0] == p[1] {
        let v = p[1] * 2;
        p.remove(0);
        p.set(0, v);
        p.push(0);
    }
    assert(p@.len() == 4 && forall|j: int| 0 <= j < 4 ==> #[trigger] p@[j] as int == p1[j]);
    assert(forall|j: int| 0 <= j < 4 ==> 0 <= #[trigger] p1[j] <= 2 * u64::MAX);
    if p[1] == p[2] {
        if p[2] > u64::MAX as u128 {
            assert(p2[1] == p1[2] * 2);
            assert(p3[1] == p2[1]);
            return false;
        }
        let v = p[2] * 2;
        p.remove(1);
        p.set(1, v);
        p.push(0);
    }
    assert(p@.len() == 4 && forall|j: int| 0 <= j < 4 ==> #[trigger] p@[j] as int == p2[j]);
    if p[2] == p[3] {
        if p[3] > u64::MAX as u128 {
            assert(p3[2] == p2[3] * 2);
            return false;
        }
        let v = p[3] * 2;
        p.remove(2);
        p.set(2, v);
        p.push(0);
    }
    assert(p@.len() == 4 && forall|j: int| 0 <= j < 4 ==> #[trigger] p@[j] as int == p3[j]);
    let fits = p[0] <= u64::MAX as u128 && p[1] <= u64::MAX as u128 && p[2] <= u64::MAX as u128
        && p[3] <= u64::MAX as u128;
    assert(fits ==> forall|j: int| 0 <= j < 4 ==> #[trigger] line_left(s)[j] <= u64::MAX);
    fits
}

/// Whether the first four rows of the grid can be moved to the left (see
/// `lefts_fit`).
fn lefts_fit_grid(tiles: &Vec<Vec<u64>>) -> (r: bool)
    ensures
        r == lefts_fit(grid_of(tiles@)),
{
    if tiles.len() < TILE_SIZE {
        return false;
    }
    let mut i: usize = 0;
    while i < TILE_SIZE
        invariant
            i <= 4,
            tiles@.len() >= 4,
            forall|k: int| 0 <= k < i ==> #[trigger] line_fits(grid_of(tiles@)[k]),
        decreases 4 - i,
    {
        if !line_can_move(&tiles[i]) {
            assert(!line_fits(grid_of(tiles@)[i as int]));
            return false;
        }
        i += 1;
    }
    true
}

/// Turns the grid `count` quarter turns clockwise, as long as each turn can
/// be made; whether all of them could.
fn turn_checked(m: &mut Vec<Vec<u64>>, count: u32) -> (ok: bool)
    ensures
        ok == can_turn_n(grid_of(old(m)@), count as nat),
        ok ==> grid_of(final(m)@) == turned_n(grid_of(old(m)@), count as nat),
{
    let ghost t = grid_of(m@);
    let mut i: u32 = 0;
    while i < count
        invariant
            i <= count,
            t == grid_of(old(m)@),
            can_turn_n(t, count as nat) == can_turn_n(grid_of(m@), (count - i) as nat),
            turned_n(t, count as nat) == turned_n(grid_of(m@), (count - i) as nat),
        decreases count - i,
    {
        let ghost cur = grid_of(m@);
        assert(can_turn_n(cur, (count - i) as nat) == (can_turn(cur) && can_turn_n(turned(cur), (count - i - 1) as nat)));
        assert(turned_n(cur, (count - i) as nat) == turned_n(turned(cur), (count - i - 1) as nat));
        if !can_turn_grid(m) {
            return false;
        }
        turn_once(m);
        i += 1;
    }
    true
}

/// The grid after a move in direction `dir` (see `pushed`), `None` when the
/// move cannot be made (see `can_push`).
pub fn try_push(tiles: &Vec<Vec<u64>>, dir: Direction) -> (r: Option<Vec<Vec<u64>>>)
    ensures
        match r {
            Some(m) => can_push(grid_of(tiles@), dir) && grid_of(m@) == pushed(grid_of(tiles@), dir),
            None => !can_push(grid_of(tiles@), dir),
        },
{
    let rot_count: u32 = match dir {
        Direction::Right => 2,
        Direction::Left => 0,
        Direction::Top => 3,
        Direction::Bottom => 1,
    };
    let mut m = copy_grid(tiles);
    if !turn_checked(&mut m, rot_count) {
        return None;
    }
    if !lefts_fit_grid(&m) {
        return None;
    }
    tiles_to_left(&mut m);
    if !turn_checked(&mut m, (4 - rot_count) % 4) {
        return None;
    }
    Some(m)
}

/// Whether the grid is square enough to be scored (see `is_square`).
fn is_square_grid(tiles: &Vec<Vec<u64>>) -> (r: bool)
    ensures
        r == is_square(grid_of(tiles@)),
{
    if tiles.len() < TILE_SIZE {
        return false;
    }
    let mut i: usize = 0;
    while i < TILE_SIZE
        invariant
            i <= 4,
            tiles@.len() >= 4,
            forall|k: int| 0 <= k < i ==> #[trigger] grid_of(tiles@)[k].len() >= 4,
        decreases 4 - i,
    {
        if tiles[i].len() < TILE_SIZE {
            assert(grid_of(tiles@)[i as int].len() < 4);
            return false;
        }
        i += 1;
    }
    true
}

/// Whether the move from `tiles_org` to `tiles_moved` can be scored (see
/// `weighted_fits`).
pub fn weighted_can_score(tiles_org: &Vec<Vec<u64>>, tiles_moved: &Vec<Vec<u64>>) -> (r: bool)
    ensures
        r == weighted_fits(grid_of(tiles_org@), grid_of(tiles_moved@)),
{
    if same_grid(tiles_org, tiles_moved) {
        return true;
    }
    if !is_square_grid(tiles_moved) {
        return false;
    }
    let ghost t = grid_of(tiles_moved@);
    let mut acc: i64 = 0;
    let mut n: usize = 0;
    while n < 16
        invariant
            n <= 16,
            t == grid_of(tiles_moved@),
            grid_of(tiles_org@) != t,
            is_square(t),
            score_fits(t, n as nat),
            acc == score_upto(t, n as nat),
            in_i32(acc as int),
        decreases 16 - n,
    {
        let i = n / 4;
        let j = n % 4;
        proof {
            assert((n as int) / 4 == i && (n as int) % 4 == j);
            assert(score_fits(t, (n + 1) as nat) == (score_fits(t, n as nat) && cell_fits(score_upto(t, n as nat), t, i as int, j as int)));
            assert(score_upto(t, (n + 1) as nat) == cell_total(score_upto(t, n as nat), t, i as int, j as int));
        }
        match cell_check(acc, tiles_moved, i, j) {
            Some(a) => {
                acc = a;
            },
            None => {
                proof {
                    lemma_score_fits_prefix_not(t, (n + 1) as nat);
                }
                return false;
            },
        }
        n += 1;
    }
    true
}

/// The score after cell `(i, j)` from the score `acc` (see `cell_total`),
/// `None` when a value computed on the way leaves `i32` (see `cell_fits`).
fn cell_check(acc: i64, tiles_moved: &Vec<Vec<u64>>, i: usize, j: usize) -> (r: Option<i64>)
    requires
        is_square(grid_of(tiles_moved@)),
        i < 4,
        j < 4,
        in_i32(acc as int),
    ensures
        match r {
            Some(a) => cell_fits(acc as int, grid_of(tiles_moved@), i as int, j as int)
                && a == cell_total(acc as int, grid_of(tiles_moved@), i as int, j as int) && in_i32(a as int),
            None => !cell_fits(acc as int, grid_of(tiles_moved@), i as int, j as int),
        },
{
    let ghost t = grid_of(tiles_moved@);
    assert(t[i as int].len() >= 4);
    assert(tiles_moved@[i as int]@.len() >= 4);
    let w = WEIGHT[i][j];
    assert(0 <= w <= 6400) by {
        assert(WEIGHT@[i as int]@[j as int] == w);
    }
    let v = tiles_moved[i][j];
    let x = v as i32;
    assert(-6400 * 2147483648 <= (w as int) * (x as int) <= 6400 * 2147483648) by (nonlinear_arith)
        requires
            0 <= w <= 6400,
            -2147483648 <= x <= 2147483647,
    ;
    let last = j == TILE_SIZE - 1;
    let ghost p = cell_points(t, i as int, j as int);
    let p0: i64 = if v == 0 { 100 } else { 0 };
    let p1: i64 = w as i64 * x as i64;
    let p2: i64 = if i > 1 && !last && v < tiles_moved[i][j + 1] { 1000 } else { 0 };
    let p3: i64 = if i > 1 && !last && v == tiles_moved[i][j + 1] { 5000 } else { 0 };
    let p4: i64 = if (i == 1 || i == 2) && !last && v < tiles_moved[i][j + 1] { 5000 } else { 0 };
    assert(p0 == p[0] && p1 == p[1] && p2 == p[2] && p3 == p[3] && p4 == p[4]);
    let a1 = acc + p0;
    let a2 = a1 + p1;
    let a3 = a2 + p2;
    let a4 = a3 + p3;
    let a5 = a4 + p4;
    let lo = i32::MIN as i64;
    let hi = i32::MAX as i64;
    if lo <= a1 && a1 <= hi && lo <= p1 && p1 <= hi && lo <= a2 && a2 <= hi && lo <= a3 && a3 <= hi
        && lo <= a4 && a4 <= hi && lo <= a5 && a5 <= hi {
        Some(a5)
    } else {
        None
    }
}

/// When a prefix of the cells cannot be scored, neither can all of them.
proof fn lemma_score_fits_prefix_not(t: Seq<Seq<u64>>, m: nat)
    requires
        m <= 16,
        !score_fits(t, m),
    ensures
        !score_fits(t, 16),
{
    if score_fits(t, 16) {
        lemma_score_fits_prefix(t, 16, m);
    }
}

/// Whether every move can be made on the grid and its tiles counted (see
/// `can_predict`): the condition under which `predict` can run.
pub fn can_predict_grid(tiles: &Vec<Vec<u64>>) -> (r: bool)
    ensures
        r == can_predict(grid_of(tiles@)),
{
    let ghost t = grid_of(tiles@);
    if !tiles_can_count(tiles) {
        return false;
    }
    let dirs = Direction::iterator();
    let mut k: usize = 0;
    while k < 4
        invariant
            k <= 4,
            t == grid_of(tiles@),
            dirs@ == try_order(),
            forall|q: int|
                0 <= q < k ==> can_push(t, #[trigger] try_order()[q]) && tiles_fit(pushed(t, try_order()[q])),
        decreases 4 - k,
    {
        match try_push(tiles, dirs[k]) {
            None => {
                assert(!(can_push(t, try_order()[k as int])));
                return false;
            },
            Some(m) => {
                if !tiles_can_count(&m) {
                    assert(!tiles_fit(pushed(t, try_order()[k as int])));
                    return false;
                }
            },
        }
        k += 1;
    }
    true
}

} // verus!
