use vstd::prelude::*;

use crate::board::{
    board_of, cell, cells, empties, empty_cells, from_rows, lemma_board_of_cells, lemma_empties_contains,
    lemma_empties_front, lemma_from_rows_cells, lemma_row_nibbles, nibble, rotate_cells, row_of, transpose_cells,
    unpack,
};
use crate::line::{
    lemma_nibbles_of_pack, lemma_nonzero_len, lemma_pack_unpack, lemma_slide_nonneg, lemma_small_line, merge_at,
    nonzero, pack_row, packs, padded, place, slid, slide_gain, widen,
};
use crate::random::random_index;

verus! {

/// A row after a move to the left.
pub open spec fn left_row(row: u16) -> u16 {
    pack_row(slid(unpack(row)))
}

/// The points scored by moving a row to the left.
pub open spec fn row_gain(row: u16) -> int {
    slide_gain(unpack(row))
}

/// Moving the row to the left keeps every value within its place in the
/// packed row.
pub open spec fn row_fits(row: u16) -> bool {
    packs(slid(unpack(row)))
}

/// The board after a move to the left.
pub open spec fn left_board(b: u64) -> u64 {
    from_rows(left_row(row_of(b, 0)), left_row(row_of(b, 1)), left_row(row_of(b, 2)), left_row(row_of(b, 3)))
}

/// The points scored by moving the board to the left.
pub open spec fn left_gain(b: u64) -> int {
    row_gain(row_of(b, 0)) + row_gain(row_of(b, 1)) + row_gain(row_of(b, 2)) + row_gain(row_of(b, 3))
}

/// The board mirrored on its main diagonal.
pub open spec fn transposed(b: u64) -> u64 {
    board_of(transpose_cells(cells(b)))
}

/// The board turned a quarter turn clockwise.
pub open spec fn rotated(b: u64) -> u64 {
    board_of(rotate_cells(cells(b)))
}

/// The board turned `n` quarter turns clockwise.
pub open spec fn rotated_n(b: u64, n: nat) -> u64
    decreases n,
{
    if n == 0 { b } else { rotated(rotated_n(b, (n - 1) as nat)) }
}

/// A direction in which the tiles can be pushed.
#[derive(Clone, Copy, Debug, PartialEq, Eq, Structural)]
pub enum Direction {
    Left,
    Right,
    Up,
    Down,
}

/// The quarter turns clockwise that bring `dir` to the left.
pub open spec fn turns(dir: Direction) -> nat {
    match dir {
        Direction::Right => 2,
        Direction::Left => 0,
        Direction::Up => 3,
        Direction::Down => 1,
    }
}

/// The board after a move in direction `dir`: turned so that `dir` points
/// left, moved to the left, and turned back.
pub open spec fn moved_board(b: u64, dir: Direction) -> u64 {
    rotated_n(left_board(rotated_n(b, turns(dir))), ((4 - turns(dir)) % 4) as nat)
}

/// The points scored by a move in direction `dir`.
pub open spec fn move_gain(b: u64, dir: Direction) -> int {
    left_gain(rotated_n(b, turns(dir)))
}

/// A move in direction `dir` can be made: every row keeps its values within
/// its packed row and the score does not leave 64 bits.
pub open spec fn can_move(g: Game, dir: Direction) -> bool {
    &&& forall|r: int| 0 <= r < 4 ==> #[trigger] row_fits(row_of(rotated_n(g.board, turns(dir)), r))
    &&& g.score + move_gain(g.board, dir) <= u64::MAX
}

/// The game after a move in direction `dir`.
pub open spec fn moved(g: Game, dir: Direction) -> Game {
    Game { board: moved_board(g.board, dir), score: (g.score + move_gain(g.board, dir)) as u64 }
}

/// The four moves that `Game::is_end` tries, down, left, right and up in
/// turn, can all be made.
pub open spec fn can_probe(g: Game) -> bool {
    let g1 = moved(g, Direction::Down);
    let g2 = moved(g1, Direction::Left);
    let g3 = moved(g2, Direction::Right);
    can_move(g, Direction::Down) && can_move(g1, Direction::Left) && can_move(g2, Direction::Right) && can_move(g3, Direction::Up)
}

/// The game after the four moves that `Game::is_end` tries.
pub open spec fn probed(g: Game) -> Game {
    moved(moved(moved(moved(g, Direction::Down), Direction::Left), Direction::Right), Direction::Up)
}

impl Direction {
    /// The direction that a draw `k` from `0..4` stands for.
    pub fn from_draw(k: usize) -> (d: Direction)
        ensures
            d == (if k == 0 { Direction::Left } else if k == 1 { Direction::Right } else if k == 2 {
                Direction::Up
            } else {
                Direction::Down
            }),
    {
        match k {
            0 => Direction::Left,
            1 => Direction::Right,
            2 => Direction::Up,
            3 => Direction::Down,
            _ => Direction::Down,
        }
    }

    /// A direction drawn at random.
    pub fn random_dir() -> Direction {
        Direction::from_draw(random_index(4))
    }

    /// The four directions in the order in which the solver tries them.
    pub fn iterator() -> (dirs: [Direction; 4])
        ensures
            dirs@ == seq![Direction::Right, Direction::Left, Direction::Up, Direction::Down],
    {
        let dirs = [Direction::Right, Direction::Left, Direction::Up, Direction::Down];
        assert(dirs@ =~= seq![Direction::Right, Direction::Left, Direction::Up, Direction::Down]);
        dirs
    }
}

/// A game, its board packed in a `u64` (see `crate::board`) and its score.
#[derive(Clone, Copy)]
pub struct Game {
    pub board: u64,
    pub score: u64,
}

proof fn lemma_set_cell(b: u64, i: u64, num: u64, j: u64, head: u64, setter: u64, tail: u64)
    by (bit_vector)
    requires
        i < 16,
        num < 16,
        j < 16,
        head == if i != 0 { ((b >> (4 * (16 - i)) as u64) << (4 * (16 - i)) as u64) & 0xFFFF_FFFF_FFFF_FFFF } else { 0 },
        setter == (num * 0x1000_0000_0000_0000) as u64 >> (4 * i) as u64,
        tail == if i != 15 { ((b << (4 * (i + 1)) as u64) & 0xFFFF_FFFF_FFFF_FFFF) >> (4 * (i + 1)) as u64 } else { 0 },
    ensures
        ((head | setter | tail) >> (60 - 4 * j) as u64) & 0xF == if j == i { num } else { (b >> (60 - 4 * j) as u64) & 0xF },
{
}

impl Game {
    /// Clears the board and the score.
    pub fn new(&mut self)
        ensures
            final(self).board == 0,
            final(self).score == 0,
    {
        self.board = 0x0000_0000_0000_0000_u64;
        self.score = 0;
    }

    /// The number of empty cells.
    pub fn count_empty(&self) -> (n: u32)
        ensures
            n == empty_cells(self.board).len(),
    {
        let mut ret: u32 = 0;
        let mut i: u64 = 0;
        while i < 16
            invariant
                i <= 16,
                ret == empties(self.board, 16 - i, 16).len(),
            decreases 16 - i,
        {
            proof {
                lemma_empties_front(self.board, 15 - i, 16);
                lemma_empties_contains(self.board, 16 - i, 16);
                let b = self.board;
                assert((b & (0xF_u64 << (i * 4) as u64) == 0) == ((b >> (60 - 4 * (15 - i)) as u64) & 0xF == 0)) by (bit_vector)
                    requires i < 16;
            }
            if self.board & (0xF_u64 << i * 0x4) == 0 {
                ret += 1;
            }
            i += 1;
        }
        ret
    }

    /// The indices of the empty cells, in increasing order.
    pub fn empty_tile_idx(&self) -> (v: Vec<u32>)
        ensures
            v@ == empty_cells(self.board),
    {
        let mut vec: Vec<u32> = Vec::new();
        let mut i: u32 = 0;
        while i < 16
            invariant
                i <= 16,
                vec@ == empties(self.board, 0, i as int),
            decreases 16 - i,
        {
            if (self.board >> (0x4 * (16 - i - 1))) & 0xF_u64 == 0 {
                vec.push(i);
            }
            i += 1;
        }
        vec
    }

    /// The value of the highest tile.
    pub fn get_max_value(self) -> (m: u64)
        ensures
            forall|i: int| 0 <= i < 16 ==> #[trigger] cell(self.board, i) <= m,
            exists|i: int| 0 <= i < 16 && #[trigger] cell(self.board, i) == m,
    {
        let mut ret: u16 = 0;
        let rows = self.rows();
        let mut r: usize = 0;
        proof {
            lemma_row_nibbles(self.board);
        }
        while r < 4
            invariant
                r <= 4,
                forall|k: int| 0 <= k < 4 ==> rows[k] == #[trigger] row_of(self.board, k),
                forall|r: int, k: int| 0 <= r < 4 && 0 <= k < 4 ==> #[trigger] nibble(row_of(self.board, r), k) as u64 == cells(self.board)[4 * r + k],
                forall|i: int| 0 <= i < 4 * r ==> #[trigger] cell(self.board, i) <= ret,
                r == 0 ==> ret == 0,
                r > 0 ==> exists|i: int| 0 <= i < 4 * r && #[trigger] cell(self.board, i) == ret,
            decreases 4 - r,
        {
            let v = self.row2vec(rows[r]);
            let mut k: usize = 0;
            while k < 4
                invariant
                    r < 4,
                    k <= 4,
                    v@ == unpack(row_of(self.board, r as int)),
                    forall|r: int, k: int| 0 <= r < 4 && 0 <= k < 4 ==> #[trigger] nibble(row_of(self.board, r), k) as u64 == cells(self.board)[4 * r + k],
                    forall|i: int| 0 <= i < 4 * r + k ==> #[trigger] cell(self.board, i) <= ret,
                    r == 0 && k == 0 ==> ret == 0,
                    r > 0 || k > 0 ==> exists|i: int| 0 <= i < 4 * r + k && #[trigger] cell(self.board, i) == ret,
                decreases 4 - k,
            {
                let e = v[k];
                assert(e as u64 == cell(self.board, 4 * r + k));
                if ret <= e {
                    ret = e;
                }
                k += 1;
            }
            r += 1;
        }
        proof {
            if ret == 0 {
                assert(cell(self.board, 0) == ret);
            }
        }
        ret as u64
    }

    /// The value of cell `idx`.
    pub fn get_value(&mut self, idx: usize) -> (v: u64)
        requires
            idx < 16,
        ensures
            v == cell(old(self).board, idx as int),
            *final(self) == *old(self),
    {
        let tmp = self.board >> (0x4 * (16 - idx - 1));
        tmp & 0x0000_0000_0000_000F_u64
    }

    /// Writes `num` into cell `idx`; every other cell and the score keep their values.
    pub fn set_value(&mut self, idx: usize, num: u64)
        requires
            idx < 16,
            num < 16,
        ensures
            cells(final(self).board) == cells(old(self).board).update(idx as int, num),
            final(self).score == old(self).score,
    {
        let mut head: u64 = 0;
        if idx != 0 {
            head = self.board >> (0x4 * (16 - idx));
            head = head << (0x4 * (16 - idx));
            head = head & 0xFFFF_FFFF_FFFF_FFFF_u64;
        }
        let setter = num * 0x1000_0000_0000_0000_u64 >> (0x4 * (idx));
        let mut tail: u64 = 0;
        if idx != 15 {
            tail = self.board << (0x4 * (idx + 1));
            tail = tail & 0xFFFF_FFFF_FFFF_FFFF_u64;
            tail = tail >> (0x4 * (idx + 1));
        }
        let ghost b = self.board;
        self.board = head | setter | tail;
        proof {
            assert forall|j: int| 0 <= j < 16 implies #[trigger] cell(self.board, j) == if j == idx { num } else { cell(b, j) } by {
                lemma_set_cell(b, idx as u64, num, j as u64, head, setter, tail);
            }
            assert(cells(self.board) =~= cells(b).update(idx as int, num));
        }
    }

    /// Mirrors the board on its main diagonal.
    pub fn transpose(&mut self)
        ensures
            cells(final(self).board) == transpose_cells(cells(old(self).board)),
            final(self).board == transposed(old(self).board),
            final(self).score == old(self).score,
    {
        let ghost b = self.board;
        let a1 = self.board & 0xF0F0_0F0F_F0F0_0F0F_u64;
        let a2 = self.board & 0x0000_F0F0_0000_F0F0_u64;
        let a3 = self.board & 0x0F0F_0000_0F0F_0000_u64;
        let a = a1 | (a2 << 0x4 * 3) | (a3 >> 0x4 * 3);
        let b1 = a & 0xFF00_FF00_00FF_00FF_u64;
        let b2 = a & 0x00FF_00FF_0000_0000_u64;
        let b3 = a & 0x0000_0000_FF00_FF00_u64;
        self.board = b1 | (b2 >> 0x4 * 6) | (b3 << 0x4 * 6);
        proof {
            assert forall|i: int| 0 <= i < 16 implies #[trigger] cells(self.board)[i] == transpose_cells(cells(b))[i] by {
                let r = (i / 4) as u64;
                let c = (i % 4) as u64;
                let t = self.board;
                assert((t >> (60 - 4 * (4 * r + c)) as u64) & 0xF == (b >> (60 - 4 * (4 * c + r)) as u64) & 0xF) by (bit_vector)
                    requires
                        r < 4,
                        c < 4,
                        a == (b & 0xF0F0_0F0F_F0F0_0F0F_u64) | ((b & 0x0000_F0F0_0000_F0F0_u64) << 12u64)
                            | ((b & 0x0F0F_0000_0F0F_0000_u64) >> 12u64),
                        t == (a & 0xFF00_FF00_00FF_00FF_u64) | ((a & 0x00FF_00FF_0000_0000_u64) >> 24u64)
                            | ((a & 0x0000_0000_FF00_FF00_u64) << 24u64),
                ;
            }
            assert(cells(self.board) =~= transpose_cells(cells(b)));
            lemma_board_of_cells(self.board);
        }
    }

    /// The four rows of the board, top to bottom.
    pub fn rows(self) -> (r: [u16; 4])
        ensures
            forall|k: int| 0 <= k < 4 ==> r[k] == #[trigger] row_of(self.board, k),
    {
        let row1 = ((self.board & 0xFFFF_0000_0000_0000) >> 0x4 * 12) as u16;
        let row2 = ((self.board & 0x0000_FFFF_0000_0000) >> 0x4 * 8) as u16;
        let row3 = ((self.board & 0x0000_0000_FFFF_0000) >> 0x4 * 4) as u16;
        let row4 = ((self.board & 0x0000_0000_0000_FFFF) >> 0x4 * 0) as u16;
        let b = self.board;
        assert(row1 == ((b >> 48u64) & 0xFFFF) as u16 && row2 == ((b >> 32u64) & 0xFFFF) as u16
            && row3 == ((b >> 16u64) & 0xFFFF) as u16 && row4 == ((b >> 0u64) & 0xFFFF) as u16) by (bit_vector)
            requires
                row1 == ((b & 0xFFFF_0000_0000_0000) >> 48u64) as u16,
                row2 == ((b & 0x0000_FFFF_0000_0000) >> 32u64) as u16,
                row3 == ((b & 0x0000_0000_FFFF_0000) >> 16u64) as u16,
                row4 == ((b & 0x0000_0000_0000_FFFF) >> 0u64) as u16,
        ;
        [row1, row2, row3, row4]
    }

    /// The four columns of the board, left to right; the board is left
    /// transposed.
    pub fn cols(&mut self) -> (r: [u16; 4])
        ensures
            cells(final(self).board) == transpose_cells(cells(old(self).board)),
            final(self).board == transposed(old(self).board),
            final(self).score == old(self).score,
            forall|k: int| 0 <= k < 4 ==> r[k] == #[trigger] row_of(final(self).board, k),
    {
        self.transpose();
        self.rows()
    }

    /// The four cells of a row, left to right.
    pub fn row2vec(self, row: u16) -> (v: Vec<u16>)
        ensures
            v@ == unpack(row),
    {
        let v1 = (row & 0xF000) >> 0x4 * 3;
        let v2 = (row & 0x0F00) >> 0x4 * 2;
        let v3 = (row & 0x00F0) >> 0x4 * 1;
        let v4 = (row & 0x000F) >> 0x4 * 0;
        assert(v1 == (row >> 12u16) & 0xF && v2 == (row >> 8u16) & 0xF && v3 == (row >> 4u16) & 0xF
            && v4 == (row >> 0u16) & 0xF) by (bit_vector)
            requires
                v1 == (row & 0xF000) >> 12u16,
                v2 == (row & 0x0F00) >> 8u16,
                v3 == (row & 0x00F0) >> 4u16,
                v4 == (row & 0x000F) >> 0u16,
        ;
        let v = vec![v1, v2, v3, v4];
        assert(v@ =~= unpack(row));
        v
    }

    /// Packs the first four values of `vec` into a row: each is multiplied by
    /// the weight of its position (4096, 256, 16, 1) and the products are
    /// combined with `|`.
    pub fn vec2row(self, vec: Vec<u16>) -> (r: u64)
        requires
            packs(widen(vec@)),
        ensures
            r == pack_row(widen(vec@)) as u64,
    {
        let ghost v = widen(vec@);
        let mut ret: u16 = 0;
        let mut i: usize = 0;
        while i < 4
            invariant
                v == widen(vec@),
                packs(v),
                i <= 4,
                i == 0 ==> ret == 0,
                i == 1 ==> ret == (v[0] * 4096) as u16,
                i == 2 ==> ret == ((v[0] * 4096) as u16) | ((v[1] * 256) as u16),
                i == 3 ==> ret == ((v[0] * 4096) as u16) | ((v[1] * 256) as u16) | ((v[2] * 16) as u16),
                i == 4 ==> ret == pack_row(v),
            decreases 4 - i,
        {
            let e = vec[i];
            assert(v[i as int] == e as int);
            assert(e * place(i as int) <= 0xFFFF);
            let s: u16 = 0x4 * (3 - i as u16);
            let w: u16 = 0x0001 << s;
            assert(w == 1u16 << s);
            assert(w as int == place(i as int)) by {
                let ii = i as u16;
                assert(s == 4 * (3 - ii));
                assert((1u16 << (4 * (3 - ii)) as u16) == if ii == 0 { 4096u16 } else if ii == 1 { 256u16 } else if ii == 2 { 16u16 } else { 1u16 }) by (bit_vector)
                    requires ii < 4;
            }
            let prod = w * e;
            ret |= prod;
            proof {
                if i == 0 {
                    assert(0u16 | prod == prod) by (bit_vector);
                }
            }
            i += 1;
        }
        ret as u64
    }

    /// Moves one line to the left: its tiles slide together and equal
    /// neighbours merge into one tile a step higher; the points of each merge
    /// are added to the score. Returns the line packed into a row.
    pub fn row2left(&mut self, l: Vec<u16>) -> (r: u64)
        requires
            nonzero(l@).len() <= 4,
            packs(slid(l@)),
            old(self).score + slide_gain(l@) <= u64::MAX,
        ensures
            r == pack_row(slid(l@)) as u64,
            final(self).score == old(self).score + slide_gain(l@),
            final(self).board == old(self).board,
    {
        let ghost s = l@;
        let mut l = compact_line(l);
        let ghost p0 = padded(s);
        assert(widen(l@) =~= p0);
        let ghost p1 = merge_at(p0, 0);
        let ghost p2 = merge_at(p1, 1);
        let ghost p3 = merge_at(p2, 2);
        assert(p3 == slid(s));
        assert(p1[0] == p3[0]);
        assert(p2[1] == p3[1]);
        assert(p3[2] * place(2) <= 0xFFFF);
        if l[0] == l[1] {
            l.remove(0);
            self.score += l[0] as u64;
            l[0] += 1;
            l.push(0);
        }
        assert(widen(l@) =~= p1);
        if l[1] != 0 && l[1] == l[2] {
            l.remove(1);
            self.score += l[1] as u64;
            l[1] += 1;
            l.push(0);
        }
        assert(widen(l@) =~= p2);
        if l[2] != 0 && l[2] == l[3] {
            l.remove(2);
            self.score += l[2] as u64;
            l[2] += 1;
            l.push(0);
        }
        assert(widen(l@) =~= p3);
        self.vec2row(l)
    }

    /// Turns the board a quarter turn clockwise.
    pub fn rotate90deg(&mut self)
        ensures
            cells(final(self).board) == rotate_cells(cells(old(self).board)),
            final(self).board == rotated(old(self).board),
            final(self).score == old(self).score,
    {
        let ghost b = self.board;
        self.transpose();
        let ghost t = self.board;
        let mut c: usize = 0;
        let mut ret: u64 = 0;
        let rows = self.rows();
        let ghost mut outs: Seq<u16> = Seq::empty();
        while c < 4
            invariant
                c <= 4,
                outs.len() == c,
                self.board == t,
                forall|k: int| 0 <= k < 4 ==> rows[k] == #[trigger] row_of(t, k),
                forall|j: int, k: int| 0 <= j < c && 0 <= k < 4 ==> #[trigger] nibble(outs[j], k) == nibble(row_of(t, j), 3 - k),
                c == 0 ==> ret == 0,
                c == 1 ==> ret == (outs[0] as u64) << 48u64,
                c == 2 ==> ret == ((outs[0] as u64) << 48u64) | ((outs[1] as u64) << 32u64),
                c == 3 ==> ret == ((outs[0] as u64) << 48u64) | ((outs[1] as u64) << 32u64) | ((outs[2] as u64) << 16u64),
                c == 4 ==> ret == from_rows(outs[0], outs[1], outs[2], outs[3]),
            decreases 4 - c,
        {
            let mut vec = self.row2vec(rows[c]);
            reverse_line(&mut vec);
            proof {
                lemma_pack_unpack(rows[c as int]);
                assert forall|k: int| 0 <= k < 4 implies 0 <= #[trigger] widen(vec@)[k] < 16 by {
                    assert(widen(vec@)[k] == widen(unpack(rows[c as int]))[3 - k]);
                }
                lemma_nibbles_of_pack(widen(vec@));
            }
            let tmp = self.vec2row(vec);
            let ghost out = pack_row(widen(vec@));
            assert(tmp == out as u64);
            ret |= tmp << (0x4 * 4 * (3 - c));
            proof {
                if c == 0 {
                    assert(0u64 | tmp << 48u64 == tmp << 48u64) by (bit_vector);
                }
                if c == 3 {
                    assert(tmp << 0u64 == tmp) by (bit_vector);
                }
                outs = outs.push(out);
                assert forall|k: int| 0 <= k < 4 implies #[trigger] nibble(outs[c as int], k) == nibble(row_of(t, c as int), 3 - k) by {
                    assert(nibble(out, k) as int == widen(vec@)[k]);
                }
            }
            c += 1;
        }
        self.board = ret;
        proof {
            lemma_row_nibbles(t);
            lemma_from_rows_cells(outs[0], outs[1], outs[2], outs[3]);
            assert forall|i: int| 0 <= i < 16 implies #[trigger] cells(ret)[i] == rotate_cells(cells(b))[i] by {
                let r = i / 4;
                let k = i % 4;
                assert(i == 4 * r + k);
                assert(nibble(outs[r], k) == nibble(row_of(t, r), 3 - k));
                assert(cells(t)[4 * r + (3 - k)] == cells(b)[4 * (3 - k) + r]);
                if r == 0 {
                    assert(cells(ret)[k] == nibble(outs[0], k) as u64);
                } else if r == 1 {
                    assert(cells(ret)[4 + k] == nibble(outs[1], k) as u64);
                } else if r == 2 {
                    assert(cells(ret)[8 + k] == nibble(outs[2], k) as u64);
                } else {
                    assert(cells(ret)[12 + k] == nibble(outs[3], k) as u64);
                }
            }
            assert(cells(ret) =~= rotate_cells(cells(b)));
            lemma_board_of_cells(ret);
        }
    }

    /// Moves every row of the board to the left (see `row2left`).
    pub fn into_left(&mut self)
        requires
            forall|r: int| 0 <= r < 4 ==> #[trigger] row_fits(row_of(old(self).board, r)),
            old(self).score + left_gain(old(self).board) <= u64::MAX,
        ensures
            final(self).board == left_board(old(self).board),
            final(self).score == old(self).score + left_gain(old(self).board),
    {
        let ghost b = self.board;
        let ghost s0 = self.score;
        let mut c: usize = 0;
        let mut ret: u64 = 0;
        let rows = self.rows();
        let ghost mut gained: int = 0;
        proof {
            assert(row_fits(row_of(b, 0)) && row_fits(row_of(b, 1)) && row_fits(row_of(b, 2)) && row_fits(row_of(b, 3)));
            lemma_slide_nonneg(unpack(row_of(b, 0)));
            lemma_slide_nonneg(unpack(row_of(b, 1)));
            lemma_slide_nonneg(unpack(row_of(b, 2)));
            lemma_slide_nonneg(unpack(row_of(b, 3)));
        }
        while c < 4
            invariant
                c <= 4,
                self.board == b,
                forall|k: int| 0 <= k < 4 ==> rows[k] == #[trigger] row_of(b, k),
                forall|r: int| 0 <= r < 4 ==> #[trigger] row_fits(row_of(b, r)),
                forall|r: int| 0 <= r < 4 ==> #[trigger] row_gain(row_of(b, r)) >= 0,
                s0 + left_gain(b) <= u64::MAX,
                self.score == s0 + gained,
                c == 0 ==> gained == 0,
                c == 1 ==> gained == row_gain(row_of(b, 0)),
                c == 2 ==> gained == row_gain(row_of(b, 0)) + row_gain(row_of(b, 1)),
                c == 3 ==> gained == row_gain(row_of(b, 0)) + row_gain(row_of(b, 1)) + row_gain(row_of(b, 2)),
                c == 4 ==> gained == left_gain(b),
                c == 0 ==> ret == 0,
                c == 1 ==> ret == (left_row(row_of(b, 0)) as u64) << 48u64,
                c == 2 ==> ret == ((left_row(row_of(b, 0)) as u64) << 48u64) | ((left_row(row_of(b, 1)) as u64) << 32u64),
                c == 3 ==> ret == ((left_row(row_of(b, 0)) as u64) << 48u64) | ((left_row(row_of(b, 1)) as u64) << 32u64)
                    | ((left_row(row_of(b, 2)) as u64) << 16u64),
                c == 4 ==> ret == left_board(b),
            decreases 4 - c,
        {
            let line = self.row2vec(rows[c]);
            proof {
                lemma_nonzero_len(line@);
                assert(row_fits(row_of(b, c as int)));
                assert(row_gain(row_of(b, c as int)) >= 0);
            }
            let tmp = self.row2left(line);
            ret |= tmp << (0x4 * 4 * (3 - c));
            proof {
                gained = gained + row_gain(row_of(b, c as int));
                if c == 0 {
                    assert(0u64 | tmp << 48u64 == tmp << 48u64) by (bit_vector);
                }
                if c == 3 {
                    assert(tmp << 0u64 == tmp) by (bit_vector);
                }
            }
            c += 1;
        }
        self.board = ret;
    }

    /// Pushes the tiles towards `dir`: the board is turned until `dir`
    /// points left, moved to the left, and turned back.
    pub fn move_to(&mut self, dir: Direction)
        requires
            can_move(*old(self), dir),
        ensures
            *final(self) == moved(*old(self), dir),
    {
        let ghost b = self.board;
        let rot_count: u32 = match dir {
            Direction::Right => 2,
            Direction::Left => 0,
            Direction::Up => 3,
            Direction::Down => 1,
        };
        let mut i: u32 = 0;
        while i < rot_count
            invariant
                rot_count == turns(dir),
                i <= rot_count,
                self.board == rotated_n(b, i as nat),
                self.score == old(self).score,
            decreases rot_count - i,
        {
            self.rotate90deg();
            i += 1;
        }
        self.into_left();
        let back = (4 - rot_count) % 4;
        let ghost l = self.board;
        let mut j: u32 = 0;
        while j < back
            invariant
                j <= back,
                back == (4 - turns(dir)) % 4,
                self.board == rotated_n(l, j as nat),
                self.score == old(self).score + move_gain(b, dir),
            decreases back - j,
        {
            self.rotate90deg();
            j += 1;
        }
    }

    /// The tile that a draw from `0..10` stands for: 2 for a draw of 0,
    /// else 1.
    pub fn tile_for(draw: usize) -> (t: u64)
        ensures
            t == if draw == 0 { 2u64 } else { 1u64 },
    {
        match draw {
            0 => 2,
            _ => 1,
        }
    }

    /// A new tile drawn at random: 2 with one chance in ten, else 1.
    pub fn tile(self) -> (t: u64)
        ensures
            t == 1 || t == 2,
    {
        Self::tile_for(random_index(10))
    }

    /// Puts a random tile (see `tile`) into an empty cell chosen at random;
    /// a board with no empty cell is cleared instead.
    pub fn spawn_tile(&mut self)
        ensures
            final(self).score == old(self).score,
            empty_cells(old(self).board).len() == 0 ==> final(self).board == 0,
            empty_cells(old(self).board).len() > 0 ==> exists|k: int, t: u64|
                0 <= k < empty_cells(old(self).board).len() && (t == 1 || t == 2)
                && #[trigger] cells(final(self).board) == cells(old(self).board).update(empty_cells(old(self).board)[k] as int, t),
    {
        let ids = self.empty_tile_idx();
        if ids.len() != 0 {
            let i = random_index(ids.len());
            proof {
                lemma_empties_contains(self.board, 0, 16);
            }
            let t = self.tile();
            self.set_value(ids[i] as usize, t);
        } else {
            self.board = 0x0000_0000_0000_0000_u64;
        }
    }

    /// Whether the game is over: the board is full and none of the moves
    /// down, left, right and up, made in turn, changes it. When the board is
    /// full it is put back afterwards, but the points of those moves stay in
    /// the score.
    pub fn is_end(&mut self) -> (end: bool)
        requires
            empty_cells(old(self).board).len() == 0 ==> can_probe(*old(self)),
        ensures
            empty_cells(old(self).board).len() != 0 ==> !end && *final(self) == *old(self),
            empty_cells(old(self).board).len() == 0 ==> {
                &&& end == (probed(*old(self)).board == old(self).board)
                &&& final(self).board == old(self).board
                &&& final(self).score == probed(*old(self)).score
            },
    {
        let board_org = self.board;
        if self.count_empty() != 0 {
            return false;
        }
        self.move_to(Direction::Down);
        self.move_to(Direction::Left);
        self.move_to(Direction::Right);
        self.move_to(Direction::Up);
        if self.board == board_org {
            return true;
        } else {
            self.board = board_org;
            return false;
        }
    }

    /// Whether a move in direction `dir` can be made (see `can_move`): no
    /// row overflows its packed value and the score stays within 64 bits.
    pub fn can_move_to(&self, dir: Direction) -> (ok: bool)
        ensures
            ok == can_move(*self, dir),
    {
        let mut g = *self;
        let rot_count: u32 = match dir {
            Direction::Right => 2,
            Direction::Left => 0,
            Direction::Up => 3,
            Direction::Down => 1,
        };
        let mut i: u32 = 0;
        while i < rot_count
            invariant
                rot_count == turns(dir),
                i <= rot_count,
                g.board == rotated_n(self.board, i as nat),
            decreases rot_count - i,
        {
            g.rotate90deg();
            i += 1;
        }
        let b = g.board;
        let rows = g.rows();
        proof {
            lemma_small_rows(b);
        }
        let mut r: usize = 0;
        while r < 4
            invariant
                r <= 4,
                b == rotated_n(self.board, turns(dir)),
                forall|k: int| 0 <= k < 4 ==> rows[k] == #[trigger] row_of(b, k),
                forall|k: int| 0 <= k < r ==> #[trigger] row_fits(row_of(b, k)),
            decreases 4 - r,
        {
            if !row_can_slide(rows[r]) {
                return false;
            }
            r += 1;
        }
        let mut scratch = Game { board: b, score: 0 };
        scratch.into_left();
        scratch.score <= u64::MAX - self.score
    }

    /// Whether `is_end` can run on the game: a board with an empty cell
    /// needs nothing, a full one needs the moves down, left, right and up to
    /// be made in turn (see `can_probe`).
    pub fn can_check_end(&self) -> (ok: bool)
        ensures
            ok == (empty_cells(self.board).len() == 0 ==> can_probe(*self)),
    {
        if self.count_empty() != 0 {
            return true;
        }
        let mut g = *self;
        if !g.can_move_to(Direction::Down) {
            return false;
        }
        g.move_to(Direction::Down);
        if !g.can_move_to(Direction::Left) {
            return false;
        }
        g.move_to(Direction::Left);
        if !g.can_move_to(Direction::Right) {
            return false;
        }
        g.move_to(Direction::Right);
        g.can_move_to(Direction::Up)
    }
}

/// Every row of a board scores at most 45 points when moved to the left.
proof fn lemma_small_rows(b: u64)
    ensures
        forall|r: int| 0 <= r < 4 ==> 0 <= #[trigger] row_gain(row_of(b, r)) <= 45,
        0 <= left_gain(b) <= 180,
{
    assert forall|r: int| 0 <= r < 4 implies 0 <= #[trigger] row_gain(row_of(b, r)) <= 45 by {
        lemma_pack_unpack(row_of(b, r));
        lemma_small_line(unpack(row_of(b, r)));
    }
    assert(0 <= row_gain(row_of(b, 0)) <= 45);
    assert(0 <= row_gain(row_of(b, 1)) <= 45);
    assert(0 <= row_gain(row_of(b, 2)) <= 45);
    assert(0 <= row_gain(row_of(b, 3)) <= 45);
}

/// Whether moving the row to the left keeps its values within the row (see
/// `row_fits`).
fn row_can_slide(row: u16) -> (ok: bool)
    ensures
        ok == row_fits(row),
{
    let g = Game { board: 0, score: 0 };
    let line = g.row2vec(row);
    proof {
        lemma_nonzero_len(line@);
        lemma_pack_unpack(row);
        lemma_small_line(unpack(row));
    }
    let p = compact_line(line);
    assert(p[0] as int == padded(unpack(row))[0] && p[1] as int == padded(unpack(row))[1]);
    !(p[0] == p[1] && p[1] == 15)
}

/// The tiles of a line moved to its front, filled up with empty cells to
/// four cells.
fn compact_line(l: Vec<u16>) -> (p: Vec<u16>)
    requires
        nonzero(l@).len() <= 4,
    ensures
        p@.len() == 4,
        widen(p@) == padded(l@),
{
    let ghost s = l@;
    // remove zero
    let mut kept: Vec<u16> = Vec::new();
    let mut i: usize = 0;
    while i < l.len()
        invariant
            i <= l.len(),
            kept@ == nonzero(l@.take(i as int)),
        decreases l.len() - i,
    {
        proof {
            reveal(Seq::filter);
            assert(l@.take(i + 1).drop_last() =~= l@.take(i as int));
        }
        if l[i] != 0 {
            kept.push(l[i]);
        }
        i += 1;
    }
    assert(l@.take(l.len() as int) =~= l@);
    let mut l = kept;
    let pad = 4 - l.len();
    let mut k: usize = 0;
    while k < pad
        invariant
            k <= pad,
            pad == 4 - nonzero(s).len(),
            l@.len() == nonzero(s).len() + k,
            forall|j: int| 0 <= j < nonzero(s).len() ==> l@[j] == nonzero(s)[j],
            forall|j: int| nonzero(s).len() <= j < l@.len() ==> l@[j] == 0,
        decreases pad - k,
    {
        l.push(0);
        k += 1;
    }
    assert(widen(l@) =~= padded(s));
    l
}

/// Reverses a line in place.
fn reverse_line(v: &mut Vec<u16>)
    ensures
        final(v)@ == old(v)@.reverse(),
{
    let n = v.len();
    let mut i: usize = 0;
    while i < n / 2
        invariant
            n == old(v)@.len(),
            v@.len() == n,
            i <= n / 2,
            forall|j: int| 0 <= j < i ==> #[trigger] v@[j] == old(v)@[n - 1 - j],
            forall|j: int| n - i <= j < n ==> #[trigger] v@[j] == old(v)@[n - 1 - j],
            forall|j: int| i <= j < n - i ==> v@[j] == old(v)@[j],
        decreases n / 2 - i,
    {
        let a = v[i];
        let b = v[n - 1 - i];
        v.set(i, b);
        v.set(n - 1 - i, a);
        i += 1;
    }
    assert(v@ =~= old(v)@.reverse());
}

} // verus!
