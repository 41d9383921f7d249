//! The packed board: sixteen 4-bit cells in a `u64`, row by row, the
//! top-left cell in the most significant nibble.
use vstd::prelude::*;

verus! {

/// The value held by cell `i` (`0 <= i < 16`); cell `4 * r + c` is the cell
/// in row `r` and column `c`.
pub open spec fn cell(board: u64, i: int) -> u64 {
    (board >> ((60 - 4 * i) as u64)) & 0xF
}

/// The sixteen cells of a board, in reading order.
pub open spec fn cells(board: u64) -> Seq<u64> {
    Seq::new(16, |i: int| cell(board, i))
}

/// A sequence that can be the cells of a board.
pub open spec fn is_cells(c: Seq<u64>) -> bool {
    c.len() == 16 && forall|i: int| 0 <= i < 16 ==> #[trigger] c[i] < 16
}

/// The board whose cells are `c`.
pub open spec fn board_of(c: Seq<u64>) -> u64 {
    (c[0] << 60u64) | (c[1] << 56u64) | (c[2] << 52u64) | (c[3] << 48u64)
        | (c[4] << 44u64) | (c[5] << 40u64) | (c[6] << 36u64) | (c[7] << 32u64)
        | (c[8] << 28u64) | (c[9] << 24u64) | (c[10] << 20u64) | (c[11] << 16u64)
        | (c[12] << 12u64) | (c[13] << 8u64) | (c[14] << 4u64) | c[15]
}

/// The cells of the board mirrored on its main diagonal.
pub open spec fn transpose_cells(c: Seq<u64>) -> Seq<u64> {
    Seq::new(16, |i: int| c[4 * (i % 4) + i / 4])
}

/// The cells of the board turned a quarter turn clockwise.
pub open spec fn rotate_cells(c: Seq<u64>) -> Seq<u64> {
    Seq::new(16, |i: int| c[4 * (3 - i % 4) + i / 4])
}

/// Row `r` (`0 <= r < 4`) of a board as a 16-bit value, its left cell in the
/// most significant nibble.
pub open spec fn row_of(board: u64, r: int) -> u16 {
    ((board >> ((48 - 16 * r) as u64)) & 0xFFFF) as u16
}

/// The board whose rows, top to bottom, are `a`, `b`, `c` and `d`.
pub open spec fn from_rows(a: u16, b: u16, c: u16, d: u16) -> u64 {
    ((a as u64) << 48u64) | ((b as u64) << 32u64) | ((c as u64) << 16u64) | (d as u64)
}

/// Nibble `k` (`0 <= k < 4`) of a row, counted from the left.
pub open spec fn nibble(row: u16, k: int) -> u16 {
    (row >> ((12 - 4 * k) as u16)) & 0xF
}

/// The four nibbles of a row, left to right.
pub open spec fn unpack(row: u16) -> Seq<u16> {
    seq![nibble(row, 0), nibble(row, 1), nibble(row, 2), nibble(row, 3)]
}

spec fn pick(j: u64, c: Seq<u64>) -> u64 {
    if j == 0 { c[0] } else if j == 1 { c[1] } else if j == 2 { c[2] } else if j == 3 { c[3] }
    else if j == 4 { c[4] } else if j == 5 { c[5] } else if j == 6 { c[6] } else if j == 7 { c[7] }
    else if j == 8 { c[8] } else if j == 9 { c[9] } else if j == 10 { c[10] } else if j == 11 { c[11] }
    else if j == 12 { c[12] } else if j == 13 { c[13] } else if j == 14 { c[14] } else { c[15] }
}

proof fn lemma_board_of_bits(
    x0: u64, x1: u64, x2: u64, x3: u64, x4: u64, x5: u64, x6: u64, x7: u64,
    x8: u64, x9: u64, x10: u64, x11: u64, x12: u64, x13: u64, x14: u64, x15: u64,
    j: u64,
)
    by (bit_vector)
    requires
        x0 < 16, x1 < 16, x2 < 16, x3 < 16, x4 < 16, x5 < 16, x6 < 16, x7 < 16,
        x8 < 16, x9 < 16, x10 < 16, x11 < 16, x12 < 16, x13 < 16, x14 < 16, x15 < 16,
        j < 16,
    ensures
        ((((x0 << 60u64) | (x1 << 56u64) | (x2 << 52u64) | (x3 << 48u64)
        | (x4 << 44u64) | (x5 << 40u64) | (x6 << 36u64) | (x7 << 32u64)
        | (x8 << 28u64) | (x9 << 24u64) | (x10 << 20u64) | (x11 << 16u64)
        | (x12 << 12u64) | (x13 << 8u64) | (x14 << 4u64) | x15) >> (60 - 4 * j) as u64) & 0xF)
        == if j == 0 { x0 } else if j == 1 { x1 } else if j == 2 { x2 } else if j == 3 { x3 }
            else if j == 4 { x4 } else if j == 5 { x5 } else if j == 6 { x6 } else if j == 7 { x7 }
            else if j == 8 { x8 } else if j == 9 { x9 } else if j == 10 { x10 } else if j == 11 { x11 }
            else if j == 12 { x12 } else if j == 13 { x13 } else if j == 14 { x14 } else { x15 },
{
}

proof fn lemma_cells_bits(b: u64)
    by (bit_vector)
    ensures
        b == ((((b >> 60u64) & 0xF) << 60u64) | (((b >> 56u64) & 0xF) << 56u64)
            | (((b >> 52u64) & 0xF) << 52u64) | (((b >> 48u64) & 0xF) << 48u64)
            | (((b >> 44u64) & 0xF) << 44u64) | (((b >> 40u64) & 0xF) << 40u64)
            | (((b >> 36u64) & 0xF) << 36u64) | (((b >> 32u64) & 0xF) << 32u64)
            | (((b >> 28u64) & 0xF) << 28u64) | (((b >> 24u64) & 0xF) << 24u64)
            | (((b >> 20u64) & 0xF) << 20u64) | (((b >> 16u64) & 0xF) << 16u64)
            | (((b >> 12u64) & 0xF) << 12u64) | (((b >> 8u64) & 0xF) << 8u64)
            | (((b >> 4u64) & 0xF) << 4u64) | ((b >> 0u64) & 0xF)),
{
}

/// The cells of `board_of(c)` are `c`.
pub proof fn lemma_cells_of_board_of(c: Seq<u64>)
    requires
        is_cells(c),
    ensures
        cells(board_of(c)) == c,
{
    assert forall|i: int| 0 <= i < 16 implies #[trigger] cells(board_of(c))[i] == c[i] by {
        lemma_board_of_bits(
            c[0], c[1], c[2], c[3], c[4], c[5], c[6], c[7],
            c[8], c[9], c[10], c[11], c[12], c[13], c[14], c[15], i as u64,
        );
        assert(c[i] == pick(i as u64, c));
    }
    assert(cells(board_of(c)) =~= c);
}

/// A board is the board of its cells.
pub proof fn lemma_board_of_cells(b: u64)
    ensures
        is_cells(cells(b)),
        board_of(cells(b)) == b,
{
    lemma_cells_bits(b);
    assert forall|i: int| 0 <= i < 16 implies #[trigger] cells(b)[i] < 16 by {
        let s = (60 - 4 * i) as u64;
        assert((b >> s) & 0xF < 16) by (bit_vector);
    }
}

/// The nibbles of row `r` are the cells of row `r`.
pub proof fn lemma_row_nibbles(b: u64)
    ensures
        forall|r: int, k: int| 0 <= r < 4 && 0 <= k < 4 ==> #[trigger] nibble(row_of(b, r), k) as u64 == cells(b)[4 * r + k],
{
    assert forall|r: int, k: int| 0 <= r < 4 && 0 <= k < 4 implies #[trigger] nibble(row_of(b, r), k) as u64 == cells(b)[4 * r + k] by {
        let rr = r as u64;
        let kk = k as u64;
        assert(((((b >> (48 - 16 * rr) as u64) & 0xFFFF) as u16 >> (12 - 4 * kk) as u16) & 0xF) as u64
            == (b >> (60 - 4 * (4 * rr + kk)) as u64) & 0xF) by (bit_vector)
            requires rr < 4, kk < 4;
    }
}

proof fn lemma_from_rows_bits(a: u16, b: u16, c: u16, d: u16, x: u64, kk: u64)
    by (bit_vector)
    requires
        kk < 4,
        x == ((a as u64) << 48u64) | ((b as u64) << 32u64) | ((c as u64) << 16u64) | (d as u64),
    ensures
        (x >> (60 - 4 * kk) as u64) & 0xF == ((a >> (12 - 4 * kk) as u16) & 0xF) as u64,
        (x >> (60 - 4 * (4 + kk)) as u64) & 0xF == ((b >> (12 - 4 * kk) as u16) & 0xF) as u64,
        (x >> (60 - 4 * (8 + kk)) as u64) & 0xF == ((c >> (12 - 4 * kk) as u16) & 0xF) as u64,
        (x >> (60 - 4 * (12 + kk)) as u64) & 0xF == ((d >> (12 - 4 * kk) as u16) & 0xF) as u64,
{
}

/// The cells of the board built from four rows are the nibbles of those rows.
pub proof fn lemma_from_rows_cells(a: u16, b: u16, c: u16, d: u16)
    ensures
        forall|k: int| 0 <= k < 4 ==> cells(from_rows(a, b, c, d))[k] == #[trigger] nibble(a, k) as u64,
        forall|k: int| 0 <= k < 4 ==> cells(from_rows(a, b, c, d))[4 + k] == #[trigger] nibble(b, k) as u64,
        forall|k: int| 0 <= k < 4 ==> cells(from_rows(a, b, c, d))[8 + k] == #[trigger] nibble(c, k) as u64,
        forall|k: int| 0 <= k < 4 ==> cells(from_rows(a, b, c, d))[12 + k] == #[trigger] nibble(d, k) as u64,
{
    let x = from_rows(a, b, c, d);
    assert forall|k: int| 0 <= k < 4 implies cells(x)[k] == #[trigger] nibble(a, k) as u64 by {
        lemma_from_rows_bits(a, b, c, d, x, k as u64);
    }
    assert forall|k: int| 0 <= k < 4 implies cells(x)[4 + k] == #[trigger] nibble(b, k) as u64 by {
        lemma_from_rows_bits(a, b, c, d, x, k as u64);
    }
    assert forall|k: int| 0 <= k < 4 implies cells(x)[8 + k] == #[trigger] nibble(c, k) as u64 by {
        lemma_from_rows_bits(a, b, c, d, x, k as u64);
    }
    assert forall|k: int| 0 <= k < 4 implies cells(x)[12 + k] == #[trigger] nibble(d, k) as u64 by {
        lemma_from_rows_bits(a, b, c, d, x, k as u64);
    }
}

/// The indices in `lo..hi` of the empty cells, in increasing order.
pub open spec fn empties(b: u64, lo: int, hi: int) -> Seq<u32>
    decreases hi - lo,
{
    if hi <= lo {
        Seq::empty()
    } else if cell(b, hi - 1) == 0 {
        empties(b, lo, hi - 1).push((hi - 1) as u32)
    } else {
        empties(b, lo, hi - 1)
    }
}

/// The indices of the empty cells of a board, in increasing order.
pub open spec fn empty_cells(b: u64) -> Seq<u32> {
    empties(b, 0, 16)
}

/// Peeling the lowest index off `empties`.
pub proof fn lemma_empties_front(b: u64, lo: int, hi: int)
    requires
        0 <= lo < hi <= 16,
    ensures
        empties(b, lo, hi) == if cell(b, lo) == 0 { seq![lo as u32] + empties(b, lo + 1, hi) } else { empties(b, lo + 1, hi) },
    decreases hi - lo,
{
    if hi - 1 > lo {
        lemma_empties_front(b, lo, hi - 1);
        assert(empties(b, lo + 1, hi) == if cell(b, hi - 1) == 0 {
            empties(b, lo + 1, hi - 1).push((hi - 1) as u32)
        } else {
            empties(b, lo + 1, hi - 1)
        });
        if cell(b, lo) == 0 {
            assert(empties(b, lo, hi) =~= seq![lo as u32] + empties(b, lo + 1, hi));
        } else {
            assert(empties(b, lo, hi) =~= empties(b, lo + 1, hi));
        }
    } else {
        assert(empties(b, lo, lo) =~= Seq::<u32>::empty());
        assert(empties(b, lo + 1, hi) =~= Seq::<u32>::empty());
        if cell(b, lo) == 0 {
            assert(empties(b, lo, hi) =~= seq![lo as u32] + empties(b, lo + 1, hi));
        }
    }
}

/// `empties` lists, in increasing order, exactly the indices in range whose
/// cell is empty.
pub proof fn lemma_empties_contains(b: u64, lo: int, hi: int)
    requires
        0 <= lo,
        hi <= 16,
    ensures
        forall|k: int| 0 <= k < empties(b, lo, hi).len() ==> lo <= #[trigger] empties(b, lo, hi)[k] < hi
            && cell(b, empties(b, lo, hi)[k] as int) == 0,
        forall|k: int, m: int| 0 <= k < m < empties(b, lo, hi).len() ==> #[trigger] empties(b, lo, hi)[k] < #[trigger] empties(b, lo, hi)[m],
        forall|j: int| lo <= j < hi && cell(b, j) == 0 ==> #[trigger] empties(b, lo, hi).contains(j as u32),
        lo <= hi ==> empties(b, lo, hi).len() <= hi - lo,
    decreases hi - lo,
{
    if hi > lo {
        lemma_empties_contains(b, lo, hi - 1);
        let prev = empties(b, lo, hi - 1);
        let cur = empties(b, lo, hi);
        assert forall|j: int| lo <= j < hi && cell(b, j) == 0 implies #[trigger] cur.contains(j as u32) by {
            if j < hi - 1 {
                assert(prev.contains(j as u32));
                let i = choose|i: int| 0 <= i < prev.len() && prev[i] == j as u32;
                assert(cur[i] == j as u32);
            } else {
                assert(cur[prev.len() as int] == j as u32);
            }
        }
    }
}

} // verus!
