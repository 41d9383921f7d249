//! One line of four cells: the values it packs into a row and the way a
//! move to the left slides and merges it.
use vstd::prelude::*;

use crate::board::{nibble, unpack};

verus! {

/// The weight of position `k` of a line inside its packed 16-bit row.
pub open spec fn place(k: int) -> int {
    if k == 0 { 4096 } else if k == 1 { 256 } else if k == 2 { 16 } else { 1 }
}

/// The values of a `u16` line as integers.
pub open spec fn widen(s: Seq<u16>) -> Seq<int> {
    s.map_values(|x: u16| x as int)
}

/// The first four values of `v` can be packed: no product with its weight
/// leaves 16 bits.
pub open spec fn packs(v: Seq<int>) -> bool {
    &&& v.len() >= 4
    &&& forall|k: int| 0 <= k < 4 ==> 0 <= #[trigger] v[k] && v[k] * place(k) <= 0xFFFF
}

/// The 16-bit row holding the first four values of `v`, each multiplied by
/// the weight of its position and the products combined with `|`.
pub open spec fn pack_row(v: Seq<int>) -> u16 {
    ((v[0] * 4096) as u16) | ((v[1] * 256) as u16) | ((v[2] * 16) as u16) | (v[3] as u16)
}

/// The non-empty cells of a line, in order.
pub open spec fn nonzero(s: Seq<u16>) -> Seq<u16> {
    s.filter(|x: u16| x != 0)
}

/// The non-empty cells moved to the front of four positions, the rest empty.
pub open spec fn padded(s: Seq<u16>) -> Seq<int> {
    Seq::new(4, |k: int| if k < nonzero(s).len() { nonzero(s)[k] as int } else { 0 })
}

/// Positions `k` and `k + 1` of the line merge: they hold the same value,
/// which must be a tile unless `k` is the first position.
pub open spec fn merges_at(p: Seq<int>, k: int) -> bool {
    p[k] == p[k + 1] && (k == 0 || p[k] != 0)
}

/// The line after the merge at position `k`, if there is one: the cell at
/// `k` is dropped, the next one moves into its place one step higher, and an
/// empty cell enters at the end.
pub open spec fn merge_at(p: Seq<int>, k: int) -> Seq<int> {
    if merges_at(p, k) {
        p.remove(k).update(k, p[k + 1] + 1).push(0)
    } else {
        p
    }
}

/// The points scored by the merge at position `k`.
pub open spec fn gain_at(p: Seq<int>, k: int) -> int {
    if merges_at(p, k) { p[k + 1] } else { 0 }
}

/// A line after it has been moved to the left: compacted, then merged at
/// the first, second and third positions in turn.
pub open spec fn slid(s: Seq<u16>) -> Seq<int> {
    merge_at(merge_at(merge_at(padded(s), 0), 1), 2)
}

/// The points scored by moving the line to the left.
pub open spec fn slide_gain(s: Seq<u16>) -> int {
    let p0 = padded(s);
    let p1 = merge_at(p0, 0);
    let p2 = merge_at(p1, 1);
    gain_at(p0, 0) + gain_at(p1, 1) + gain_at(p2, 2)
}

/// A line cannot have more non-empty cells than cells.
pub proof fn lemma_nonzero_len(s: Seq<u16>)
    ensures
        nonzero(s).len() <= s.len(),
    decreases s.len(),
{
    reveal(Seq::filter);
    if s.len() > 0 {
        lemma_nonzero_len(s.drop_last());
    }
}

/// Packing four cell values and reading the nibbles back gives the values.
pub proof fn lemma_nibbles_of_pack(v: Seq<int>)
    requires
        v.len() >= 4,
        forall|k: int| 0 <= k < 4 ==> 0 <= #[trigger] v[k] < 16,
    ensures
        packs(v),
        forall|k: int| 0 <= k < 4 ==> #[trigger] nibble(pack_row(v), k) as int == v[k],
{
    let a = v[0] as u16;
    let b = v[1] as u16;
    let c = v[2] as u16;
    let d = v[3] as u16;
    assert(v[0] < 16 && v[1] < 16 && v[2] < 16 && v[3] < 16);
    assert(pack_row(v) == (a << 12u16) | (b << 8u16) | (c << 4u16) | d) by {
        assert(((a * 4096) as u16) == a << 12u16 && ((b * 256) as u16) == b << 8u16 && ((c * 16) as u16) == c << 4u16) by (bit_vector)
            requires a < 16, b < 16, c < 16;
    }
    let x = pack_row(v);
    assert forall|k: int| 0 <= k < 4 implies #[trigger] nibble(x, k) as int == v[k] by {
        let kk = k as u16;
        assert((x >> (12 - 4 * kk) as u16) & 0xF == if kk == 0 { a } else if kk == 1 { b } else if kk == 2 { c } else { d }) by (bit_vector)
            requires
                kk < 4, a < 16, b < 16, c < 16, d < 16,
                x == (a << 12u16) | (b << 8u16) | (c << 4u16) | d,
        ;
    }
}

/// Packing the nibbles of a row gives back the row.
pub proof fn lemma_pack_unpack(row: u16)
    ensures
        packs(widen(unpack(row))),
        pack_row(widen(unpack(row))) == row,
        forall|k: int| 0 <= k < 4 ==> #[trigger] widen(unpack(row))[k] == nibble(row, k) as int,
        forall|k: int| 0 <= k < 4 ==> 0 <= #[trigger] widen(unpack(row))[k] < 16,
{
    let w = widen(unpack(row));
    assert(w[0] == nibble(row, 0) && w[1] == nibble(row, 1) && w[2] == nibble(row, 2) && w[3] == nibble(row, 3));
    let a = (row >> 12u16) & 0xF;
    let b = (row >> 8u16) & 0xF;
    let c = (row >> 4u16) & 0xF;
    let d = (row >> 0u16) & 0xF;
    assert(a < 16 && b < 16 && c < 16 && d < 16 && row == ((a * 4096) as u16) | ((b * 256) as u16) | ((c * 16) as u16) | (d as u16)) by (bit_vector)
        requires a == (row >> 12u16) & 0xF, b == (row >> 8u16) & 0xF, c == (row >> 4u16) & 0xF, d == (row >> 0u16) & 0xF;
}

/// Cells stay non-negative and no move loses points.
pub proof fn lemma_slide_nonneg(s: Seq<u16>)
    ensures
        slide_gain(s) >= 0,
        slid(s).len() == 4,
        forall|k: int| 0 <= k < 4 ==> #[trigger] slid(s)[k] >= 0,
{
    let p0 = padded(s);
    let p1 = merge_at(p0, 0);
    let p2 = merge_at(p1, 1);
    let p3 = merge_at(p2, 2);
    assert(p0.len() == 4 && forall|k: int| 0 <= k < 4 ==> #[trigger] p0[k] >= 0);
    assert(p1.len() == 4 && forall|k: int| 0 <= k < 4 ==> #[trigger] p1[k] >= 0);
    assert(p2.len() == 4 && forall|k: int| 0 <= k < 4 ==> #[trigger] p2[k] >= 0);
    assert(p3.len() == 4 && forall|k: int| 0 <= k < 4 ==> #[trigger] p3[k] >= 0);
}

/// The tiles of a line of cells below `m` are below `m`.
pub proof fn lemma_nonzero_below(s: Seq<u16>, m: int)
    requires
        forall|k: int| 0 <= k < s.len() ==> #[trigger] s[k] < m,
    ensures
        forall|k: int| 0 <= k < nonzero(s).len() ==> #[trigger] nonzero(s)[k] < m,
    decreases s.len(),
{
    reveal(Seq::filter);
    if s.len() > 0 {
        let d = s.drop_last();
        assert forall|k: int| 0 <= k < d.len() implies #[trigger] d[k] < m by {
            assert(d[k] == s[k]);
        }
        lemma_nonzero_below(d, m);
        assert(s.last() == s[s.len() - 1]);
        if s.last() != 0 {
            let n = nonzero(d);
            assert(nonzero(s) == n.push(s.last()));
            assert forall|k: int| 0 <= k < nonzero(s).len() implies #[trigger] nonzero(s)[k] < m by {
                if k < n.len() {
                    assert(nonzero(s)[k] == n[k]);
                }
            }
        } else {
            assert(nonzero(s) == nonzero(d));
        }
    }
}

/// The tiles of a line of cells below 16 are below 16.
pub proof fn lemma_nonzero_small(s: Seq<u16>)
    requires
        forall|k: int| 0 <= k < s.len() ==> #[trigger] s[k] < 16,
    ensures
        forall|k: int| 0 <= k < nonzero(s).len() ==> #[trigger] nonzero(s)[k] < 16,
{
    lemma_nonzero_below(s, 16);
}

/// For a line of cells below `m`, at most 15, the move to the left fits in
/// its row, scores at most 45 points and leaves every cell below `m + 1`.
pub proof fn lemma_line_below(s: Seq<u16>, m: int)
    requires
        1 <= m <= 15,
        forall|k: int| 0 <= k < s.len() ==> #[trigger] s[k] < m,
    ensures
        packs(slid(s)),
        0 <= slide_gain(s) <= 45,
        slid(s).len() == 4,
        forall|j: int| 0 <= j < 4 ==> 0 <= #[trigger] slid(s)[j] < m + 1,
{
    lemma_nonzero_below(s, m);
    lemma_small_line(s);
    let p0 = padded(s);
    assert(forall|k: int| 0 <= k < 4 ==> 0 <= #[trigger] p0[k] < m);
    let p1 = merge_at(p0, 0);
    let p2 = merge_at(p1, 1);
    let p3 = merge_at(p2, 2);
    assert(p1.len() == 4 && p2.len() == 4 && p3.len() == 4);
    assert(0 <= p1[0] <= m && 0 <= p1[1] < m && 0 <= p1[2] < m && 0 <= p1[3] < m);
    assert(0 <= p2[0] <= m && 0 <= p2[1] <= m && 0 <= p2[2] < m && 0 <= p2[3] < m);
    assert(0 <= p3[0] <= m && 0 <= p3[1] <= m && 0 <= p3[2] <= m && 0 <= p3[3] < m);
    assert(!(p0[0] == p0[1] && p0[1] == 15));
}

/// For a line of cells below 16, the move to the left fits in its row
/// unless its first two tiles are both 15, and it scores at most 45 points.
pub proof fn lemma_small_line(s: Seq<u16>)
    requires
        forall|k: int| 0 <= k < s.len() ==> #[trigger] s[k] < 16,
    ensures
        packs(slid(s)) == !(padded(s)[0] == padded(s)[1] && padded(s)[1] == 15),
        0 <= slide_gain(s) <= 45,
{
    lemma_nonzero_small(s);
    let p0 = padded(s);
    assert(forall|k: int| 0 <= k < 4 ==> 0 <= #[trigger] p0[k] < 16);
    let p1 = merge_at(p0, 0);
    let p2 = merge_at(p1, 1);
    let p3 = merge_at(p2, 2);
    assert(p1.len() == 4 && p2.len() == 4 && p3.len() == 4);
    assert(0 <= p1[0] <= 16 && 0 <= p1[1] < 16 && 0 <= p1[2] < 16 && 0 <= p1[3] < 16);
    assert(0 <= p2[0] <= 16 && 0 <= p2[1] <= 16 && 0 <= p2[2] < 16 && 0 <= p2[3] < 16);
    assert(0 <= p3[0] <= 16 && 0 <= p3[1] <= 16 && 0 <= p3[2] <= 16 && 0 <= p3[3] < 16);
    assert(p3[0] == p1[0]);
    if !(p0[0] == p0[1] && p0[1] == 15) {
        assert(p3[0] < 16);
        assert forall|k: int| 0 <= k < 4 implies 0 <= #[trigger] p3[k] && p3[k] * place(k) <= 0xFFFF by {
            if k == 0 {
                assert(p3[0] * 4096 <= 0xFFFF);
            } else if k == 1 {
                assert(p3[1] * 256 <= 0xFFFF);
            } else if k == 2 {
                assert(p3[2] * 16 <= 0xFFFF);
            }
        }
    } else {
        assert(p3[0] == 16);
        assert(!(p3[0] * place(0) <= 0xFFFF));
    }
}

/// The tiles of a line are not empty.
pub proof fn lemma_nonzero_tiles(s: Seq<u16>)
    ensures
        forall|k: int| 0 <= k < nonzero(s).len() ==> #[trigger] nonzero(s)[k] != 0,
    decreases s.len(),
{
    reveal(Seq::filter);
    if s.len() > 0 {
        let d = s.drop_last();
        lemma_nonzero_tiles(d);
        if s.last() != 0 {
            let n = nonzero(d);
            assert(nonzero(s) == n.push(s.last()));
            assert forall|k: int| 0 <= k < nonzero(s).len() implies #[trigger] nonzero(s)[k] != 0 by {
                if k < n.len() {
                    assert(nonzero(s)[k] == n[k]);
                }
            }
        } else {
            assert(nonzero(s) == nonzero(d));
        }
    }
}

/// The number of tiles among the first four cells.
pub open spec fn tile_count(p: Seq<int>) -> int {
    (if p[0] != 0 { 1int } else { 0int }) + (if p[1] != 0 { 1int } else { 0int }) + (if p[2] != 0 { 1int } else {
        0int
    }) + (if p[3] != 0 { 1int } else { 0int })
}

/// A line without an empty cell keeps all its cells as tiles; a line with
/// one has fewer tiles than cells.
pub proof fn lemma_nonzero_full(s: Seq<u16>)
    ensures
        (forall|k: int| 0 <= k < s.len() ==> #[trigger] s[k] != 0) ==> nonzero(s) == s,
        (exists|k: int| 0 <= k < s.len() && #[trigger] s[k] == 0) ==> nonzero(s).len() < s.len(),
    decreases s.len(),
{
    reveal(Seq::filter);
    if s.len() > 0 {
        let d = s.drop_last();
        lemma_nonzero_full(d);
        lemma_nonzero_len(d);
        if forall|k: int| 0 <= k < s.len() ==> #[trigger] s[k] != 0 {
            assert forall|k: int| 0 <= k < d.len() implies #[trigger] d[k] != 0 by {
                assert(d[k] == s[k]);
            }
            assert(s.last() == s[s.len() - 1]);
            assert(nonzero(s) =~= s);
        }
        if exists|k: int| 0 <= k < s.len() && #[trigger] s[k] == 0 {
            let k = choose|k: int| 0 <= k < s.len() && #[trigger] s[k] == 0;
            if k < s.len() - 1 {
                assert(d[k] == 0);
            }
        }
    } else {
        assert(nonzero(s) =~= s);
    }
}

/// A line of four cells below 16 stays as it is when moved to the left
/// exactly when it is full and no two neighbours are equal; otherwise its
/// last cell ends up empty. Its cells stay at most 16.
pub proof fn lemma_full_line(s: Seq<u16>)
    requires
        s.len() == 4,
        forall|k: int| 0 <= k < 4 ==> #[trigger] s[k] < 16,
    ensures
        forall|k: int| 0 <= k < 4 ==> 0 <= #[trigger] slid(s)[k] <= 16,
        slid(s)[3] <= 15,
        (slid(s)[3] != 0) == (s[0] != 0 && s[1] != 0 && s[2] != 0 && s[3] != 0 && s[0] != s[1] && s[1] != s[2]
            && s[2] != s[3]),
        slid(s)[3] != 0 ==> slid(s) == widen(s),
{
    lemma_nonzero_small(s);
    lemma_nonzero_full(s);
    lemma_nonzero_len(s);
    let p0 = padded(s);
    let p1 = merge_at(p0, 0);
    let p2 = merge_at(p1, 1);
    let p3 = merge_at(p2, 2);
    assert(forall|k: int| 0 <= k < 4 ==> 0 <= #[trigger] p0[k] < 16);
    assert(p1.len() == 4 && p2.len() == 4 && p3.len() == 4);
    assert(0 <= p3[0] <= 16 && 0 <= p3[1] <= 16 && 0 <= p3[2] <= 16 && 0 <= p3[3] < 16);
    if s[0] != 0 && s[1] != 0 && s[2] != 0 && s[3] != 0 {
        assert(nonzero(s) == s);
        assert(p0 =~= widen(s));
        if s[0] != s[1] && s[1] != s[2] && s[2] != s[3] {
            assert(p3 =~= widen(s));
        } else {
            assert(p3[3] == 0);
        }
    } else {
        assert(s[0] == 0 || s[1] == 0 || s[2] == 0 || s[3] == 0);
        assert(exists|k: int| 0 <= k < s.len() && #[trigger] s[k] == 0);
        assert(p0[3] == 0);
        assert(p3[3] == 0);
    }
}

/// The last nibble of a packed row is its last value, when the values before
/// it are at most 16 and it is below 16.
pub proof fn lemma_last_nibble(v: Seq<int>)
    requires
        v.len() >= 4,
        0 <= v[0] <= 16,
        0 <= v[1] <= 16,
        0 <= v[2] <= 16,
        0 <= v[3] < 16,
    ensures
        nibble(pack_row(v), 3) as int == v[3],
{
    let a = v[0] as u16;
    let b = v[1] as u16;
    let c = v[2] as u16;
    let d = v[3] as u16;
    assert((((a * 4096) as u16 | (b * 256) as u16 | (c * 16) as u16 | d) >> 0u16) & 0xF == d) by (bit_vector)
        requires a <= 16, b <= 16, c <= 16, d < 16;
}

} // verus!
