//! Reading the web page of the game: the class names of the tile elements,
//! the stuck-move watch and the highest tile.
use vstd::prelude::*;

use crate::grid::{grid_of, same_grid};

verus! {

/// The pieces of `s` between the bytes `sep`, as `str::split` gives them:
/// an input without `sep` is one piece, and an empty input one empty piece.
pub open spec fn split_on(s: Seq<u8>, sep: u8) -> Seq<Seq<u8>>
    decreases s.len(),
{
    if s.len() == 0 {
        seq![Seq::empty()]
    } else {
        let pre = split_on(s.drop_last(), sep);
        if s.last() == sep {
            pre.push(Seq::empty())
        } else {
            pre.update(pre.len() - 1, pre.last().push(s.last()))
        }
    }
}

/// Every byte is an ASCII digit.
pub open spec fn all_digits(s: Seq<u8>) -> bool {
    forall|i: int| 0 <= i < s.len() ==> 48 <= #[trigger] s[i] <= 57
}

/// The number written by the decimal digits `s`.
pub open spec fn digits_value(s: Seq<u8>) -> int
    decreases s.len(),
{
    if s.len() == 0 { 0 } else { digits_value(s.drop_last()) * 10 + (s.last() - 48) }
}

/// The number that `str::parse` reads from `s` for an unsigned type wide
/// enough: an optional `+` and at least one decimal digit; `None` for
/// anything else.
pub open spec fn parsed(s: Seq<u8>) -> Option<int> {
    let d = if s.len() > 0 && s[0] == 43 { s.drop_first() } else { s };
    if d.len() > 0 && all_digits(d) { Some(digits_value(d)) } else { None }
}

/// `parsed(s)` is a number no larger than `max`.
pub open spec fn parses_within(s: Seq<u8>, max: int) -> bool {
    parsed(s) is Some && parsed(s)->0 <= max
}

/// The pieces of a line split on `sep`.
pub fn split_bytes(s: &[u8], sep: u8) -> (r: Vec<Vec<u8>>)
    ensures
        r@.len() == split_on(s@, sep).len(),
        forall|k: int| 0 <= k < r@.len() ==> #[trigger] r@[k]@ == split_on(s@, sep)[k],
{
    let mut pieces: Vec<Vec<u8>> = Vec::new();
    let mut cur: Vec<u8> = Vec::new();
    let mut i: usize = 0;
    assert(s@.take(0) =~= Seq::<u8>::empty());
    while i < s.len()
        invariant
            i <= s.len(),
            pieces@.len() + 1 == split_on(s@.take(i as int), sep).len(),
            forall|k: int| 0 <= k < pieces@.len() ==> #[trigger] pieces@[k]@ == split_on(s@.take(i as int), sep)[k],
            cur@ == split_on(s@.take(i as int), sep).last(),
        decreases s.len() - i,
    {
        proof {
            assert(s@.take(i + 1).drop_last() =~= s@.take(i as int));
        }
        let b = s[i];
        if b == sep {
            pieces.push(cur);
            cur = Vec::new();
        } else {
            cur.push(b);
        }
        i += 1;
    }
    assert(s@.take(s.len() as int) =~= s@);
    pieces.push(cur);
    pieces
}

/// A value of the digits read so far never exceeds the value of all of them.
proof fn lemma_digits_grow(s: Seq<u8>, k: int)
    requires
        all_digits(s),
        0 <= k <= s.len(),
    ensures
        0 <= digits_value(s.take(k)) <= digits_value(s),
    decreases s.len(),
{
    if k < s.len() {
        assert(all_digits(s.drop_last()));
        assert(s.drop_last().take(k) =~= s.take(k));
        lemma_digits_grow(s.drop_last(), k);
    } else {
        assert(s.take(k) =~= s);
        if s.len() > 0 {
            assert(all_digits(s.drop_last()));
            lemma_digits_grow(s.drop_last(), s.len() - 1);
            assert(s.drop_last().take(s.len() - 1) =~= s.drop_last());
        }
    }
}

/// The unsigned number written in `s` (see `parsed`), `None` when there is
/// none or it does not fit in 64 bits.
pub fn parse_number(s: &Vec<u8>) -> (r: Option<u64>)
    ensures
        r == if parses_within(s@, u64::MAX as int) { Some(parsed(s@)->0 as u64) } else { None::<u64> },
{
    let mut start: usize = 0;
    if s.len() > 0 && s[0] == 43 {
        start = 1;
    }
    let ghost d = if s@.len() > 0 && s@[0] == 43 { s@.drop_first() } else { s@ };
    assert(d =~= s@.subrange(start as int, s@.len() as int));
    if start >= s.len() {
        return None;
    }
    let mut val: u64 = 0;
    let mut i: usize = start;
    while i < s.len()
        invariant
            start <= i <= s.len(),
            d =~= s@.subrange(start as int, s@.len() as int),
            d == (if s@.len() > 0 && s@[0] == 43 { s@.drop_first() } else { s@ }),
            d.len() > 0,
            all_digits(d.take(i - start)),
            val == digits_value(d.take(i - start)),
        decreases s.len() - i,
    {
        let b = s[i];
        if b < 48 || b > 57 {
            assert(d[i - start] == b);
            assert(!all_digits(d));
            return None;
        }
        let digit = (b - 48) as u64;
        proof {
            assert(d.take(i - start + 1).drop_last() =~= d.take(i - start));
            assert(all_digits(d.take(i - start + 1)));
        }
        if val > (u64::MAX - digit) / 10 {
            proof {
                assert(digits_value(d.take(i - start + 1)) > u64::MAX);
                lemma_digits_grow_all(d, i - start + 1);
            }
            return None;
        }
        val = val * 10 + digit;
        i += 1;
    }
    assert(d.take(d.len() as int) =~= d);
    Some(val)
}

/// A number read by `parsed` is never negative.
proof fn lemma_parsed_nonneg(s: Seq<u8>)
    ensures
        parsed(s) is Some ==> parsed(s)->0 >= 0,
{
    let d = if s.len() > 0 && s[0] == 43 { s.drop_first() } else { s };
    if d.len() > 0 && all_digits(d) {
        lemma_digits_grow(d, d.len() as int);
        assert(d.take(d.len() as int) =~= d);
    }
}

/// When the digits read so far already make more than `u64::MAX`, so does
/// the whole number, or the input is not all digits.
proof fn lemma_digits_grow_all(d: Seq<u8>, k: int)
    requires
        0 <= k <= d.len(),
        all_digits(d.take(k)),
        digits_value(d.take(k)) > u64::MAX,
    ensures
        all_digits(d) ==> digits_value(d) > u64::MAX,
{
    if all_digits(d) {
        lemma_digits_grow(d, k);
    }
}

/// The fields of the class names of a tile element: field 1 is
/// `tile-<value>`, field 2 is `tile-position-<x>-<y>`.
pub open spec fn class_fields(line: Seq<u8>) -> Seq<Seq<u8>> {
    split_on(line, 32)
}

/// The pieces of the value field.
pub open spec fn value_parts(line: Seq<u8>) -> Seq<Seq<u8>> {
    split_on(class_fields(line)[1], 45)
}

/// The pieces of the position field.
pub open spec fn position_parts(line: Seq<u8>) -> Seq<Seq<u8>> {
    split_on(class_fields(line)[2], 45)
}

/// The value of the tile.
pub open spec fn tile_value(line: Seq<u8>) -> int {
    parsed(value_parts(line)[1])->0
}

/// The column of the tile, counted from 1.
pub open spec fn tile_x(line: Seq<u8>) -> int {
    parsed(position_parts(line)[2])->0
}

/// The row of the tile, counted from 1.
pub open spec fn tile_y(line: Seq<u8>) -> int {
    parsed(position_parts(line)[3])->0
}

/// The class names hold a value and a position that `str::parse` reads.
pub open spec fn tile_info_well_formed(line: Seq<u8>) -> bool {
    &&& class_fields(line).len() >= 3
    &&& value_parts(line).len() >= 2
    &&& parses_within(value_parts(line)[1], u64::MAX as int)
    &&& position_parts(line).len() >= 4
    &&& parses_within(position_parts(line)[2], usize::MAX as int)
    &&& parses_within(position_parts(line)[3], usize::MAX as int)
}

/// The class names hold a value and a position that lie in the grid.
pub open spec fn tile_info_ok(line: Seq<u8>, t: Seq<Seq<u64>>) -> bool {
    &&& tile_info_well_formed(line)
    &&& 1 <= tile_y(line) <= t.len()
    &&& 1 <= tile_x(line) <= t[tile_y(line) - 1].len()
}

/// The value, column and row (counted from 1) named by the class names of a
/// tile element, such as `tile tile-2 tile-position-1-3 tile-new`; `None`
/// when they do not name them.
pub fn tile_info(line: &String) -> (r: Option<(u64, usize, usize)>)
    ensures
        ({
            let b = vstd::utf8::encode_utf8(line@);
            match r {
                Some(info) => tile_info_well_formed(b) && info.0 == tile_value(b) && info.1 == tile_x(b)
                    && info.2 == tile_y(b),
                None => !tile_info_well_formed(b),
            }
        }),
{
    let bytes = line.as_str().as_bytes();
    let ghost b = bytes@;
    assert(b == vstd::utf8::encode_utf8(line@));
    let tmp = split_bytes(bytes, 32);
    if tmp.len() < 3 {
        return None;
    }
    // num
    let tmp_num = split_bytes(tmp[1].as_slice(), 45);
    if tmp_num.len() < 2 {
        return None;
    }
    let num = match parse_number(&tmp_num[1]) {
        Some(v) => v,
        None => {
            return None;
        },
    };
    // position
    let tmp_pos = split_bytes(tmp[2].as_slice(), 45);
    if tmp_pos.len() < 4 {
        return None;
    }
    let x = match parse_number(&tmp_pos[2]) {
        Some(v) => v,
        None => {
            return None;
        },
    };
    let y = match parse_number(&tmp_pos[3]) {
        Some(v) => v,
        None => {
            return None;
        },
    };
    assert(tmp@[2]@ == class_fields(b)[2]);
    assert(tmp_pos@[2]@ == position_parts(b)[2]);
    assert(tmp_pos@[3]@ == position_parts(b)[3]);
    proof {
        lemma_parsed_nonneg(value_parts(b)[1]);
        lemma_parsed_nonneg(position_parts(b)[2]);
        lemma_parsed_nonneg(position_parts(b)[3]);
    }
    if x > usize::MAX as u64 || y > usize::MAX as u64 {
        return None;
    }
    Some((num, x as usize, y as usize))
}

/// Reads the class names of a tile element (see `tile_info`) and writes the
/// tile's value into its cell of the grid.
pub fn get_grid_info(tiles: &mut Vec<Vec<u64>>, line: String)
    requires
        tile_info_ok(vstd::utf8::encode_utf8(line@), grid_of(old(tiles)@)),
    ensures
        ({
            let b = vstd::utf8::encode_utf8(line@);
            let t = grid_of(old(tiles)@);
            grid_of(final(tiles)@) == t.update(tile_y(b) - 1, t[tile_y(b) - 1].update(tile_x(b) - 1, tile_value(b) as u64))
        }),
{
    let ghost t = grid_of(tiles@);
    let (num, x_pos, y_pos) = tile_info(&line).unwrap();
    tiles[y_pos - 1][x_pos - 1] = num;
    assert(grid_of(tiles@) =~= t.update(y_pos - 1, t[y_pos - 1].update(x_pos - 1, num)));
}

/// One step of the watch for a stuck game: the count of readings in a row
/// that showed the grid unchanged, and whether the player gives up (more
/// than ten such readings).
pub fn stuck_step(check_stuck: u32, tiles: &Vec<Vec<u64>>, old_tiles: &Vec<Vec<u64>>) -> (r: (u32, bool))
    requires
        check_stuck < u32::MAX,
    ensures
        grid_of(tiles@) == grid_of(old_tiles@) ==> r.0 == check_stuck + 1 && r.1 == (check_stuck + 1 > 10),
        grid_of(tiles@) != grid_of(old_tiles@) ==> r == (0u32, false),
{
    if same_grid(tiles, old_tiles) {
        let next = check_stuck + 1;
        (next, next > 10)
    } else {
        (0, false)
    }
}

/// The highest of the tile values read from the page.
pub fn max_tile(tiles_vec: &Vec<i32>) -> (m: i32)
    requires
        tiles_vec.len() > 0,
    ensures
        forall|k: int| 0 <= k < tiles_vec.len() ==> #[trigger] tiles_vec[k] <= m,
        exists|k: int| 0 <= k < tiles_vec.len() && #[trigger] tiles_vec[k] == m,
{
    let mut m = tiles_vec[0];
    let mut i: usize = 1;
    while i < tiles_vec.len()
        invariant
            1 <= i <= tiles_vec.len(),
            forall|k: int| 0 <= k < i ==> #[trigger] tiles_vec[k] <= m,
            exists|k: int| 0 <= k < i && #[trigger] tiles_vec[k] == m,
        decreases tiles_vec.len() - i,
    {
        if m < tiles_vec[i] {
            m = tiles_vec[i];
        }
        i += 1;
    }
    m
}

/// The empty cells `(i, j)` of row `i` among its first `n` cells, left to
/// right.
pub open spec fn row_free(row: Seq<u64>, i: int, n: int) -> Seq<(usize, usize)>
    decreases n,
{
    if n <= 0 {
        Seq::empty()
    } else if row[n - 1] == 0 {
        row_free(row, i, n - 1).push((i as usize, (n - 1) as usize))
    } else {
        row_free(row, i, n - 1)
    }
}

/// The empty cells of the first `n` rows, row by row.
pub open spec fn free_cells(t: Seq<Seq<u64>>, n: int) -> Seq<(usize, usize)>
    decreases n,
{
    if n <= 0 { Seq::empty() } else { free_cells(t, n - 1) + row_free(t[n - 1], n - 1, t[n - 1].len() as int) }
}

/// The empty cells of the grid, row by row, as `(row, column)`.
pub fn cells_available(tiles: &Vec<Vec<u64>>) -> (r: Vec<(usize, usize)>)
    ensures
        r@ == free_cells(grid_of(tiles@), tiles@.len() as int),
{
    let ghost t = grid_of(tiles@);
    let mut cells: Vec<(usize, usize)> = Vec::new();
    let mut i: usize = 0;
    while i < tiles.len()
        invariant
            i <= tiles.len(),
            t == grid_of(tiles@),
            cells@ == free_cells(t, i as int),
        decreases tiles.len() - i,
    {
        let row = &tiles[i];
        let mut j: usize = 0;
        while j < row.len()
            invariant
                i < tiles.len(),
                row@ == t[i as int],
                j <= row.len(),
                cells@ == free_cells(t, i as int) + row_free(t[i as int], i as int, j as int),
            decreases row.len() - j,
        {
            if row[j] == 0 {
                cells.push((i, j));
                assert(cells@ =~= free_cells(t, i as int) + row_free(t[i as int], i as int, j + 1));
            }
            j += 1;
        }
        assert(cells@ =~= free_cells(t, i + 1));
        i += 1;
    }
    cells
}

} // verus!
