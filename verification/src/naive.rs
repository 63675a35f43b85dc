//! Readable reference implementation on a 4x4 array, against which the
//! bitboard moves are checked.

use vstd::prelude::*;
use vstd::arithmetic::power2::{lemma2_to64, lemma_pow2_strictly_increases};
use vstd::bits::lemma_u32_shl_is_mul;
use crate::board::{
    lemma_compact_len, lemma_merge_pairs_len, lemma_score_upto, score_upto,
    all_at_most, cell, cells, compact, lemma_line_bounded,
    lemma_slide_bounded, line, line_index, line_of, merge_pairs, merge_score, move_score,
    moved_cells, packed, pos_of, slid_cells, slide, slide_score, Direction,
};

verus! {

/// A 4x4 grid of exponents, `g[row][col]`.
pub type Grid = [[u8; 4]; 4];

/// The 16 cells of a grid, in row-major order.
pub open spec fn grid_cells(g: Grid) -> Seq<u8> {
    Seq::new(16, |i: int| g[i / 4][i % 4])
}

/// The grid holding the cells of a board.
pub fn board_to_grid(board: u64) -> (g: Grid)
    ensures
        grid_cells(g) == cells(board),
{
    let mut g = [[0u8; 4]; 4];
    let mut r: usize = 0;
    while r < 4
        invariant
            r <= 4,
            forall|i: int| 0 <= i < 16 && i / 4 < r ==> #[trigger] grid_cells(g)[i] == cell(board, i),
        decreases 4 - r,
    {
        let mut row = [0u8; 4];
        let mut c: usize = 0;
        while c < 4
            invariant
                r < 4,
                c <= 4,
                forall|j: int| 0 <= j < c ==> #[trigger] row[j] == cell(board, 4 * r + j),
            decreases 4 - c,
        {
            let i = r * 4 + c;
            let s: u64 = (i * 4) as u64;
            row[c] = ((board >> s) & 0xF) as u8;
            c += 1;
        }
        let ghost g_old = g;
        g[r] = row;
        assert forall|i: int| 0 <= i < 16 && i / 4 < r + 1 implies #[trigger] grid_cells(g)[i] == cell(board, i) by {
            if i / 4 == r {
                assert(i == 4 * r + i % 4);
                assert(g[r as int] == row);
                assert(grid_cells(g)[i] == g[r as int][i % 4]);
                assert(row[i % 4] == cell(board, 4 * r + i % 4));
            } else {
                assert(g[i / 4] == g_old[i / 4]);
                assert(grid_cells(g_old)[i] == cell(board, i));
            }
        }
        r += 1;
    }
    assert(grid_cells(g) =~= cells(board));
    g
}

proof fn lemma_or_into_zero_nibble(b: u64, v: u64, i: u64, j: u64)
    by (bit_vector)
    requires
        i < 16,
        j < 16,
        v < 16,
        (b >> (i * 4) as u64) & 0xF == 0,
    ensures
        ((b | (v << (i * 4) as u64)) >> (j * 4) as u64) & 0xF == if i == j {
            v
        } else {
            (b >> (j * 4) as u64) & 0xF
        },
{
}

proof fn lemma_zero_board(i: u64)
    by (bit_vector)
    requires
        i < 16,
    ensures
        (0u64 >> (i * 4) as u64) & 0xF == 0,
{
}

/// The board holding the cells of a grid, each kept to its low four bits.
pub fn grid_to_board(g: Grid) -> (board: u64)
    ensures
        cells(board) == grid_cells(g).map_values(|e: u8| e & 0xF),
{
    let mut board = 0u64;
    let mut r: usize = 0;
    assert forall|i: int| 0 <= i < 16 implies #[trigger] cell(0u64, i) == 0 by {
        lemma_zero_board(i as u64);
    }
    while r < 4
        invariant
            r <= 4,
            forall|i: int| 0 <= i < 16 ==> #[trigger] cell(board, i) == if i / 4 < r {
                g[i / 4][i % 4] & 0xF
            } else {
                0
            },
        decreases 4 - r,
    {
        let mut c: usize = 0;
        while c < 4
            invariant
                r < 4,
                c <= 4,
                forall|i: int| 0 <= i < 16 ==> #[trigger] cell(board, i) == if i / 4 < r || (i / 4
                    == r && i % 4 < c) {
                    g[i / 4][i % 4] & 0xF
                } else {
                    0
                },
            decreases 4 - c,
        {
            let i = r * 4 + c;
            let s: u64 = (i * 4) as u64;
            let gv = g[r][c];
            let v: u64 = (gv as u64) & 0xF;
            let old_board = board;
            board = board | (v << s);
            proof {
                assert(v < 16) by (bit_vector)
                    requires v == (gv as u64) & 0xF;
                assert((v as u8) == gv & 0xF) by (bit_vector)
                    requires v == (gv as u64) & 0xF;
                assert(cell(old_board, i as int) == 0);
                assert((old_board >> s) & 0xF == 0) by (bit_vector)
                    requires ((old_board >> s) & 0xFu64) as u8 == 0;
                assert forall|j: int| 0 <= j < 16 implies #[trigger] cell(board, j) == if j / 4 < r
                    || (j / 4 == r && j % 4 < c + 1) {
                    g[j / 4][j % 4] & 0xF
                } else {
                    0
                } by {
                    lemma_or_into_zero_nibble(old_board, v, i as u64, j as u64);
                    if j == i {
                        assert(j / 4 == r && j % 4 == c);
                        assert(s == (j * 4) as u64);
                        assert(((board >> s) & 0xF) == v);
                        assert(cell(board, j) == v as u8);
                        assert(g[j / 4][j % 4] == gv);
                    } else {
                        assert(!(j / 4 == r && j % 4 == c));
                        assert(cell(board, j) == cell(old_board, j));
                    }
                }
            }
            c += 1;
        }
        r += 1;
    }
    assert(cells(board) =~= grid_cells(g).map_values(|e: u8| e & 0xF));
    board
}

/// Slides a line toward index 0 and returns the points won.
fn merge_line(line: [u8; 4]) -> (res: ([u8; 4], u32))
    requires
        slide_score(line@) <= u32::MAX,
    ensures
        res.0@ == slide(line@),
        res.1 == slide_score(line@),
{
    let ghost l = line@;
    let mut compacted: Vec<u8> = Vec::new();
    let mut j: usize = 0;
    while j < 4
        invariant
            j <= 4,
            l == line@,
            compacted@ == compact(l.take(j as int)),
        decreases 4 - j,
    {
        assert(l.take(j + 1).drop_last() =~= l.take(j as int));
        if line[j] != 0 {
            compacted.push(line[j]);
        }
        j += 1;
    }
    assert(l.take(4) =~= l);
    let ghost cp = compact(l);
    let n = compacted.len();
    let mut merged: Vec<u8> = Vec::new();
    let mut score: u32 = 0;
    let mut i: usize = 0;
    assert(cp.subrange(0, n as int) =~= cp);
    assert(merged@ + merge_pairs(cp) =~= merge_pairs(cp));
    while i < n
        invariant
            i <= n,
            n == cp.len(),
            compacted@ == cp,
            merged@ + merge_pairs(cp.subrange(i as int, n as int)) == merge_pairs(cp),
            score + merge_score(cp.subrange(i as int, n as int)) == merge_score(cp),
            merge_score(cp) <= u32::MAX,
        decreases n - i,
    {
        let ghost t = cp.subrange(i as int, n as int);
        if i + 1 < n && compacted[i] == compacted[i + 1] {
            assert(t.subrange(2, t.len() as int) =~= cp.subrange(i + 2, n as int));
            let ghost e = (t[0] + 1) as nat;
            proof {
                lemma2_to64();
                if e >= 32 {
                    lemma_pow2_strictly_increases(32, e);
                }
            }
            let exp = compacted[i] + 1;
            proof {
                lemma_u32_shl_is_mul(1u32, exp as u32);
            }
            let ghost before = merged@;
            merged.push(exp);
            score += 1u32 << exp;
            assert(before.push(exp) + merge_pairs(cp.subrange(i + 2, n as int)) =~= before + (
            seq![exp] + merge_pairs(cp.subrange(i + 2, n as int))));
            i += 2;
        } else {
            assert(t.drop_first() =~= cp.subrange(i + 1, n as int));
            let ghost before = merged@;
            merged.push(compacted[i]);
            assert(before.push(t[0]) + merge_pairs(cp.subrange(i + 1, n as int)) =~= before + (
            seq![t[0]] + merge_pairs(cp.subrange(i + 1, n as int))));
            i += 1;
        }
    }
    assert(cp.subrange(n as int, n as int) =~= Seq::<u8>::empty());
    assert(merged@ + Seq::<u8>::empty() =~= merged@);
    proof {
        lemma_compact_len(l);
        lemma_merge_pairs_len(cp);
    }
    let ghost m = merged@;
    while merged.len() < 4
        invariant
            m == merge_pairs(cp),
            m.len() <= merged@.len() <= 4,
            merged@.take(m.len() as int) == m,
            forall|k: int| m.len() <= k < merged@.len() ==> merged@[k] == 0,
        decreases 4 - merged.len(),
    {
        let ghost before = merged@;
        merged.push(0);
        assert(merged@.take(m.len() as int) =~= before.take(m.len() as int));
    }
    let out = [merged[0], merged[1], merged[2], merged[3]];
    assert(out@ =~= slide(l));
    (out, score)
}

/// Row and column of position `j` of line `k` when tiles slide in `dir`.
fn position(dir: Direction, k: usize, j: usize) -> (rc: (usize, usize))
    requires
        k < 4,
        j < 4,
    ensures
        rc.0 < 4,
        rc.1 < 4,
        4 * rc.0 + rc.1 == line_index(dir, k as int, j as int),
{
    match dir {
        Direction::Left => (k, j),
        Direction::Right => (k, 3 - j),
        Direction::Up => (j, k),
        Direction::Down => (3 - j, k),
    }
}

/// Applies a move to the grid (deterministic, no tile spawns). Returns the
/// new grid and the points won.
pub fn apply_move(grid: Grid, dir: Direction) -> (res: (Grid, u32))
    requires
        move_score(grid_cells(grid), dir) <= u32::MAX,
    ensures
        grid_cells(res.0) == slid_cells(grid_cells(grid), dir),
        res.1 == move_score(grid_cells(grid), dir),
{
    let ghost cs = grid_cells(grid);
    proof {
        lemma_score_upto(cs, dir);
    }
    let mut result = grid;
    let mut score: u32 = 0;
    let mut k: usize = 0;
    while k < 4
        invariant
            k <= 4,
            cs == grid_cells(grid),
            score == score_upto(cs, dir, k as int),
            score_upto(cs, dir, 4) == move_score(cs, dir),
            forall|r: int| 0 <= r <= 4 ==> #[trigger] score_upto(cs, dir, r) <= move_score(cs, dir),
            move_score(cs, dir) <= u32::MAX,
            forall|i: int|
                0 <= i < 16 ==> #[trigger] grid_cells(result)[i] == if line_of(dir, i) < k {
                    slid_cells(cs, dir)[i]
                } else {
                    cs[i]
                },
        decreases 4 - k,
    {
        let mut cells_in = [0u8; 4];
        let mut j: usize = 0;
        while j < 4
            invariant
                k < 4,
                j <= 4,
                forall|i: int|
                    0 <= i < 16 ==> #[trigger] grid_cells(result)[i] == if line_of(dir, i) < k {
                        slid_cells(cs, dir)[i]
                    } else {
                        cs[i]
                    },
                forall|q: int| 0 <= q < j ==> #[trigger] cells_in[q] == line(cs, dir, k as int)[q],
            decreases 4 - j,
        {
            let (r, c) = position(dir, k, j);
            let ghost i = line_index(dir, k as int, j as int);
            assert(line_of(dir, i) == k && grid_cells(result)[i] == result[r as int][c as int]);
            cells_in[j] = result[r][c];
            j += 1;
        }
        assert(cells_in@ =~= line(cs, dir, k as int));
        assert(slide_score(line(cs, dir, k as int)) <= u32::MAX);
        let (merged, s) = merge_line(cells_in);
        assert(score_upto(cs, dir, k + 1) == score + s);
        assert(score_upto(cs, dir, k + 1) <= move_score(cs, dir));
        score += s;
        let mut j: usize = 0;
        while j < 4
            invariant
                k < 4,
                j <= 4,
                merged@ == slide(line(cs, dir, k as int)),
                forall|i: int|
                    0 <= i < 16 ==> #[trigger] grid_cells(result)[i] == if line_of(dir, i) < k || (
                    line_of(dir, i) == k && pos_of(dir, i) < j) {
                        slid_cells(cs, dir)[i]
                    } else {
                        cs[i]
                    },
            decreases 4 - j,
        {
            let (r, c) = position(dir, k, j);
            let ghost before = result;
            let mut row = result[r];
            row[c] = merged[j];
            result[r] = row;
            assert forall|i: int| 0 <= i < 16 implies #[trigger] grid_cells(result)[i] == if line_of(dir, i) < k || (
            line_of(dir, i) == k && pos_of(dir, i) < j + 1) {
                slid_cells(cs, dir)[i]
            } else {
                cs[i]
            } by {
                if i == 4 * r + c {
                    assert(line_of(dir, i) == k && pos_of(dir, i) == j);
                } else {
                    assert(grid_cells(result)[i] == grid_cells(before)[i]);
                    assert(!(line_of(dir, i) == k && pos_of(dir, i) == j));
                }
            }
            j += 1;
        }
        k += 1;
    }
    assert(grid_cells(result) =~= slid_cells(cs, dir));
    (result, score)
}

/// Every line of the move creates tiles of exponent 15 at most: no two
/// tiles of exponent 15 merge.
pub open spec fn fits_in_cells(board: u64, dir: Direction) -> bool {
    forall|k: int| 0 <= k < 4 ==> all_at_most(#[trigger] slide(line(cells(board), dir, k)), 15)
}

/// The points of a move on a board fit in a `u32`, so the reference can
/// play every move of every board.
pub proof fn law_move_points_fit(board: u64, dir: Direction)
    ensures
        move_score(cells(board), dir) <= u32::MAX,
{
    crate::board::lemma_move_score_bounded(board, dir);
}

/// The bitboard move and the reference move agree: both win the same points
/// (`move_score`, in the two contracts), and, when no two tiles of exponent
/// 15 merge, the reference grid stored back into a board (each cell kept to
/// four bits) holds exactly the cells of the bitboard result.
pub proof fn law_bitboard_matches_reference(board: u64, dir: Direction)
    requires
        fits_in_cells(board, dir),
    ensures
        slid_cells(cells(board), dir).map_values(|e: u8| e & 0xF) == moved_cells(cells(board), dir),
{
    let cs = cells(board);
    let lhs = slid_cells(cs, dir).map_values(|e: u8| e & 0xF);
    let rhs = moved_cells(cs, dir);
    assert forall|i: int| 0 <= i < 16 implies #[trigger] lhs[i] == rhs[i] by {
        let k = line_of(dir, i);
        let j = pos_of(dir, i);
        let m = slide(line(cs, dir, k));
        lemma_line_bounded(board, dir, k);
        lemma_slide_bounded(line(cs, dir, k));
        assert(all_at_most(m, 15));
        let mj = m[j];
        assert(mj & 0xF == mj) by (bit_vector)
            requires mj <= 15;
        if j > 0 {
            let mp = m[j - 1];
            assert(mp >> 4u8 == 0) by (bit_vector)
                requires mp <= 15;
            assert((mj & 0xF) | 0u8 == mj & 0xF) by (bit_vector);
        }
        assert(packed(m)[j] == mj);
    }
    assert(lhs =~= rhs);
}

/// Storing the grid of a board gives the board back: its cells are already
/// four-bit values.
pub proof fn law_grid_round_trip(board: u64)
    ensures
        cells(board).map_values(|e: u8| e & 0xF) == cells(board),
{
    let cs = cells(board);
    let masked = cs.map_values(|e: u8| e & 0xF);
    assert forall|i: int| 0 <= i < 16 implies #[trigger] masked[i] == cs[i] by {
        lemma_line_bounded(board, Direction::Left, i / 4);
        assert(line(cs, Direction::Left, i / 4)[i % 4] == cs[i]);
        let e = cs[i];
        assert(e & 0xF == e) by (bit_vector)
            requires e <= 15;
    }
    assert(masked =~= cs);
}

} // verus!
