//! Bitboard representation of the board and the move logic.
//!
//! The board is a `u64`: 16 cells of 4 bits each, holding the exponent of
//! the tile (0 = empty cell, e = tile of value 2^e). Cell `i` (0..16,
//! row-major: `i = row * 4 + col`) occupies bits `[i*4, i*4+4)`.

use vstd::prelude::*;
use vstd::arithmetic::power2::{lemma2_to64, lemma_pow2_adds, lemma_pow2_strictly_increases, pow2};
use vstd::bits::lemma_u32_shl_is_mul;
use rand_pcg::Pcg64Mcg;
use crate::rng::{index_below, nine_in_ten};

verus! {

/// A move of the player: every tile slides toward one edge of the board.
#[derive(Debug, Clone, Copy, PartialEq, Eq, Structural)]
pub enum Direction {
    Left,
    Right,
    Up,
    Down,
}

impl Direction {
    /// The four directions, in the order in which the agents try them.
    pub const ALL: [Direction; 4] = [Direction::Left, Direction::Right, Direction::Up, Direction::Down];
}

/// Exponent held by cell `i` (0..16) of a board.
pub open spec fn cell(board: u64, i: int) -> u8 {
    ((board >> ((i * 4) as u64)) & 0xFu64) as u8
}

/// The 16 cells of a board, in row-major order.
pub open spec fn cells(board: u64) -> Seq<u8> {
    Seq::new(16, |i: int| cell(board, i))
}

proof fn lemma_nibble_of_set(b: u64, v: u64, i: u64, j: u64)
    by (bit_vector)
    requires
        i < 16,
        j < 16,
        v < 16,
    ensures
        (((b & !(0xFu64 << (i * 4) as u64)) | (v << (i * 4) as u64)) >> (j * 4) as u64) & 0xFu64
            == if i == j { v } else { (b >> (j * 4) as u64) & 0xFu64 },
{
}

/// Exponent in row `r`, column `c`.
pub fn get_cell(board: u64, r: usize, c: usize) -> (v: u8)
    requires
        r < 4,
        c < 4,
    ensures
        v == cell(board, r * 4 + c),
        v < 16,
{
    let s: u64 = (r * 16 + c * 4) as u64;
    assert(((board >> s) & 0xFu64) < 16) by (bit_vector);
    ((board >> s) & 0xF) as u8
}

/// The board with row `r`, column `c` set to the low four bits of `v`.
fn set_cell(board: u64, r: usize, c: usize, v: u8) -> (out: u64)
    requires
        r < 4,
        c < 4,
    ensures
        forall|i: int| 0 <= i < 16 ==> #[trigger] cell(out, i) == if i == r * 4 + c {
            v & 0xF
        } else {
            cell(board, i)
        },
{
    let shift: u64 = (r * 16 + c * 4) as u64;
    let mask: u64 = 0xFu64 << shift;
    let vv: u64 = (v as u64) & 0xF;
    let out = (board & !mask) | (vv << shift);
    assert forall|i: int| 0 <= i < 16 implies #[trigger] cell(out, i) == if i == r * 4 + c {
        v & 0xF
    } else {
        cell(board, i)
    } by {
        let ii = (r * 4 + c) as u64;
        let jj = i as u64;
        assert(vv < 16) by (bit_vector)
            requires vv == (v as u64) & 0xF;
        lemma_nibble_of_set(board, vv, ii, jj);
        assert(shift == (ii * 4) as u64);
        assert((v & 0xF) as u64 == vv) by (bit_vector)
            requires vv == (v as u64) & 0xF;
    }
    out
}

/// Exponent held by position `j` (0..4) of a 16-bit row.
pub open spec fn row_cell(row: u16, j: int) -> u8 {
    ((row >> ((j * 4) as u16)) & 0xFu16) as u8
}

/// The four cells of a 16-bit row, position 0 first.
pub open spec fn row_cells(row: u16) -> Seq<u8> {
    Seq::new(4, |j: int| row_cell(row, j))
}

proof fn lemma_row_of_board(b: u64, r: u64, j: u64)
    by (bit_vector)
    requires
        r < 4,
        j < 4,
    ensures
        ((((b >> (r * 16) as u64) & 0xFFFFu64) as u16 >> (j * 4) as u16) & 0xFu16) as u8
            == ((b >> ((r * 4 + j) * 4) as u64) & 0xFu64) as u8,
{
}

proof fn lemma_board_of_set_row(b: u64, row: u16, r: u64, i: u64)
    by (bit_vector)
    requires
        r < 4,
        i < 16,
    ensures
        ((((b & !(0xFFFFu64 << (r * 16) as u64)) | ((row as u64) << (r * 16) as u64)) >> (i
            * 4) as u64) & 0xFu64) as u8 == if i / 4 == r {
            ((row >> ((i % 4) * 4) as u16) & 0xFu16) as u8
        } else {
            ((b >> (i * 4) as u64) & 0xFu64) as u8
        },
{
}

/// Row `r` of the board as 16 bits, column 0 in the low bits.
pub fn get_row(board: u64, r: usize) -> (row: u16)
    requires
        r < 4,
    ensures
        forall|j: int| 0 <= j < 4 ==> #[trigger] row_cell(row, j) == cell(board, r * 4 + j),
{
    let s: u64 = (r * 16) as u64;
    let row = ((board >> s) & 0xFFFF) as u16;
    assert forall|j: int| 0 <= j < 4 implies #[trigger] row_cell(row, j) == cell(
        board,
        r * 4 + j,
    ) by {
        lemma_row_of_board(board, r as u64, j as u64);
    }
    row
}

/// The board with row `r` replaced by the 16 bits of `row`.
fn set_row(board: u64, r: usize, row: u16) -> (out: u64)
    requires
        r < 4,
    ensures
        forall|i: int| 0 <= i < 16 ==> #[trigger] cell(out, i) == if i / 4 == r {
            row_cell(row, i % 4)
        } else {
            cell(board, i)
        },
{
    let s: u64 = (r * 16) as u64;
    let mask = 0xFFFFu64 << s;
    let out = (board & !mask) | ((row as u64) << s);
    assert forall|i: int| 0 <= i < 16 implies #[trigger] cell(out, i) == if i / 4 == r {
        row_cell(row, i % 4)
    } else {
        cell(board, i)
    } by {
        lemma_board_of_set_row(board, row, r as u64, i as u64);
    }
    out
}

proof fn lemma_reverse_row(row: u16, j: u16)
    by (bit_vector)
    requires
        j < 4,
    ensures
        (((((row & 0xF) << 12) | (((row >> 4) & 0xF) << 8) | (((row >> 8) & 0xF) << 4) | ((row
            >> 12) & 0xF)) >> (j * 4) as u16) & 0xFu16) == ((row >> ((3 - j) * 4) as u16)
            & 0xFu16),
{
}

/// The row with its four cells in reverse order.
fn reverse_row(row: u16) -> (out: u16)
    ensures
        forall|j: int| 0 <= j < 4 ==> #[trigger] row_cell(out, j) == row_cell(row, 3 - j),
{
    let n0 = row & 0xF;
    let n1 = (row >> 4) & 0xF;
    let n2 = (row >> 8) & 0xF;
    let n3 = (row >> 12) & 0xF;
    let out = (n0 << 12) | (n1 << 8) | (n2 << 4) | n3;
    assert forall|j: int| 0 <= j < 4 implies #[trigger] row_cell(out, j) == row_cell(row, 3 - j) by {
        lemma_reverse_row(row, j as u16);
    }
    out
}

/// The non-empty cells of a line, in their order.
pub open spec fn compact(s: Seq<u8>) -> Seq<u8>
    decreases s.len(),
{
    if s.len() == 0 {
        s
    } else if s.last() != 0 {
        compact(s.drop_last()).push(s.last())
    } else {
        compact(s.drop_last())
    }
}

/// Merges a compacted line toward its front: two equal neighbours become one
/// tile of the next exponent, and a tile takes part in one merge at most.
pub open spec fn merge_pairs(s: Seq<u8>) -> Seq<u8>
    decreases s.len(),
{
    if s.len() == 0 {
        s
    } else if s.len() >= 2 && s[0] == s[1] {
        seq![(s[0] + 1) as u8] + merge_pairs(s.subrange(2, s.len() as int))
    } else {
        seq![s[0]] + merge_pairs(s.drop_first())
    }
}

/// Points won by `merge_pairs`: the value `2^e` of each tile it creates.
pub open spec fn merge_score(s: Seq<u8>) -> nat
    decreases s.len(),
{
    if s.len() == 0 {
        0
    } else if s.len() >= 2 && s[0] == s[1] {
        pow2((s[0] + 1) as nat) + merge_score(s.subrange(2, s.len() as int))
    } else {
        merge_score(s.drop_first())
    }
}

/// A line of four cells after sliding toward position 0: merged tiles
/// first, empty cells after.
pub open spec fn slide(line: Seq<u8>) -> Seq<u8> {
    let m = merge_pairs(compact(line));
    m + Seq::new((4 - m.len()) as nat, |i: int| 0u8)
}

/// Points won by sliding a line toward position 0.
pub open spec fn slide_score(line: Seq<u8>) -> nat {
    merge_score(compact(line))
}

/// Every exponent of `s` is at most `b`.
pub open spec fn all_at_most(s: Seq<u8>, b: int) -> bool {
    forall|k: int| 0 <= k < s.len() ==> #[trigger] s[k] <= b
}

pub proof fn lemma_compact_len(s: Seq<u8>)
    ensures
        compact(s).len() <= s.len(),
        forall|k: int| 0 <= k < compact(s).len() ==> #[trigger] compact(s)[k] != 0,
    decreases s.len(),
{
    if s.len() > 0 {
        lemma_compact_len(s.drop_last());
    }
}

proof fn lemma_compact_bounded(s: Seq<u8>, b: int)
    requires
        all_at_most(s, b),
    ensures
        all_at_most(compact(s), b),
    decreases s.len(),
{
    if s.len() > 0 {
        assert(all_at_most(s.drop_last(), b)) by {
            assert forall|k: int| 0 <= k < s.drop_last().len() implies #[trigger] s.drop_last()[k]
                <= b by {
                assert(s.drop_last()[k] == s[k]);
            }
        }
        lemma_compact_bounded(s.drop_last(), b);
    }
}

pub proof fn lemma_merge_pairs_len(s: Seq<u8>)
    ensures
        merge_pairs(s).len() <= s.len(),
    decreases s.len(),
{
    if s.len() >= 2 && s[0] == s[1] {
        lemma_merge_pairs_len(s.subrange(2, s.len() as int));
    } else if s.len() > 0 {
        lemma_merge_pairs_len(s.drop_first());
    }
}

/// Slides a line of four cells toward index 0 and returns the points won.
fn merge_line(cells: [u8; 4]) -> (res: ([u8; 4], u32))
    requires
        slide_score(cells@) <= u32::MAX,
    ensures
        res.0@ == slide(cells@),
        res.1 == slide_score(cells@),
{
    let ghost line = cells@;
    let mut compact_cells = [0u8; 4];
    let mut n: usize = 0;
    let mut j: usize = 0;
    while j < 4
        invariant
            0 <= n <= j <= 4,
            line == cells@,
            compact_cells@.len() == 4,
            compact_cells@.take(n as int) == compact(line.take(j as int)),
        decreases 4 - j,
    {
        let c = cells[j];
        assert(line.take(j + 1).drop_last() =~= line.take(j as int));
        proof {
            lemma_compact_len(line.take(j as int));
        }
        if c != 0 {
            compact_cells[n] = c;
            n += 1;
            assert(compact_cells@.take(n as int) =~= compact(line.take(j as int)).push(c));
        }
        j += 1;
    }
    assert(line.take(4) =~= line);
    let ghost cp = compact(line);
    proof {
        lemma_compact_len(line);
    }
    assert(cp.len() == n);
    let mut merged = [0u8; 4];
    let mut m: usize = 0;
    let mut score: u32 = 0;
    let mut i: usize = 0;
    assert(cp.subrange(0, n as int) =~= cp);
    assert(merged@.take(0) + merge_pairs(cp) =~= merge_pairs(cp));
    while i < n
        invariant
            0 <= m <= i <= n <= 4,
            cp.len() == n,
            compact_cells@.take(n as int) == cp,
            compact_cells@.len() == 4,
            merged@.len() == 4,
            merged@.take(m as int) + merge_pairs(cp.subrange(i as int, n as int)) == merge_pairs(cp),
            forall|k: int| m <= k < 4 ==> merged@[k] == 0,
            score + merge_score(cp.subrange(i as int, n as int)) == merge_score(cp),
            merge_score(cp) <= u32::MAX,
        decreases n - i,
    {
        let ghost t = cp.subrange(i as int, n as int);
        assert(compact_cells@[i as int] == cp[i as int]);
        if i + 1 < n && compact_cells[i] == compact_cells[i + 1] {
            assert(compact_cells@[i + 1] == cp[i + 1]);
            assert(t.subrange(2, t.len() as int) =~= cp.subrange(i + 2, n as int));
            let ghost e = (t[0] + 1) as nat;
            proof {
                lemma2_to64();
                if e >= 32 {
                    lemma_pow2_strictly_increases(32, e);
                }
            }
            let exp = compact_cells[i] + 1;
            proof {
                lemma_u32_shl_is_mul(1u32, exp as u32);
            }
            merged[m] = exp;
            score += 1u32 << exp;
            assert(merged@.take(m + 1) =~= merged@.take(m as int).push(exp));
            assert(merged@.take(m as int).push(exp) + merge_pairs(cp.subrange(i + 2, n as int))
                =~= merged@.take(m as int) + (seq![exp] + merge_pairs(
                cp.subrange(i + 2, n as int),
            )));
            m += 1;
            i += 2;
        } else {
            assert(t.drop_first() =~= cp.subrange(i + 1, n as int));
            merged[m] = compact_cells[i];
            assert(merged@.take(m + 1) =~= merged@.take(m as int).push(t[0]));
            assert(merged@.take(m as int).push(t[0]) + merge_pairs(cp.subrange(i + 1, n as int))
                =~= merged@.take(m as int) + (seq![t[0]] + merge_pairs(
                cp.subrange(i + 1, n as int),
            )));
            m += 1;
            i += 1;
        }
    }
    assert(cp.subrange(n as int, n as int) =~= Seq::<u8>::empty());
    assert(merged@.take(m as int) + Seq::<u8>::empty() =~= merged@.take(m as int));
    assert(merged@ =~= slide(line));
    (merged, score)
}

proof fn lemma_merge_score_bounded(s: Seq<u8>)
    requires
        all_at_most(s, 15),
    ensures
        merge_score(s) * 2 <= s.len() * pow2(16),
    decreases s.len(),
{
    lemma2_to64();
    if s.len() >= 2 && s[0] == s[1] {
        let rest = s.subrange(2, s.len() as int);
        assert(all_at_most(rest, 15)) by {
            assert forall|k: int| 0 <= k < rest.len() implies #[trigger] rest[k] <= 15 by {
                assert(rest[k] == s[k + 2]);
            }
        }
        lemma_merge_score_bounded(rest);
        if s[0] + 1 < 16 {
            lemma_pow2_strictly_increases((s[0] + 1) as nat, 16);
        }
    } else if s.len() > 0 {
        let rest = s.drop_first();
        assert(all_at_most(rest, 15)) by {
            assert forall|k: int| 0 <= k < rest.len() implies #[trigger] rest[k] <= 15 by {
                assert(rest[k] == s[k + 1]);
            }
        }
        lemma_merge_score_bounded(rest);
    }
}

proof fn lemma_merge_pairs_bounded(s: Seq<u8>)
    requires
        all_at_most(s, 15),
    ensures
        all_at_most(merge_pairs(s), 16),
    decreases s.len(),
{
    if s.len() >= 2 && s[0] == s[1] {
        let rest = s.subrange(2, s.len() as int);
        assert(all_at_most(rest, 15)) by {
            assert forall|k: int| 0 <= k < rest.len() implies #[trigger] rest[k] <= 15 by {
                assert(rest[k] == s[k + 2]);
            }
        }
        lemma_merge_pairs_bounded(rest);
        let m = merge_pairs(s);
        assert forall|k: int| 0 <= k < m.len() implies #[trigger] m[k] <= 16 by {
            if k > 0 {
                assert(m[k] == merge_pairs(rest)[k - 1]);
            }
        }
    } else if s.len() > 0 {
        let rest = s.drop_first();
        assert(all_at_most(rest, 15)) by {
            assert forall|k: int| 0 <= k < rest.len() implies #[trigger] rest[k] <= 15 by {
                assert(rest[k] == s[k + 1]);
            }
        }
        lemma_merge_pairs_bounded(rest);
        let m = merge_pairs(s);
        assert forall|k: int| 0 <= k < m.len() implies #[trigger] m[k] <= 16 by {
            if k > 0 {
                assert(m[k] == merge_pairs(rest)[k - 1]);
            }
        }
    }
}

/// On a line of four exponents below 16, sliding yields four exponents of at
/// most 16 and at most two merges.
pub proof fn lemma_slide_bounded(line: Seq<u8>)
    requires
        line.len() == 4,
        all_at_most(line, 15),
    ensures
        slide(line).len() == 4,
        all_at_most(slide(line), 16),
        slide_score(line) <= 2 * pow2(16),
{
    lemma_compact_len(line);
    lemma_compact_bounded(line, 15);
    lemma_merge_pairs_len(compact(line));
    lemma_merge_pairs_bounded(compact(line));
    lemma_merge_score_bounded(compact(line));
    let m = merge_pairs(compact(line));
    let sl = slide(line);
    assert forall|k: int| 0 <= k < sl.len() implies #[trigger] sl[k] <= 16 by {
        if k < m.len() {
            assert(sl[k] == m[k]);
        }
    }
    assert(slide_score(line) * 2 <= 4 * pow2(16)) by (nonlinear_arith)
        requires
            slide_score(line) * 2 <= compact(line).len() * pow2(16),
            compact(line).len() <= 4,
    ;
}

/// The exponents a 16-bit row holds once the four values of `m` (at most
/// five bits each) are or-ed into it four bits apart: the fifth bit of a
/// value lands in the lowest bit of the next position, or past the row.
pub open spec fn packed(m: Seq<u8>) -> Seq<u8> {
    Seq::new(
        4,
        |j: int|
            if j == 0 {
                m[0] & 0xF
            } else {
                (m[j] & 0xF) | (m[j - 1] >> 4u8)
            },
    )
}

proof fn lemma_pack(m0: u16, m1: u16, m2: u16, m3: u16, out: u16)
    by (bit_vector)
    requires
        m0 <= 16 && m1 <= 16 && m2 <= 16 && m3 <= 16,
        out == m0 | (m1 << 4u16) | (m2 << 8u16) | (m3 << 12u16),
    ensures
        ((out >> 0u16) & 0xF) == m0 & 0xF,
        ((out >> 4u16) & 0xF) == (m1 & 0xF) | (m0 >> 4u16),
        ((out >> 8u16) & 0xF) == (m2 & 0xF) | (m1 >> 4u16),
        ((out >> 12u16) & 0xF) == (m3 & 0xF) | (m2 >> 4u16),
{
}

proof fn lemma_nibble_u8(x: u8, y: u8)
    by (bit_vector)
    ensures
        ((x & 0xF) as u16) == (x as u16) & 0xF,
        ((x >> 4u8) as u16) == (x as u16) >> 4u16,
        (((x & 0xF) | (y >> 4u8)) as u16) == ((x as u16) & 0xF) | ((y as u16) >> 4u16),
{
}

proof fn lemma_unpack(row: u16)
    by (bit_vector)
    ensures
        ((row & 0xF) as u8) as u16 == (row >> 0u16) & 0xF,
        (((row >> 4) & 0xF) as u8) as u16 == (row >> 4u16) & 0xF,
        (((row >> 8) & 0xF) as u8) as u16 == (row >> 8u16) & 0xF,
        (((row >> 12) & 0xF) as u8) as u16 == (row >> 12u16) & 0xF,
        (row & 0xF) < 16,
        ((row >> 4) & 0xF) < 16,
        ((row >> 8) & 0xF) < 16,
        ((row >> 12) & 0xF) < 16,
{
}

/// Slides a 16-bit row toward position 0; returns the new row and the
/// points won.
fn slide_row(row: u16) -> (res: (u16, u32))
    ensures
        row_cells(res.0) == packed(slide(row_cells(row))),
        res.1 == slide_score(row_cells(row)),
        res.1 <= 2 * pow2(16),
{
    let cells_in = [
        (row & 0xF) as u8,
        ((row >> 4) & 0xF) as u8,
        ((row >> 8) & 0xF) as u8,
        ((row >> 12) & 0xF) as u8,
    ];
    proof {
        lemma_unpack(row);
        assert(cells_in@ =~= row_cells(row));
        lemma_slide_bounded(cells_in@);
        lemma2_to64();
    }
    let (merged, s) = merge_line(cells_in);
    let new_row = merged[0] as u16 | (merged[1] as u16) << 4 | (merged[2] as u16) << 8 | (
    merged[3] as u16) << 12;
    proof {
        let m = merged@;
        assert(m[0] <= 16 && m[1] <= 16 && m[2] <= 16 && m[3] <= 16);
        lemma_pack(m[0] as u16, m[1] as u16, m[2] as u16, m[3] as u16, new_row);
        lemma_nibble_u8(m[0], m[0]);
        lemma_nibble_u8(m[1], m[0]);
        lemma_nibble_u8(m[2], m[1]);
        lemma_nibble_u8(m[3], m[2]);
        assert(row_cells(new_row) =~= packed(m));
    }
    (new_row, s)
}

/// Board cell at position `j` (0..4) of line `k` (0..4) when tiles slide in
/// `dir`; position 0 lies against the edge the tiles slide toward.
pub open spec fn line_index(dir: Direction, k: int, j: int) -> int {
    match dir {
        Direction::Left => 4 * k + j,
        Direction::Right => 4 * k + 3 - j,
        Direction::Up => 4 * j + k,
        Direction::Down => 4 * (3 - j) + k,
    }
}

/// Line on which cell `i` lies when tiles slide in `dir`.
pub open spec fn line_of(dir: Direction, i: int) -> int {
    match dir {
        Direction::Left | Direction::Right => i / 4,
        Direction::Up | Direction::Down => i % 4,
    }
}

/// Position of cell `i` along its line when tiles slide in `dir`.
pub open spec fn pos_of(dir: Direction, i: int) -> int {
    match dir {
        Direction::Left => i % 4,
        Direction::Right => 3 - i % 4,
        Direction::Up => i / 4,
        Direction::Down => 3 - i / 4,
    }
}

/// The four cells of line `k` in the order in which they slide in `dir`.
pub open spec fn line(cs: Seq<u8>, dir: Direction, k: int) -> Seq<u8> {
    Seq::new(4, |j: int| cs[line_index(dir, k, j)])
}

/// What line `k` holds after the move, in the order of `line`.
pub open spec fn moved_line(cs: Seq<u8>, dir: Direction, k: int) -> Seq<u8> {
    packed(slide(line(cs, dir, k)))
}

/// The 16 exponents after every line has slid in `dir`, before they are
/// stored back four bits apart.
pub open spec fn slid_cells(cs: Seq<u8>, dir: Direction) -> Seq<u8> {
    Seq::new(16, |i: int| slide(line(cs, dir, line_of(dir, i)))[pos_of(dir, i)])
}

/// The 16 cells after every line has slid in `dir`.
pub open spec fn moved_cells(cs: Seq<u8>, dir: Direction) -> Seq<u8> {
    Seq::new(16, |i: int| moved_line(cs, dir, line_of(dir, i))[pos_of(dir, i)])
}

/// Points won by a move: the sum over the four lines.
pub open spec fn move_score(cs: Seq<u8>, dir: Direction) -> nat {
    slide_score(line(cs, dir, 0)) + slide_score(line(cs, dir, 1)) + slide_score(line(cs, dir, 2))
        + slide_score(line(cs, dir, 3))
}

/// Points won on the first `r` lines of a move.
pub open spec fn score_upto(cs: Seq<u8>, dir: Direction, r: int) -> nat
    decreases r,
{
    if r <= 0 {
        0
    } else {
        score_upto(cs, dir, r - 1) + slide_score(line(cs, dir, r - 1))
    }
}

/// The points of the first lines add up to those of the move.
pub proof fn lemma_score_upto(cs: Seq<u8>, dir: Direction)
    ensures
        score_upto(cs, dir, 4) == move_score(cs, dir),
        forall|r: int| 0 <= r <= 4 ==> #[trigger] score_upto(cs, dir, r) <= move_score(cs, dir),
{
    reveal_with_fuel(score_upto, 5);
}

proof fn lemma_cell_bounded(b: u64, i: int)
    requires
        0 <= i < 16,
    ensures
        cell(b, i) <= 15,
{
    let s = (i * 4) as u64;
    assert(((b >> s) & 0xFu64) as u8 <= 15) by (bit_vector);
}

/// A line of a board holds four exponents below 16.
pub proof fn lemma_line_bounded(b: u64, dir: Direction, k: int)
    requires
        0 <= k < 4,
    ensures
        line(cells(b), dir, k).len() == 4,
        all_at_most(line(cells(b), dir, k), 15),
{
    let l = line(cells(b), dir, k);
    assert forall|j: int| 0 <= j < l.len() implies #[trigger] l[j] <= 15 by {
        lemma_cell_bounded(b, line_index(dir, k, j));
    }
}

/// Slides every row toward the left edge (or toward the right edge when
/// `reverse`), returning the new board and the points won.
fn move_rows(board: u64, reverse: bool, table: Option<&MoveTable>) -> (res: (u64, u32))
    ensures
        cells(res.0) == moved_cells(cells(board), if reverse { Direction::Right } else { Direction::Left }),
        res.1 == move_score(cells(board), if reverse { Direction::Right } else { Direction::Left }),
{
    let ghost dir = if reverse { Direction::Right } else { Direction::Left };
    let ghost cs = cells(board);
    let mut new_board = 0u64;
    let mut total_score = 0u32;
    let mut r: usize = 0;
    while r < 4
        invariant
            r <= 4,
            cs == cells(board),
            dir == if reverse { Direction::Right } else { Direction::Left },
            forall|i: int| 0 <= i < 16 && i / 4 < r ==> #[trigger] cell(new_board, i) == moved_cells(cs, dir)[i],
            total_score == score_upto(cs, dir, r as int),
            total_score <= r * 2 * pow2(16),
        decreases 4 - r,
    {
        let mut row = get_row(board, r);
        if reverse {
            row = reverse_row(row);
        }
        assert(row_cells(row) =~= line(cs, dir, r as int));
        let (mut new_row, s) = match table {
            Some(t) => t.slide_row(row),
            None => slide_row(row),
        };
        let ghost slid = new_row;
        if reverse {
            new_row = reverse_row(new_row);
        }
        proof {
            lemma2_to64();
        }
        total_score += s;
        new_board = set_row(new_board, r, new_row);
        assert forall|i: int| 0 <= i < 16 && i / 4 < r + 1 implies #[trigger] cell(new_board, i) == moved_cells(cs, dir)[i] by {
            if i / 4 == r {
                assert(row_cells(slid)[pos_of(dir, i)] == row_cell(slid, pos_of(dir, i)));
            }
        }
        r += 1;
    }
    assert(cells(new_board) =~= moved_cells(cs, dir));
    assert(score_upto(cs, dir, 4) == move_score(cs, dir)) by {
        reveal_with_fuel(score_upto, 5);
    }
    (new_board, total_score)
}

/// Swaps rows and columns, so that the left and right slides also serve for
/// up and down.
fn transpose(board: u64) -> (out: u64)
    ensures
        forall|i: int| 0 <= i < 16 ==> #[trigger] cell(out, i) == cell(board, 4 * (i % 4) + i / 4),
{
    let mut out = 0u64;
    let mut r: usize = 0;
    while r < 4
        invariant
            r <= 4,
            forall|i: int| 0 <= i < 16 && i % 4 < r ==> #[trigger] cell(out, i) == cell(board, 4 * (i % 4) + i / 4),
        decreases 4 - r,
    {
        let mut c: usize = 0;
        while c < 4
            invariant
                r < 4,
                c <= 4,
                forall|i: int|
                    0 <= i < 16 && (i % 4 < r || (i % 4 == r && i / 4 < c)) ==> #[trigger] cell(out, i) == cell(board, 4 * (i % 4) + i / 4),
            decreases 4 - c,
        {
            let v = get_cell(board, r, c);
            out = set_cell(out, c, r, v);
            assert(v & 0xF == v) by (bit_vector)
                requires v < 16;
            c += 1;
        }
        r += 1;
    }
    out
}

/// Applies a move deterministically, without spawning a new tile (that is
/// the job of `spawn`). Returns the new board and the points won by the
/// merges.
pub fn apply_move(board: u64, dir: Direction) -> (res: (u64, u32))
    ensures
        cells(res.0) == moved_cells(cells(board), dir),
        res.1 == move_score(cells(board), dir),
{
    apply_move_with(board, dir, None)
}

/// Precomputed slides of every 16-bit row toward position 0, with their
/// points.
pub struct MoveTable {
    result: Vec<u16>,
    score: Vec<u32>,
}

impl View for MoveTable {
    type V = Seq<(u16, u32)>;

    /// Entry `i`: the slid row and the points for the row whose 16 bits are `i`.
    closed spec fn view(&self) -> Seq<(u16, u32)> {
        Seq::new(self.result@.len(), |i: int| (self.result@[i], self.score@[i]))
    }
}

/// `t` holds, for each of the 65536 rows, its slide toward position 0 and
/// the points won.
pub open spec fn holds_all_slides(t: Seq<(u16, u32)>) -> bool {
    &&& t.len() == 65536
    &&& forall|i: int|
        0 <= i < 65536 ==> #[trigger] row_cells(t[i].0) == packed(slide(row_cells(i as u16)))
            && t[i].1 == slide_score(row_cells(i as u16))
}

impl MoveTable {
    #[verifier::type_invariant]
    spec fn holds_every_slide(&self) -> bool {
        &&& self.result@.len() == 65536
        &&& self.score@.len() == 65536
        &&& forall|i: int|
            0 <= i < 65536 ==> #[trigger] row_cells(self.result@[i]) == packed(
                slide(row_cells(i as u16)),
            ) && self.score@[i] == slide_score(row_cells(i as u16)) && self.score@[i] <= 2 * pow2(
                16,
            )
    }

    /// Slides every possible row toward position 0.
    pub fn build() -> (t: Self)
        ensures
            holds_all_slides(t@),
    {
        let mut result: Vec<u16> = Vec::new();
        let mut score: Vec<u32> = Vec::new();
        let mut row_val: u32 = 0;
        while row_val < 65536
            invariant
                row_val <= 65536,
                result@.len() == row_val,
                score@.len() == row_val,
                forall|i: int|
                    0 <= i < row_val ==> #[trigger] row_cells(result@[i]) == packed(
                        slide(row_cells(i as u16)),
                    ) && score@[i] == slide_score(row_cells(i as u16)) && score@[i] <= 2 * pow2(
                        16,
                    ),
            decreases 65536 - row_val,
        {
            let (new_row, s) = slide_row(row_val as u16);
            result.push(new_row);
            score.push(s);
            row_val += 1;
        }
        let t = MoveTable { result, score };
        assert(holds_all_slides(t@));
        t
    }

    /// The slide of `row` and its points, read from the table.
    fn slide_row(&self, row: u16) -> (res: (u16, u32))
        ensures
            row_cells(res.0) == packed(slide(row_cells(row))),
            res.1 == slide_score(row_cells(row)),
            res.1 <= 2 * pow2(16),
    {
        proof {
            use_type_invariant(self);
        }
        assert((row as usize) as u16 == row);
        (self.result[row as usize], self.score[row as usize])
    }

    /// `apply_move`, reading the slides of the rows from the table.
    pub fn apply_move(&self, board: u64, dir: Direction) -> (res: (u64, u32))
        ensures
            cells(res.0) == moved_cells(cells(board), dir),
            res.1 == move_score(cells(board), dir),
    {
        apply_move_with(board, dir, Some(self))
    }
}

/// The move, with rows slid by the table when one is given, directly
/// otherwise.
fn apply_move_with(board: u64, dir: Direction, table: Option<&MoveTable>) -> (res: (u64, u32))
    ensures
        cells(res.0) == moved_cells(cells(board), dir),
        res.1 == move_score(cells(board), dir),
{
    let ghost cs = cells(board);
    match dir {
        Direction::Left => move_rows(board, false, table),
        Direction::Right => move_rows(board, true, table),
        Direction::Up => {
            let t = transpose(board);
            let (moved, s) = move_rows(t, false, table);
            proof {
                assert forall|k: int| 0 <= k < 4 implies #[trigger] line(cells(t), Direction::Left, k) == line(cs, dir, k) by {
                    assert(line(cells(t), Direction::Left, k) =~= line(cs, dir, k));
                }
            }
            let out = transpose(moved);
            assert forall|i: int| 0 <= i < 16 implies #[trigger] cells(out)[i] == moved_cells(cs, dir)[i] by {
                let q = 4 * (i % 4) + i / 4;
                assert(q / 4 == i % 4 && q % 4 == i / 4);
                assert(cell(out, i) == cell(moved, q));
                assert(cells(moved)[q] == moved_cells(cells(t), Direction::Left)[q]);
                assert(line(cells(t), Direction::Left, i % 4) == line(cs, dir, i % 4));
            }
            assert(cells(out) =~= moved_cells(cs, dir));
            (out, s)
        },
        Direction::Down => {
            let t = transpose(board);
            let (moved, s) = move_rows(t, true, table);
            proof {
                assert forall|k: int| 0 <= k < 4 implies #[trigger] line(cells(t), Direction::Right, k) == line(cs, dir, k) by {
                    assert(line(cells(t), Direction::Right, k) =~= line(cs, dir, k));
                }
            }
            let out = transpose(moved);
            assert forall|i: int| 0 <= i < 16 implies #[trigger] cells(out)[i] == moved_cells(cs, dir)[i] by {
                let q = 4 * (i % 4) + i / 4;
                assert(q / 4 == i % 4 && q % 4 == i / 4);
                assert(cell(out, i) == cell(moved, q));
                assert(cells(moved)[q] == moved_cells(cells(t), Direction::Right)[q]);
                assert(line(cells(t), Direction::Right, i % 4) == line(cs, dir, i % 4));
            }
            assert(cells(out) =~= moved_cells(cs, dir));
            (out, s)
        },
    }
}

/// Largest exponent among the cells (0 on an empty sequence).
pub open spec fn max_exponent(cs: Seq<u8>) -> u8
    decreases cs.len(),
{
    if cs.len() == 0 {
        0
    } else if cs.last() > max_exponent(cs.drop_last()) {
        cs.last()
    } else {
        max_exponent(cs.drop_last())
    }
}

/// The largest exponent bounds every cell and is one of them (or 0, the
/// exponent of an empty cell).
pub proof fn law_max_exponent_is_the_largest(cs: Seq<u8>)
    ensures
        forall|i: int| 0 <= i < cs.len() ==> #[trigger] cs[i] <= max_exponent(cs),
        max_exponent(cs) == 0 || exists|i: int| 0 <= i < cs.len() && #[trigger] cs[i] == max_exponent(cs),
    decreases cs.len(),
{
    if cs.len() > 0 {
        let rest = cs.drop_last();
        law_max_exponent_is_the_largest(rest);
        assert forall|i: int| 0 <= i < cs.len() implies #[trigger] cs[i] <= max_exponent(cs) by {
            if i < rest.len() {
                assert(cs[i] == rest[i]);
            }
        }
        if max_exponent(cs) != 0 && max_exponent(cs) != cs.last() {
            let i = choose|i: int| 0 <= i < rest.len() && #[trigger] rest[i] == max_exponent(rest);
            assert(cs[i] == rest[i]);
        }
    }
}

/// Largest exponent on the board.
pub fn max_exponent_of(board: u64) -> (m: u8)
    ensures
        m == max_exponent(cells(board)),
        m <= 15,
        forall|i: int| 0 <= i < 16 ==> #[trigger] cells(board)[i] <= m,
        m == 0 || exists|i: int| 0 <= i < 16 && #[trigger] cells(board)[i] == m,
{
    proof {
        law_max_exponent_is_the_largest(cells(board));
    }
    let ghost cs = cells(board);
    let mut max_exp = 0u8;
    let mut i: usize = 0;
    while i < 16
        invariant
            i <= 16,
            cs == cells(board),
            max_exp == max_exponent(cs.take(i as int)),
            max_exp <= 15,
        decreases 16 - i,
    {
        let e = get_cell(board, i / 4, i % 4);
        assert(cs.take(i + 1).drop_last() =~= cs.take(i as int));
        if e > max_exp {
            max_exp = e;
        }
        i += 1;
    }
    assert(cs.take(16) =~= cs);
    max_exp
}

/// Value of the largest tile of the board, 0 on an empty board.
pub fn max_tile(board: u64) -> (v: u32)
    ensures
        v == if max_exponent(cells(board)) == 0 {
            0
        } else {
            pow2(max_exponent(cells(board)) as nat)
        },
{
    let max_exp = max_exponent_of(board);
    if max_exp == 0 {
        0
    } else {
        proof {
            lemma2_to64();
            if max_exp < 16 {
                lemma_pow2_strictly_increases(max_exp as nat, 16);
            }
            lemma_u32_shl_is_mul(1u32, max_exp as u32);
        }
        1u32 << max_exp
    }
}

/// Indices of the empty cells among the first `n` cells, in increasing order.
pub open spec fn empty_positions(cs: Seq<u8>, n: int) -> Seq<usize>
    decreases n,
{
    if n <= 0 {
        Seq::empty()
    } else if cs[n - 1] == 0 {
        empty_positions(cs, n - 1).push((n - 1) as usize)
    } else {
        empty_positions(cs, n - 1)
    }
}

/// Indices of the empty cells of a board, in increasing order.
pub open spec fn empty_cells_of(board: u64) -> Seq<usize> {
    empty_positions(cells(board), 16)
}

pub proof fn lemma_empty_positions(cs: Seq<u8>, n: int)
    requires
        0 <= n <= cs.len(),
        n <= 16,
    ensures
        forall|k: int| 0 <= k < empty_positions(cs, n).len() ==> #[trigger] empty_positions(cs, n)[k] < n && cs[empty_positions(cs, n)[k] as int] == 0,
        forall|i: int| 0 <= i < n && cs[i] == 0 ==> empty_positions(cs, n).contains(i as usize),
        empty_positions(cs, n).len() <= n,
        forall|k: int, q: int|
            0 <= k < q < empty_positions(cs, n).len() ==> #[trigger] empty_positions(cs, n)[k]
                < #[trigger] empty_positions(cs, n)[q],
    decreases n,
{
    if n > 0 {
        lemma_empty_positions(cs, n - 1);
        let e = empty_positions(cs, n - 1);
        let en = empty_positions(cs, n);
        assert forall|k: int| 0 <= k < en.len() implies #[trigger] en[k] < n && cs[en[k] as int] == 0 by {
            if k < e.len() {
                assert(en[k] == e[k]);
            }
        }
        assert forall|k: int, q: int| 0 <= k < q < en.len() implies #[trigger] en[k] < #[trigger] en[q] by {
            if q < e.len() {
                assert(en[k] == e[k] && en[q] == e[q]);
            } else {
                assert(en[k] == e[k]);
            }
        }
        assert forall|i: int| 0 <= i < n && cs[i] == 0 implies empty_positions(cs, n).contains(i as usize) by {
            if i < n - 1 {
                let k = choose|k: int| 0 <= k < e.len() && e[k] == i as usize;
                assert(empty_positions(cs, n)[k] == i as usize);
            } else {
                assert(empty_positions(cs, n)[e.len() as int] == i as usize);
            }
        }
    }
}

/// The indices (0..16) of the empty cells of a board, in increasing order.
pub fn empty_cells(board: u64) -> (v: Vec<usize>)
    ensures
        v@ == empty_cells_of(board),
        forall|k: int| 0 <= k < v@.len() ==> #[trigger] v@[k] < 16 && cells(board)[v@[k] as int] == 0,
        forall|i: int| 0 <= i < 16 && cells(board)[i] == 0 ==> v@.contains(i as usize),
        forall|k: int, q: int| 0 <= k < q < v@.len() ==> #[trigger] v@[k] < #[trigger] v@[q],
{
    proof {
        lemma_empty_positions(cells(board), 16);
    }
    let ghost cs = cells(board);
    let mut v: Vec<usize> = Vec::new();
    let mut i: usize = 0;
    while i < 16
        invariant
            i <= 16,
            cs == cells(board),
            v@ == empty_positions(cs, i as int),
        decreases 16 - i,
    {
        if get_cell(board, i / 4, i % 4) == 0 {
            v.push(i);
        }
        i += 1;
    }
    v
}

/// Puts a tile of exponent `exponent` (1 or 2) in the empty cell number
/// `choice` of the board, counting the empty cells in increasing order.
pub fn spawn_at(board: u64, choice: usize, exponent: u8) -> (out: u64)
    requires
        choice < empty_cells_of(board).len(),
        exponent == 1 || exponent == 2,
    ensures
        cells(out) == cells(board).update(empty_cells_of(board)[choice as int] as int, exponent),
{
    let empties = empty_cells(board);
    proof {
        lemma_empty_positions(cells(board), 16);
    }
    let idx = empties[choice];
    let out = set_cell(board, idx / 4, idx % 4, exponent);
    assert(exponent & 0xF == exponent) by (bit_vector)
        requires exponent == 1 || exponent == 2;
    assert(cells(out) =~= cells(board).update(idx as int, exponent));
    out
}

/// Spawns from the two draws of the generator: the empty cell number
/// `choice` (in increasing order of the empty cells) gets a 2 when `two`
/// holds and a 4 otherwise.
pub fn spawn_drawn(board: u64, choice: usize, two: bool) -> (out: u64)
    requires
        choice < empty_cells_of(board).len(),
    ensures
        cells(out) == cells(board).update(
            empty_cells_of(board)[choice as int] as int,
            if two { 1u8 } else { 2u8 },
        ),
{
    let exponent: u8 = if two {
        1
    } else {
        2
    };
    spawn_at(board, choice, exponent)
}

/// `after` holds the cells `cs` with one of their empty cells given a tile
/// of exponent 1 or 2, or exactly `cs` when no cell is empty.
pub open spec fn spawned_onto(cs: Seq<u8>, after: u64) -> bool {
    let empties = empty_positions(cs, 16);
    &&& empties.len() == 0 ==> cells(after) == cs
    &&& empties.len() > 0 ==> exists|choice: int, exponent: u8|
        0 <= choice < empties.len() && (exponent == 1 || exponent == 2) && #[trigger] cells(after)
            == cs.update(empties[choice] as int, exponent)
}

/// Spawns a tile (2 with chance 9 in 10, 4 otherwise) on an empty cell
/// drawn uniformly at random; leaves a full board as it is. The generator is
/// passed in, never global.
pub fn spawn(board: u64, rng: &mut Pcg64Mcg) -> (out: u64)
    ensures
        empty_cells_of(board).len() == 0 ==> out == board,
        spawned_onto(cells(board), out),
{
    let empties = empty_cells(board);
    if empties.len() == 0 {
        return board;
    }
    let choice = index_below(rng, empties.len());
    let two = nine_in_ten(rng);
    let out = spawn_drawn(board, choice, two);
    assert(cells(out) == cells(board).update(
        empty_cells_of(board)[choice as int] as int,
        if two { 1u8 } else { 2u8 },
    ));
    out
}

proof fn lemma_shift_step(a: u64, b: u64, s: u64)
    by (bit_vector)
    requires
        s < 60,
        a >> (s + 4) as u64 == b >> (s + 4) as u64,
        (a >> s) & 0xFu64 == (b >> s) & 0xFu64,
    ensures
        a >> s == b >> s,
{
}

/// Boards equal in all cells from `k` on agree from bit `4 k` on.
proof fn lemma_high_cells_equal(a: u64, b: u64, k: u64)
    requires
        k < 16,
        forall|j: u64| k <= j < 16 ==> #[trigger] ((a >> (j * 4) as u64) & 0xFu64) == ((b >> (j
            * 4) as u64) & 0xFu64),
    ensures
        a >> (k * 4) as u64 == b >> (k * 4) as u64,
    decreases 16 - k,
{
    assert(((a >> (k * 4) as u64) & 0xFu64) == ((b >> (k * 4) as u64) & 0xFu64));
    if k == 15 {
        assert(a >> (k * 4) as u64 == b >> (k * 4) as u64) by (bit_vector)
            requires
                k == 15,
                ((a >> (k * 4) as u64) & 0xFu64) == ((b >> (k * 4) as u64) & 0xFu64),
        ;
    } else {
        lemma_high_cells_equal(a, b, (k + 1) as u64);
        let s = (k * 4) as u64;
        assert((s + 4) as u64 == ((k + 1) as u64 * 4) as u64);
        lemma_shift_step(a, b, s);
    }
}

/// Two boards are equal exactly when their cells are.
pub proof fn lemma_cells_injective(a: u64, b: u64)
    ensures
        cells(a) == cells(b) <==> a == b,
{
    if cells(a) == cells(b) {
        assert forall|k: u64| k < 16 implies #[trigger] ((a >> (k * 4) as u64) & 0xFu64) == ((b >> (k
            * 4) as u64) & 0xFu64) by {
            assert(cells(a)[k as int] == cells(b)[k as int]);
            let x = (a >> (k * 4) as u64) & 0xFu64;
            let y = (b >> (k * 4) as u64) & 0xFu64;
            assert(x < 16 && y < 16) by (bit_vector)
                requires x == (a >> (k * 4) as u64) & 0xFu64, y == (b >> (k * 4) as u64) & 0xFu64;
            assert(x as u8 == y as u8);
        }
        lemma_high_cells_equal(a, b, 0);
        assert(a >> 0u64 == a && b >> 0u64 == b) by (bit_vector);
    }
}

/// A move is legal when it changes the board.
#[verifier::opaque]
pub open spec fn is_legal(board: u64, dir: Direction) -> bool {
    moved_cells(cells(board), dir) != cells(board)
}

/// Position of a direction in `Direction::ALL`.
pub open spec fn dir_index(dir: Direction) -> int {
    match dir {
        Direction::Left => 0,
        Direction::Right => 1,
        Direction::Up => 2,
        Direction::Down => 3,
    }
}

/// The directions of `Direction::ALL` (kept in that order) whose move is
/// legal on the board.
pub open spec fn legal_moves_spec(board: u64) -> Seq<Direction> {
    seq![Direction::Left, Direction::Right, Direction::Up, Direction::Down].filter(
        |d: Direction| is_legal(board, d),
    )
}

/// Whether a move changes the board, with the board and points it yields.
pub fn try_move(board: u64, dir: Direction) -> (res: (bool, u64, u32))
    ensures
        res.0 == is_legal(board, dir),
        cells(res.1) == moved_cells(cells(board), dir),
        res.2 == move_score(cells(board), dir),
{
    let (after, gained) = apply_move(board, dir);
    proof {
        lemma_cells_injective(after, board);
        reveal(is_legal);
    }
    (after != board, after, gained)
}

/// The legal moves listed are legal, and every legal move is listed.
pub proof fn lemma_legal_moves(board: u64)
    ensures
        forall|k: int| 0 <= k < legal_moves_spec(board).len() ==> is_legal(board, #[trigger] legal_moves_spec(board)[k]),
        forall|d: Direction| #[trigger] is_legal(board, d) ==> legal_moves_spec(board).contains(d),
        legal_moves_spec(board).len() == 0 <==> forall|d: Direction| !#[trigger] is_legal(board, d),
{
    let p = |d: Direction| is_legal(board, d);
    let s = seq![Direction::Left, Direction::Right, Direction::Up, Direction::Down];
    broadcast use vstd::seq_lib::group_filter_ensures;

    assert forall|d: Direction| #[trigger] is_legal(board, d) implies legal_moves_spec(board).contains(d) by {
        assert(s[dir_index(d)] == d);
    }
    if legal_moves_spec(board).len() == 0 {
        assert forall|d: Direction| !#[trigger] is_legal(board, d) by {
            if is_legal(board, d) {
                assert(s[dir_index(d)] == d);
                assert(legal_moves_spec(board).contains(d));
            }
        }
    } else {
        let d0 = legal_moves_spec(board)[0];
        assert(is_legal(board, d0));
    }
}

/// The legal moves of a board, in the order of `Direction::ALL`.
pub fn legal_moves(board: u64) -> (v: Vec<Direction>)
    ensures
        v@ == legal_moves_spec(board),
        forall|k: int| 0 <= k < v@.len() ==> is_legal(board, #[trigger] v@[k]),
        forall|d: Direction| #[trigger] is_legal(board, d) ==> v@.contains(d),
        v@.len() == 0 <==> forall|d: Direction| !#[trigger] is_legal(board, d),
{
    proof {
        lemma_legal_moves(board);
    }
    let all = [Direction::Left, Direction::Right, Direction::Up, Direction::Down];
    let ghost s = seq![Direction::Left, Direction::Right, Direction::Up, Direction::Down];
    assert(all@ == s);
    let mut v: Vec<Direction> = Vec::new();
    let mut i: usize = 0;
    while i < 4
        invariant
            i <= 4,
            all@ == s,
            v@ == s.take(i as int).filter(|d: Direction| is_legal(board, d)),
        decreases 4 - i,
    {
        let d = all[i];
        let (legal, _, _) = try_move(board, d);
        proof {
            reveal(Seq::filter);
            let p = |d: Direction| is_legal(board, d);
            let t = s.take(i + 1);
            assert(t.drop_last() =~= s.take(i as int));
            assert(t.last() == d);
            assert(t.filter(p) == if p(d) {
                t.drop_last().filter(p).push(d)
            } else {
                t.drop_last().filter(p)
            });
        }
        if legal {
            v.push(d);
        }
        i += 1;
    }
    assert(s.take(4) =~= s);
    v
}

/// A move on a board wins at most 4 lines times two merges of 2^16.
pub proof fn lemma_move_score_bounded(board: u64, dir: Direction)
    ensures
        move_score(cells(board), dir) <= 524288,
{
    lemma2_to64();
    lemma_line_bounded(board, dir, 0);
    lemma_line_bounded(board, dir, 1);
    lemma_line_bounded(board, dir, 2);
    lemma_line_bounded(board, dir, 3);
    lemma_slide_bounded(line(cells(board), dir, 0));
    lemma_slide_bounded(line(cells(board), dir, 1));
    lemma_slide_bounded(line(cells(board), dir, 2));
    lemma_slide_bounded(line(cells(board), dir, 3));
}

/// Cells of a board mirrored left to right.
pub open spec fn mirrored(cs: Seq<u8>) -> Seq<u8> {
    Seq::new(16, |i: int| cs[4 * (i / 4) + 3 - i % 4])
}

/// Cells of a board with rows and columns swapped.
pub open spec fn transposed(cs: Seq<u8>) -> Seq<u8> {
    Seq::new(16, |i: int| cs[4 * (i % 4) + i / 4])
}

proof fn lemma_same_lines(cs: Seq<u8>, other: Seq<u8>, dir: Direction, odir: Direction, map: spec_fn(int) -> int)
    requires
        cs.len() == 16,
        other.len() == 16,
        forall|k: int| 0 <= k < 4 ==> #[trigger] line(other, odir, k) == line(cs, dir, k),
        forall|i: int| 0 <= i < 16 ==> 0 <= #[trigger] map(i) < 16 && line_of(odir, map(i)) == line_of(dir, i)
            && pos_of(odir, map(i)) == pos_of(dir, i),
    ensures
        forall|i: int| 0 <= i < 16 ==> #[trigger] moved_cells(cs, dir)[i] == moved_cells(other, odir)[map(i)],
        forall|i: int| 0 <= i < 16 ==> #[trigger] slid_cells(cs, dir)[i] == slid_cells(other, odir)[map(i)],
        move_score(cs, dir) == move_score(other, odir),
{
    assert forall|i: int| 0 <= i < 16 implies #[trigger] moved_cells(cs, dir)[i] == moved_cells(other, odir)[map(i)] by {
        assert(0 <= map(i) < 16);
        assert(0 <= line_of(dir, i) < 4);
        assert(line(other, odir, line_of(dir, i)) == line(cs, dir, line_of(dir, i)));
    }
    assert forall|i: int| 0 <= i < 16 implies #[trigger] slid_cells(cs, dir)[i] == slid_cells(other, odir)[map(i)] by {
        assert(0 <= map(i) < 16);
        assert(0 <= line_of(dir, i) < 4);
        assert(line(other, odir, line_of(dir, i)) == line(cs, dir, line_of(dir, i)));
    }
    assert(line(other, odir, 0) == line(cs, dir, 0));
    assert(line(other, odir, 1) == line(cs, dir, 1));
    assert(line(other, odir, 2) == line(cs, dir, 2));
    assert(line(other, odir, 3) == line(cs, dir, 3));
}

/// The four moves are one slide seen from four sides: moving right is
/// moving left on the mirrored board, moving up is moving left on the
/// transposed board, moving down is moving right on the transposed board;
/// the cells come back mirrored or transposed and the points are the same.
/// This holds of the stored cells and of the reference grid alike.
pub proof fn law_direction_symmetries(cs: Seq<u8>)
    requires
        cs.len() == 16,
    ensures
        moved_cells(cs, Direction::Right) == mirrored(moved_cells(mirrored(cs), Direction::Left)),
        slid_cells(cs, Direction::Right) == mirrored(slid_cells(mirrored(cs), Direction::Left)),
        move_score(cs, Direction::Right) == move_score(mirrored(cs), Direction::Left),
        moved_cells(cs, Direction::Up) == transposed(moved_cells(transposed(cs), Direction::Left)),
        slid_cells(cs, Direction::Up) == transposed(slid_cells(transposed(cs), Direction::Left)),
        move_score(cs, Direction::Up) == move_score(transposed(cs), Direction::Left),
        moved_cells(cs, Direction::Down) == transposed(moved_cells(transposed(cs), Direction::Right)),
        slid_cells(cs, Direction::Down) == transposed(slid_cells(transposed(cs), Direction::Right)),
        move_score(cs, Direction::Down) == move_score(transposed(cs), Direction::Right),
{
    let m = mirrored(cs);
    let t = transposed(cs);
    let mir = |i: int| 4 * (i / 4) + 3 - i % 4;
    let tr = |i: int| 4 * (i % 4) + i / 4;
    assert forall|k: int| 0 <= k < 4 implies #[trigger] line(m, Direction::Left, k) == line(cs, Direction::Right, k) by {
        assert(line(m, Direction::Left, k) =~= line(cs, Direction::Right, k));
    }
    assert forall|k: int| 0 <= k < 4 implies #[trigger] line(t, Direction::Left, k) == line(cs, Direction::Up, k) by {
        assert(line(t, Direction::Left, k) =~= line(cs, Direction::Up, k));
    }
    assert forall|k: int| 0 <= k < 4 implies #[trigger] line(t, Direction::Right, k) == line(cs, Direction::Down, k) by {
        assert(line(t, Direction::Right, k) =~= line(cs, Direction::Down, k));
    }
    lemma_same_lines(cs, m, Direction::Right, Direction::Left, mir);
    lemma_same_lines(cs, t, Direction::Up, Direction::Left, tr);
    lemma_same_lines(cs, t, Direction::Down, Direction::Right, tr);
    assert(moved_cells(cs, Direction::Right) =~= mirrored(moved_cells(m, Direction::Left)));
    assert(slid_cells(cs, Direction::Right) =~= mirrored(slid_cells(m, Direction::Left)));
    assert(moved_cells(cs, Direction::Up) =~= transposed(moved_cells(t, Direction::Left)));
    assert(slid_cells(cs, Direction::Up) =~= transposed(slid_cells(t, Direction::Left)));
    assert(moved_cells(cs, Direction::Down) =~= transposed(moved_cells(t, Direction::Right)));
    assert(slid_cells(cs, Direction::Down) =~= transposed(slid_cells(t, Direction::Right)));
}

/// Value of a tile of exponent `e`: 2^e, and 0 for an empty cell.
#[verifier::opaque]
pub open spec fn tile_value(e: u8) -> nat {
    if e == 0 {
        0
    } else {
        pow2(e as nat)
    }
}

/// Total value of the tiles of `s`.
#[verifier::opaque]
pub open spec fn tiles_value(s: Seq<u8>) -> nat
    decreases s.len(),
{
    if s.len() == 0 {
        0
    } else {
        tiles_value(s.drop_last()) + tile_value(s.last())
    }
}

/// Number of tiles (non-empty cells) of `s`.
#[verifier::opaque]
pub open spec fn tile_count(s: Seq<u8>) -> nat
    decreases s.len(),
{
    if s.len() == 0 {
        0
    } else {
        tile_count(s.drop_last()) + tile_flag(s.last())
    }
}

/// 1 for a tile, 0 for an empty cell.
#[verifier::opaque]
pub open spec fn tile_flag(e: u8) -> nat {
    if e != 0 {
        1
    } else {
        0
    }
}

proof fn lemma_tiles_concat(a: Seq<u8>, b: Seq<u8>)
    ensures
        tiles_value(a + b) == tiles_value(a) + tiles_value(b),
        tile_count(a + b) == tile_count(a) + tile_count(b),
    decreases b.len(),
{
    reveal(tiles_value);
    reveal(tile_count);
    if b.len() == 0 {
        assert(a + b =~= a);
    } else {
        assert((a + b).drop_last() =~= a + b.drop_last());
        assert((a + b).last() == b.last());
        lemma_tiles_concat(a, b.drop_last());
    }
}

proof fn lemma_tiles_single(x: u8)
    ensures
        tiles_value(seq![x]) == tile_value(x),
        tile_count(seq![x]) == tile_flag(x),
{
    reveal_with_fuel(tiles_value, 2);
    reveal_with_fuel(tile_count, 2);
    reveal(tile_value);
    assert(seq![x].drop_last() =~= Seq::<u8>::empty());
    assert(seq![x].last() == x);
}

proof fn lemma_tiles_zeros(n: nat)
    ensures
        tiles_value(Seq::new(n, |i: int| 0u8)) == 0,
        tile_count(Seq::new(n, |i: int| 0u8)) == 0,
    decreases n,
{
    reveal(tiles_value);
    reveal(tile_count);
    reveal(tile_value);
    reveal(tile_flag);
    if n > 0 {
        assert(Seq::new(n, |i: int| 0u8).drop_last() =~= Seq::new((n - 1) as nat, |i: int| 0u8));
        lemma_tiles_zeros((n - 1) as nat);
    }
}

proof fn lemma_compact_tiles(s: Seq<u8>)
    ensures
        tiles_value(compact(s)) == tiles_value(s),
        tile_count(compact(s)) == tile_count(s),
        tile_count(s) == compact(s).len(),
    decreases s.len(),
{
    reveal(tiles_value);
    reveal(tile_count);
    reveal(tile_value);
    reveal(tile_flag);
    if s.len() > 0 {
        lemma_compact_tiles(s.drop_last());
        let c = compact(s.drop_last());
        if s.last() != 0 {
            assert(c.push(s.last()).drop_last() =~= c);
        }
    }
}

proof fn lemma_merge_tiles(c: Seq<u8>)
    requires
        forall|k: int| 0 <= k < c.len() ==> 0 < #[trigger] c[k] <= 14,
    ensures
        tiles_value(merge_pairs(c)) == tiles_value(c),
        tile_count(merge_pairs(c)) == merge_pairs(c).len(),
        merge_pairs(c).len() <= c.len(),
        (merge_score(c) == 0) == (merge_pairs(c).len() == c.len()),
        all_at_most(merge_pairs(c), 15),
    decreases c.len(),
{
    if c.len() == 0 {
        reveal(tiles_value);
        reveal(tile_count);
    }
    if c.len() >= 2 && c[0] == c[1] {
        let rest = c.subrange(2, c.len() as int);
        let x = (c[0] + 1) as u8;
        assert forall|k: int| 0 <= k < rest.len() implies 0 < #[trigger] rest[k] <= 14 by {
            assert(rest[k] == c[k + 2]);
        }
        lemma_merge_tiles(rest);
        lemma_tiles_concat(seq![x], merge_pairs(rest));
        lemma_tiles_single(x);
        reveal(tile_value);
        reveal(tile_flag);
        assert(c =~= seq![c[0]] + seq![c[1]] + rest);
        lemma_tiles_concat(seq![c[0]] + seq![c[1]], rest);
        lemma_tiles_concat(seq![c[0]], seq![c[1]]);
        lemma_tiles_single(c[0]);
        lemma_tiles_single(c[1]);
        lemma_pow2_adds(c[0] as nat, 1);
        lemma2_to64();
        vstd::arithmetic::power2::lemma_pow2_pos((c[0] + 1) as nat);
        let m = merge_pairs(c);
        assert forall|k: int| 0 <= k < m.len() implies #[trigger] m[k] <= 15 by {
            if k > 0 {
                assert(m[k] == merge_pairs(rest)[k - 1]);
            }
        }
    } else if c.len() > 0 {
        let rest = c.drop_first();
        assert forall|k: int| 0 <= k < rest.len() implies 0 < #[trigger] rest[k] <= 14 by {
            assert(rest[k] == c[k + 1]);
        }
        lemma_merge_tiles(rest);
        lemma_tiles_concat(seq![c[0]], merge_pairs(rest));
        lemma_tiles_single(c[0]);
        assert(c =~= seq![c[0]] + rest);
        lemma_tiles_concat(seq![c[0]], rest);
        reveal(tile_flag);
        let m = merge_pairs(c);
        assert forall|k: int| 0 <= k < m.len() implies #[trigger] m[k] <= 15 by {
            if k > 0 {
                assert(m[k] == merge_pairs(rest)[k - 1]);
            }
        }
    }
}

/// On a line of four exponents of at most 14, sliding keeps the value of
/// the tiles, never adds a tile, scores exactly when tiles merge, and stores
/// back without spilling.
proof fn lemma_slide_tiles(l: Seq<u8>)
    requires
        l.len() == 4,
        all_at_most(l, 14),
    ensures
        tiles_value(packed(slide(l))) == tiles_value(l),
        tile_count(packed(slide(l))) <= tile_count(l),
        (slide_score(l) == 0) == (tile_count(packed(slide(l))) == tile_count(l)),
{
    let c = compact(l);
    lemma_compact_len(l);
    lemma_compact_bounded(l, 14);
    lemma_compact_tiles(l);
    assert forall|k: int| 0 <= k < c.len() implies 0 < #[trigger] c[k] <= 14 by {}
    lemma_merge_tiles(c);
    let m = merge_pairs(c);
    let zeros = Seq::new((4 - m.len()) as nat, |i: int| 0u8);
    lemma_tiles_concat(m, zeros);
    lemma_tiles_zeros((4 - m.len()) as nat);
    let sl = slide(l);
    assert(sl == m + zeros);
    assert forall|j: int| 0 <= j < 4 implies #[trigger] packed(sl)[j] == sl[j] by {
        let x = sl[j];
        assert(x <= 15) by {
            if j < m.len() {
                assert(sl[j] == m[j]);
            }
        }
        assert(x & 0xF == x) by (bit_vector)
            requires x <= 15;
        if j > 0 {
            let y = sl[j - 1];
            assert(y <= 15) by {
                if j - 1 < m.len() {
                    assert(sl[j - 1] == m[j - 1]);
                }
            }
            assert(y >> 4u8 == 0) by (bit_vector)
                requires y <= 15;
            assert((x & 0xF) | 0u8 == x & 0xF) by (bit_vector);
        }
    }
    assert(packed(sl) =~= sl);
}

proof fn lemma_tiles16(cs: Seq<u8>)
    requires
        cs.len() == 16,
    ensures
        tiles_value(cs) == tile_value(cs[0]) + tile_value(cs[1]) + tile_value(cs[2]) + tile_value(cs[3]) + tile_value(cs[4]) + tile_value(cs[5]) + tile_value(cs[6]) + tile_value(cs[7]) + tile_value(cs[8]) + tile_value(cs[9]) + tile_value(cs[10]) + tile_value(cs[11]) + tile_value(cs[12]) + tile_value(cs[13]) + tile_value(cs[14]) + tile_value(cs[15]),
        tile_count(cs) == tile_flag(cs[0]) + tile_flag(cs[1]) + tile_flag(cs[2]) + tile_flag(cs[3]) + tile_flag(cs[4]) + tile_flag(cs[5]) + tile_flag(cs[6]) + tile_flag(cs[7]) + tile_flag(cs[8]) + tile_flag(cs[9]) + tile_flag(cs[10]) + tile_flag(cs[11]) + tile_flag(cs[12]) + tile_flag(cs[13]) + tile_flag(cs[14]) + tile_flag(cs[15]),
{
    reveal_with_fuel(tiles_value, 17);
    reveal_with_fuel(tile_count, 17);
    assert(cs.take(16).drop_last() =~= cs.take(15));
    assert(cs.take(15).drop_last() =~= cs.take(14));
    assert(cs.take(14).drop_last() =~= cs.take(13));
    assert(cs.take(13).drop_last() =~= cs.take(12));
    assert(cs.take(12).drop_last() =~= cs.take(11));
    assert(cs.take(11).drop_last() =~= cs.take(10));
    assert(cs.take(10).drop_last() =~= cs.take(9));
    assert(cs.take(9).drop_last() =~= cs.take(8));
    assert(cs.take(8).drop_last() =~= cs.take(7));
    assert(cs.take(7).drop_last() =~= cs.take(6));
    assert(cs.take(6).drop_last() =~= cs.take(5));
    assert(cs.take(5).drop_last() =~= cs.take(4));
    assert(cs.take(4).drop_last() =~= cs.take(3));
    assert(cs.take(3).drop_last() =~= cs.take(2));
    assert(cs.take(2).drop_last() =~= cs.take(1));
    assert(cs.take(1).drop_last() =~= cs.take(0));
    assert(cs.take(16) =~= cs);
}

proof fn lemma_tiles4(l: Seq<u8>)
    requires
        l.len() == 4,
    ensures
        tiles_value(l) == tile_value(l[0]) + tile_value(l[1]) + tile_value(l[2]) + tile_value(l[3]),
        tile_count(l) == tile_flag(l[0]) + tile_flag(l[1]) + tile_flag(l[2]) + tile_flag(l[3]),
{
    reveal_with_fuel(tiles_value, 5);
    reveal_with_fuel(tile_count, 5);
    assert(l.drop_last().drop_last().drop_last().drop_last() =~= Seq::<u8>::empty());
}

proof fn lemma_sum_by_lines(cs: Seq<u8>, dir: Direction)
    requires
        cs.len() == 16,
    ensures
        tiles_value(cs) == tiles_value(line(cs, dir, 0)) + tiles_value(line(cs, dir, 1))
            + tiles_value(line(cs, dir, 2)) + tiles_value(line(cs, dir, 3)),
        tile_count(cs) == tile_count(line(cs, dir, 0)) + tile_count(line(cs, dir, 1))
            + tile_count(line(cs, dir, 2)) + tile_count(line(cs, dir, 3)),
{
    lemma_tiles16(cs);
    let l0 = line(cs, dir, 0);
    let l1 = line(cs, dir, 1);
    let l2 = line(cs, dir, 2);
    let l3 = line(cs, dir, 3);
    lemma_tiles4(l0);
    lemma_tiles4(l1);
    lemma_tiles4(l2);
    lemma_tiles4(l3);
    match dir {
        Direction::Left => {
            assert(l0[0] == cs[0] && l0[1] == cs[1] && l0[2] == cs[2] && l0[3] == cs[3]);
            assert(l1[0] == cs[4] && l1[1] == cs[5] && l1[2] == cs[6] && l1[3] == cs[7]);
            assert(l2[0] == cs[8] && l2[1] == cs[9] && l2[2] == cs[10] && l2[3] == cs[11]);
            assert(l3[0] == cs[12] && l3[1] == cs[13] && l3[2] == cs[14] && l3[3] == cs[15]);
        },
        Direction::Right => {
            assert(l0[0] == cs[3] && l0[1] == cs[2] && l0[2] == cs[1] && l0[3] == cs[0]);
            assert(l1[0] == cs[7] && l1[1] == cs[6] && l1[2] == cs[5] && l1[3] == cs[4]);
            assert(l2[0] == cs[11] && l2[1] == cs[10] && l2[2] == cs[9] && l2[3] == cs[8]);
            assert(l3[0] == cs[15] && l3[1] == cs[14] && l3[2] == cs[13] && l3[3] == cs[12]);
        },
        Direction::Up => {
            assert(l0[0] == cs[0] && l0[1] == cs[4] && l0[2] == cs[8] && l0[3] == cs[12]);
            assert(l1[0] == cs[1] && l1[1] == cs[5] && l1[2] == cs[9] && l1[3] == cs[13]);
            assert(l2[0] == cs[2] && l2[1] == cs[6] && l2[2] == cs[10] && l2[3] == cs[14]);
            assert(l3[0] == cs[3] && l3[1] == cs[7] && l3[2] == cs[11] && l3[3] == cs[15]);
        },
        Direction::Down => {
            assert(l0[0] == cs[12] && l0[1] == cs[8] && l0[2] == cs[4] && l0[3] == cs[0]);
            assert(l1[0] == cs[13] && l1[1] == cs[9] && l1[2] == cs[5] && l1[3] == cs[1]);
            assert(l2[0] == cs[14] && l2[1] == cs[10] && l2[2] == cs[6] && l2[3] == cs[2]);
            assert(l3[0] == cs[15] && l3[1] == cs[11] && l3[2] == cs[7] && l3[3] == cs[3]);
        },
    }
}

/// With every exponent at most 14, a move keeps the total value of the
/// tiles, never adds a tile, and wins points exactly when tiles merge (when
/// the number of tiles goes down).
pub proof fn law_move_conserves_tiles(cs: Seq<u8>, dir: Direction)
    requires
        cs.len() == 16,
        all_at_most(cs, 14),
    ensures
        tiles_value(moved_cells(cs, dir)) == tiles_value(cs),
        tile_count(moved_cells(cs, dir)) <= tile_count(cs),
        (move_score(cs, dir) == 0) == (tile_count(moved_cells(cs, dir)) == tile_count(cs)),
{
    let mc = moved_cells(cs, dir);
    assert forall|k: int| 0 <= k < 4 implies #[trigger] line(mc, dir, k) == moved_line(cs, dir, k) && all_at_most(line(cs, dir, k), 14) by {
        assert(line(mc, dir, k) =~= moved_line(cs, dir, k));
        let l = line(cs, dir, k);
        assert forall|j: int| 0 <= j < 4 implies #[trigger] l[j] <= 14 by {
            assert(l[j] == cs[line_index(dir, k, j)]);
        }
    }
    lemma_slide_tiles(line(cs, dir, 0));
    lemma_slide_tiles(line(cs, dir, 1));
    lemma_slide_tiles(line(cs, dir, 2));
    lemma_slide_tiles(line(cs, dir, 3));
    lemma_sum_by_lines(cs, dir);
    lemma_sum_by_lines(mc, dir);
}

proof fn lemma_compact_is_filter(s: Seq<u8>)
    ensures
        compact(s) == s.filter(|x: u8| x != 0),
    decreases s.len(),
{
    reveal(Seq::filter);
    if s.len() > 0 {
        lemma_compact_is_filter(s.drop_last());
    }
}

proof fn lemma_compact_of_tiles(t: Seq<u8>)
    requires
        forall|k: int| 0 <= k < t.len() ==> #[trigger] t[k] != 0,
    ensures
        compact(t) == t,
    decreases t.len(),
{
    if t.len() > 0 {
        lemma_compact_of_tiles(t.drop_last());
        assert(t.drop_last().push(t.last()) =~= t);
    }
}

/// The tiles of a line left once its edge cell is filled: the tiles after
/// the first two when these merge, after the first one otherwise.
pub open spec fn tiles_after_edge(l: Seq<u8>) -> Seq<u8> {
    let c = compact(l);
    if c.len() >= 2 && c[0] == c[1] {
        c.subrange(2, c.len() as int)
    } else if c.len() >= 1 {
        c.subrange(1, c.len() as int)
    } else {
        c
    }
}

/// Sliding a line keeps its tiles in order and merges from the edge: the
/// tiles of the line are its non-empty cells in order; the cell against the
/// edge receives the merge of the first two tiles when they are equal (and
/// wins its value), the first tile otherwise (0 when the line is empty);
/// the rest of the line is the slide of the tiles left, one cell further.
pub proof fn law_slide_merges_from_the_edge(l: Seq<u8>)
    requires
        l.len() == 4,
        all_at_most(l, 15),
    ensures
        compact(l) == l.filter(|x: u8| x != 0),
        compact(l).len() >= 2 && compact(l)[0] == compact(l)[1] ==> slide(l)[0] == compact(l)[0] + 1
            && slide_score(l) == pow2((compact(l)[0] + 1) as nat) + slide_score(tiles_after_edge(l)),
        compact(l).len() >= 2 && compact(l)[0] != compact(l)[1] ==> slide(l)[0] == compact(l)[0]
            && slide_score(l) == slide_score(tiles_after_edge(l)),
        compact(l).len() == 1 ==> slide(l)[0] == compact(l)[0],
        compact(l).len() <= 1 ==> slide_score(l) == 0,
        compact(l).len() == 0 ==> slide(l)[0] == 0,
        slide(l).subrange(1, 4) == slide(tiles_after_edge(l)).take(3),
{
    lemma_compact_is_filter(l);
    lemma_compact_len(l);
    lemma_compact_bounded(l, 15);
    let c = compact(l);
    lemma_merge_pairs_len(c);
    let m = merge_pairs(c);
    let t = tiles_after_edge(l);
    assert forall|k: int| 0 <= k < t.len() implies #[trigger] t[k] != 0 by {
        if c.len() >= 2 && c[0] == c[1] {
            assert(t[k] == c[k + 2]);
        } else if c.len() >= 1 {
            assert(t[k] == c[k + 1]);
        }
    }
    lemma_compact_of_tiles(t);
    lemma_merge_pairs_len(t);
    if c.len() == 1 {
        assert(c.drop_first().len() == 0);
        assert(merge_score(c.drop_first()) == 0);
    }
    if c.len() > 0 {
        assert(c[0] <= 15);
        assert(slide(l)[0] == m[0]);
        if c.len() >= 2 && c[0] == c[1] {
            assert(t =~= c.subrange(2, c.len() as int));
        } else {
            assert(t =~= c.drop_first());
        }
        assert(m == seq![m[0]] + merge_pairs(t));
        assert(slide(l).subrange(1, 4) =~= slide(t).take(3));
    } else {
        assert(t =~= c);
        assert(slide(l).subrange(1, 4) =~= slide(t).take(3));
    }
}

} // verus!
