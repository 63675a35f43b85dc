//! Board features ("pistes"), each one switchable on its own in a
//! configuration. This module computes the integer measure behind each
//! feature; the normalised values divide these measures by their worst
//! case, or, for smoothness, average the closeness reward over the pairs of
//! occupied neighbours.

use vstd::prelude::*;
use vstd::arithmetic::power2::{lemma2_to64, lemma_pow2_adds, lemma_pow2_strictly_increases, pow2};
use vstd::bits::lemma_u64_shl_is_mul;
use crate::board::{
    all_at_most, cells, empty_cells, empty_cells_of, get_cell, line, max_exponent, max_exponent_of,
    tile_value, Direction,
};

verus! {

/// Stable name of each feature, used in configurations to switch features
/// on and off one by one.
#[derive(Debug, Clone, Copy, PartialEq, Eq, Hash, Structural)]
pub enum Feature {
    EmptyCells,
    Monotonicity,
    Smoothness,
    MaxTileInCorner,
    MergesAvailable,
    SnakeWeighted,
}

/// The configuration name of a feature.
pub open spec fn feature_name(f: Feature) -> Seq<char> {
    match f {
        Feature::EmptyCells => "empty_cells"@,
        Feature::Monotonicity => "monotonicity"@,
        Feature::Smoothness => "smoothness"@,
        Feature::MaxTileInCorner => "max_tile_in_corner"@,
        Feature::MergesAvailable => "merges_available"@,
        Feature::SnakeWeighted => "snake_weighted"@,
    }
}

impl Feature {
    /// All features, in the order of their columns.
    pub const ALL: [Feature; 6] = [
        Feature::EmptyCells,
        Feature::Monotonicity,
        Feature::Smoothness,
        Feature::MaxTileInCorner,
        Feature::MergesAvailable,
        Feature::SnakeWeighted,
    ];

    /// The configuration name of the feature.
    pub fn name(self) -> (s: &'static str)
        ensures
            s@ == feature_name(self),
    {
        match self {
            Feature::EmptyCells => "empty_cells",
            Feature::Monotonicity => "monotonicity",
            Feature::Smoothness => "smoothness",
            Feature::MaxTileInCorner => "max_tile_in_corner",
            Feature::MergesAvailable => "merges_available",
            Feature::SnakeWeighted => "snake_weighted",
        }
    }

    /// The feature of a configuration name, if there is one.
    pub fn from_name(name: &str) -> (r: Option<Feature>)
        ensures
            r matches Some(f) ==> feature_name(f) == name@,
            r is None ==> forall|f: Feature| #[trigger] feature_name(f) != name@,
    {
        let n = name.to_owned();
        if n == "empty_cells".to_owned() {
            Some(Feature::EmptyCells)
        } else if n == "monotonicity".to_owned() {
            Some(Feature::Monotonicity)
        } else if n == "smoothness".to_owned() {
            Some(Feature::Smoothness)
        } else if n == "max_tile_in_corner".to_owned() {
            Some(Feature::MaxTileInCorner)
        } else if n == "merges_available".to_owned() {
            Some(Feature::MergesAvailable)
        } else if n == "snake_weighted".to_owned() {
            Some(Feature::SnakeWeighted)
        } else {
            None
        }
    }
}

/// Distinct features have distinct names, so a name reads back as the
/// feature it names.
pub proof fn law_feature_names_distinct(f: Feature, g: Feature)
    ensures
        feature_name(f) == feature_name(g) ==> f == g,
{
    reveal_strlit("empty_cells");
    reveal_strlit("monotonicity");
    reveal_strlit("smoothness");
    reveal_strlit("max_tile_in_corner");
    reveal_strlit("merges_available");
    reveal_strlit("snake_weighted");
    if f != g {
        assert(feature_name(f).len() != feature_name(g).len() || feature_name(f)[0] != feature_name(g)[0]
            || feature_name(f)[1] != feature_name(g)[1]);
    }
}

/// Number of empty cells: the measure behind `empty_cells` (out of 16).
pub fn empty_cell_count(board: u64) -> (n: u32)
    ensures
        n == empty_cells_of(board).len(),
{
    let e = empty_cells(board);
    proof {
        lemma_empty_count(board);
    }
    e.len() as u32
}

proof fn lemma_empty_count(board: u64)
    ensures
        empty_cells_of(board).len() <= 16,
{
    crate::board::lemma_empty_positions(cells(board), 16);
}

/// Amount by which a line goes down from `a` to `b`.
pub open spec fn drop_between(a: u8, b: u8) -> int {
    if a > b {
        a - b
    } else {
        0
    }
}

/// Amount by which a line goes up from `a` to `b`.
pub open spec fn rise_between(a: u8, b: u8) -> int {
    if a > b {
        0
    } else {
        b - a
    }
}

/// What a line loses against increasing order: the sum of its drops over
/// its first `n` neighbouring pairs.
pub open spec fn drops(l: Seq<u8>, n: int) -> int
    decreases n,
{
    if n <= 0 {
        0
    } else {
        drops(l, n - 1) + drop_between(l[n - 1], l[n])
    }
}

/// What a line loses against decreasing order: the sum of its rises over
/// its first `n` neighbouring pairs.
pub open spec fn rises(l: Seq<u8>, n: int) -> int
    decreases n,
{
    if n <= 0 {
        0
    } else {
        rises(l, n - 1) + rise_between(l[n - 1], l[n])
    }
}

/// Penalty of a line: what it loses against the better of the two orders.
pub open spec fn line_penalty(l: Seq<u8>) -> int {
    if drops(l, 3) < rises(l, 3) {
        drops(l, 3)
    } else {
        rises(l, 3)
    }
}

/// Sum of the penalties of the first `n` rows and the first `n` columns.
pub open spec fn monotonicity_penalty_upto(cs: Seq<u8>, n: int) -> int
    decreases n,
{
    if n <= 0 {
        0
    } else {
        monotonicity_penalty_upto(cs, n - 1) + line_penalty(line(cs, Direction::Left, n - 1))
            + line_penalty(line(cs, Direction::Up, n - 1))
    }
}

/// Penalty of the whole board: the measure behind `monotonicity`, out of
/// a worst case of 8 lines times 15 (reached by a board alternating 0 and
/// 15 like a checkerboard).
pub open spec fn monotonicity_penalty_of(cs: Seq<u8>) -> int {
    monotonicity_penalty_upto(cs, 4)
}

/// Row `k` (for `Left`) or column `k` (for `Up`) of the board.
fn line_at(board: u64, dir: Direction, k: usize) -> (l: [u8; 4])
    requires
        k < 4,
        dir == Direction::Left || dir == Direction::Up,
    ensures
        l@ == line(cells(board), dir, k as int),
        all_at_most(l@, 15),
{
    let l = if dir == Direction::Left {
        [get_cell(board, k, 0), get_cell(board, k, 1), get_cell(board, k, 2), get_cell(board, k, 3)]
    } else {
        [get_cell(board, 0, k), get_cell(board, 1, k), get_cell(board, 2, k), get_cell(board, 3, k)]
    };
    assert(l@ =~= line(cells(board), dir, k as int));
    l
}

/// Penalty of a line: the smaller of its drops and its rises.
fn penalty_for_line(l: [u8; 4]) -> (p: u32)
    requires
        all_at_most(l@, 15),
    ensures
        p == line_penalty(l@),
        p <= 15,
{
    let mut increasing: u32 = 0;
    let mut decreasing: u32 = 0;
    let mut w: usize = 0;
    while w < 3
        invariant
            w <= 3,
            all_at_most(l@, 15),
            increasing == drops(l@, w as int),
            decreasing == rises(l@, w as int),
            increasing <= 15 * w,
            decreasing <= 15 * w,
        decreases 3 - w,
    {
        let a = l[w];
        let b = l[w + 1];
        assert(a <= 15 && b <= 15);
        if a > b {
            increasing += (a - b) as u32;
        } else {
            decreasing += (b - a) as u32;
        }
        w += 1;
    }
    proof {
        lemma_line_penalty_bounded(l@);
    }
    if increasing < decreasing {
        increasing
    } else {
        decreasing
    }
}

/// Of the three steps of a line, either the drops or the rises take one
/// step at most, so a line's penalty never exceeds 15.
proof fn lemma_line_penalty_bounded(l: Seq<u8>)
    requires
        l.len() == 4,
        all_at_most(l, 15),
    ensures
        line_penalty(l) <= 15,
{
    reveal_with_fuel(drops, 4);
    reveal_with_fuel(rises, 4);
    assert(l[0] <= 15 && l[1] <= 15 && l[2] <= 15 && l[3] <= 15);
}

/// The measure behind `monotonicity`: for each row and each column, what
/// it loses against the better of increasing and decreasing order, summed.
pub fn monotonicity_penalty(board: u64) -> (p: u32)
    ensures
        p == monotonicity_penalty_of(cells(board)),
        p <= 120,
{
    let mut total: u32 = 0;
    let mut k: usize = 0;
    while k < 4
        invariant
            k <= 4,
            total == monotonicity_penalty_upto(cells(board), k as int),
            total <= 30 * k,
        decreases 4 - k,
    {
        let row = line_at(board, Direction::Left, k);
        let col = line_at(board, Direction::Up, k);
        total += penalty_for_line(row) + penalty_for_line(col);
        k += 1;
    }
    total
}

/// Gap between two neighbouring exponents.
pub open spec fn gap(a: u8, b: u8) -> int {
    if a > b {
        a - b
    } else {
        b - a
    }
}

/// Closeness reward of two neighbouring cells, in units of 2^-15: when both
/// hold a tile, 2^(15 - gap), i.e. 1.0 for equal exponents, 0.5 for a gap of
/// 1, 0.25 for a gap of 2...; 0 when one of them is empty, since empty
/// space is no incoherence.
pub open spec fn closeness(a: u8, b: u8) -> int {
    if a != 0 && b != 0 {
        pow2((15 - gap(a, b)) as nat) as int
    } else {
        0
    }
}

/// 1 when both neighbouring cells hold a tile, 0 otherwise.
pub open spec fn occupied_pair(a: u8, b: u8) -> int {
    if a != 0 && b != 0 {
        1
    } else {
        0
    }
}

/// Closeness rewards of the three neighbouring pairs of a line.
pub open spec fn line_closeness(l: Seq<u8>) -> int {
    closeness(l[0], l[1]) + closeness(l[1], l[2]) + closeness(l[2], l[3])
}

/// Occupied pairs among the three neighbouring pairs of a line.
pub open spec fn line_occupied_pairs(l: Seq<u8>) -> int {
    occupied_pair(l[0], l[1]) + occupied_pair(l[1], l[2]) + occupied_pair(l[2], l[3])
}

/// Closeness rewards over the first `n` rows and the first `n` columns.
pub open spec fn closeness_upto(cs: Seq<u8>, n: int) -> int
    decreases n,
{
    if n <= 0 {
        0
    } else {
        closeness_upto(cs, n - 1) + line_closeness(line(cs, Direction::Left, n - 1))
            + line_closeness(line(cs, Direction::Up, n - 1))
    }
}

/// Occupied pairs over the first `n` rows and the first `n` columns.
pub open spec fn occupied_pairs_upto(cs: Seq<u8>, n: int) -> int
    decreases n,
{
    if n <= 0 {
        0
    } else {
        occupied_pairs_upto(cs, n - 1) + line_occupied_pairs(line(cs, Direction::Left, n - 1))
            + line_occupied_pairs(line(cs, Direction::Up, n - 1))
    }
}

/// Closeness reward of two exponents of a board.
fn closeness_of(a: u8, b: u8) -> (r: u32)
    requires
        a <= 15,
        b <= 15,
    ensures
        r == closeness(a, b),
        r <= 32768,
{
    if a != 0 && b != 0 {
        let g: u32 = if a > b {
            (a - b) as u32
        } else {
            (b - a) as u32
        };
        proof {
            lemma2_to64();
            if 15 - g < 15 {
                lemma_pow2_strictly_increases((15 - g) as nat, 15);
            }
            vstd::bits::lemma_u32_shl_is_mul(1u32, (15 - g) as u32);
        }
        1u32 << (15 - g)
    } else {
        0
    }
}

/// Whether two exponents both hold a tile, as 1 or 0.
fn occupied_of(a: u8, b: u8) -> (r: u32)
    ensures
        r == occupied_pair(a, b),
{
    if a != 0 && b != 0 {
        1
    } else {
        0
    }
}

/// The reward behind `smoothness`: over the pairs of neighbouring cells that
/// both hold a tile, the sum of their closeness rewards in units of 2^-15
/// (pairs with an empty cell are left out).
pub fn closeness_sum(board: u64) -> (t: u32)
    ensures
        t == closeness_upto(cells(board), 4),
        t <= 24 * 32768,
{
    let mut total: u32 = 0;
    let mut k: usize = 0;
    while k < 4
        invariant
            k <= 4,
            total == closeness_upto(cells(board), k as int),
            total <= 6 * 32768 * k,
        decreases 4 - k,
    {
        let row = line_at(board, Direction::Left, k);
        let col = line_at(board, Direction::Up, k);
        assert(row@[0] <= 15 && row@[1] <= 15 && row@[2] <= 15 && row@[3] <= 15);
        assert(col@[0] <= 15 && col@[1] <= 15 && col@[2] <= 15 && col@[3] <= 15);
        let r = closeness_of(row[0], row[1]) + closeness_of(row[1], row[2]) + closeness_of(row[2], row[3]);
        let c = closeness_of(col[0], col[1]) + closeness_of(col[1], col[2]) + closeness_of(col[2], col[3]);
        total += r + c;
        k += 1;
    }
    total
}

/// Number of pairs of neighbouring cells that both hold a tile: the pairs
/// over which `smoothness` averages its reward (24 at most).
pub fn occupied_pair_count(board: u64) -> (n: u32)
    ensures
        n == occupied_pairs_upto(cells(board), 4),
        n <= 24,
{
    let mut total: u32 = 0;
    let mut k: usize = 0;
    while k < 4
        invariant
            k <= 4,
            total == occupied_pairs_upto(cells(board), k as int),
            total <= 6 * k,
        decreases 4 - k,
    {
        let row = line_at(board, Direction::Left, k);
        let col = line_at(board, Direction::Up, k);
        let r = occupied_of(row[0], row[1]) + occupied_of(row[1], row[2]) + occupied_of(row[2], row[3]);
        let c = occupied_of(col[0], col[1]) + occupied_of(col[1], col[2]) + occupied_of(col[2], col[3]);
        total += r + c;
        k += 1;
    }
    total
}

/// Whether `a` and `b` are two equal non-empty neighbours.
pub open spec fn mergeable(a: u8, b: u8) -> bool {
    a != 0 && a == b
}

/// Number of mergeable pairs of neighbours in a line.
pub open spec fn line_merges(l: Seq<u8>) -> int {
    (if mergeable(l[0], l[1]) { 1int } else { 0 }) + (if mergeable(l[1], l[2]) { 1int } else { 0 })
        + (if mergeable(l[2], l[3]) { 1int } else { 0 })
}

/// Mergeable pairs over the first `n` rows and the first `n` columns.
pub open spec fn merges_upto(cs: Seq<u8>, n: int) -> int
    decreases n,
{
    if n <= 0 {
        0
    } else {
        merges_upto(cs, n - 1) + line_merges(line(cs, Direction::Left, n - 1)) + line_merges(
            line(cs, Direction::Up, n - 1),
        )
    }
}

/// Mergeable pairs of neighbours in a line.
fn merges_in_line(l: [u8; 4]) -> (n: u32)
    ensures
        n == line_merges(l@),
{
    let mut n: u32 = 0;
    if l[0] != 0 && l[0] == l[1] {
        n += 1;
    }
    if l[1] != 0 && l[1] == l[2] {
        n += 1;
    }
    if l[2] != 0 && l[2] == l[3] {
        n += 1;
    }
    n
}

/// The measure behind `merges_available`: the number of pairs of equal,
/// non-empty neighbouring tiles (out of at most 24 pairs).
pub fn merge_count(board: u64) -> (n: u32)
    ensures
        n == merges_upto(cells(board), 4),
        n <= 24,
{
    let mut count: u32 = 0;
    let mut k: usize = 0;
    while k < 4
        invariant
            k <= 4,
            count == merges_upto(cells(board), k as int),
            count <= 6 * k,
        decreases 4 - k,
    {
        let row = line_at(board, Direction::Left, k);
        let col = line_at(board, Direction::Up, k);
        count += merges_in_line(row) + merges_in_line(col);
        k += 1;
    }
    count
}

/// Whether the largest exponent of the board sits in one of its four
/// corners: the measure behind `max_tile_in_corner` (1 or 0).
pub fn max_tile_in_corner(board: u64) -> (b: bool)
    ensures
        b == {
            let cs = cells(board);
            let m = max_exponent(cs);
            cs[0] == m || cs[3] == m || cs[12] == m || cs[15] == m
        },
{
    let max_exp = max_exponent_of(board);
    let corners = [get_cell(board, 0, 0), get_cell(board, 0, 3), get_cell(board, 3, 0), get_cell(board, 3, 3)];
    corners[0] == max_exp || corners[1] == max_exp || corners[2] == max_exp || corners[3] == max_exp
}

/// Weight of cell `i` on the snake path: decreasing weights that wind
/// through the grid (row 0 left to right, row 1 right to left, ...).
pub open spec fn snake_weight(i: int) -> int {
    seq![15int, 14, 13, 12, 8, 9, 10, 11, 7, 6, 5, 4, 0, 1, 2, 3][i]
}

/// Snake-weighted sum of the tile values of the first `n` cells.
pub open spec fn snake_upto(cs: Seq<u8>, n: int) -> int
    decreases n,
{
    if n <= 0 {
        0
    } else {
        snake_upto(cs, n - 1) + snake_weight(n - 1) * tile_value(cs[n - 1])
    }
}

spec fn weight_upto(n: int) -> int
    decreases n,
{
    if n <= 0 {
        0
    } else {
        weight_upto(n - 1) + snake_weight(n - 1)
    }
}

/// Largest possible snake-weighted sum: every weight times 2^15.
pub const SNAKE_MAX: u64 = 3932160;

/// The measure behind `snake_weighted`: the snake-weighted sum of the tile
/// values, to be divided by `SNAKE_MAX`.
pub fn snake_total(board: u64) -> (t: u64)
    ensures
        t == snake_upto(cells(board), 16),
        t <= SNAKE_MAX,
{
    let weights: [u64; 16] = [15, 14, 13, 12, 8, 9, 10, 11, 7, 6, 5, 4, 0, 1, 2, 3];
    assert(forall|i: int| 0 <= i < 16 ==> #[trigger] weights@[i] == snake_weight(i) && weights@[i] <= 15);
    let mut total: u64 = 0;
    let mut i: usize = 0;
    while i < 16
        invariant
            i <= 16,
            forall|q: int| 0 <= q < 16 ==> #[trigger] weights@[q] == snake_weight(q) && weights@[q] <= 15,
            total == snake_upto(cells(board), i as int),
            total <= 32768 * weight_upto(i as int),
            total <= 491520 * i,
        decreases 16 - i,
    {
        let e = get_cell(board, i / 4, i % 4);
        assert(cells(board)[i as int] == e);
        let value: u64 = if e == 0 {
            0
        } else {
            proof {
                lemma2_to64();
                if e < 15 {
                    lemma_pow2_strictly_increases(e as nat, 15);
                }
                lemma_u64_shl_is_mul(1u64, e as u64);
            }
            1u64 << e
        };
        assert(value == tile_value(e) && value <= 32768) by {
            reveal(tile_value);
        }
        let w = weights[i];
        assert(w * value <= w * 32768) by (nonlinear_arith)
            requires value <= 32768;
        assert(weight_upto(i + 1) == weight_upto(i as int) + w);
        assert(w * value <= 491520);
        total += w * value;
        i += 1;
    }
    assert(weight_upto(16) == 120) by {
        reveal_with_fuel(weight_upto, 17);
    }
    total
}

/// A line's penalty is the smaller of the sum of its three drops and the sum
/// of its three rises (over every pair of neighbours of the line).
pub proof fn law_line_penalty(l: Seq<u8>)
    requires
        l.len() == 4,
    ensures
        line_penalty(l) == if (if l[0] > l[1] { l[0] - l[1] } else { 0int }) + (if l[1] > l[2] { l[1] - l[2] } else { 0int }) + (if l[2] > l[3] { l[2] - l[3] } else { 0int }) < (if l[1] > l[0] { l[1] - l[0] } else { 0int }) + (if l[2] > l[1] { l[2] - l[1] } else { 0int }) + (if l[3] > l[2] { l[3] - l[2] } else { 0int }) {
            (if l[0] > l[1] { l[0] - l[1] } else { 0int }) + (if l[1] > l[2] { l[1] - l[2] } else { 0int }) + (if l[2] > l[3] { l[2] - l[3] } else { 0int })
        } else {
            (if l[1] > l[0] { l[1] - l[0] } else { 0int }) + (if l[2] > l[1] { l[2] - l[1] } else { 0int }) + (if l[3] > l[2] { l[3] - l[2] } else { 0int })
        },
{
    reveal_with_fuel(drops, 4);
    reveal_with_fuel(rises, 4);
}

/// The monotonicity penalty sums the penalties of the four rows and the four
/// columns of the board.
pub proof fn law_monotonicity_covers_rows_and_columns(cs: Seq<u8>)
    requires
        cs.len() == 16,
    ensures
        monotonicity_penalty_of(cs) == line_penalty(seq![cs[0], cs[1], cs[2], cs[3]])
            + line_penalty(seq![cs[4], cs[5], cs[6], cs[7]])
            + line_penalty(seq![cs[8], cs[9], cs[10], cs[11]])
            + line_penalty(seq![cs[12], cs[13], cs[14], cs[15]])
            + line_penalty(seq![cs[0], cs[4], cs[8], cs[12]])
            + line_penalty(seq![cs[1], cs[5], cs[9], cs[13]])
            + line_penalty(seq![cs[2], cs[6], cs[10], cs[14]])
            + line_penalty(seq![cs[3], cs[7], cs[11], cs[15]]),
{
    reveal_with_fuel(monotonicity_penalty_upto, 5);
    assert(line(cs, Direction::Left, 0) =~= seq![cs[0], cs[1], cs[2], cs[3]]);
    assert(line(cs, Direction::Up, 0) =~= seq![cs[0], cs[4], cs[8], cs[12]]);
    assert(line(cs, Direction::Left, 1) =~= seq![cs[4], cs[5], cs[6], cs[7]]);
    assert(line(cs, Direction::Up, 1) =~= seq![cs[1], cs[5], cs[9], cs[13]]);
    assert(line(cs, Direction::Left, 2) =~= seq![cs[8], cs[9], cs[10], cs[11]]);
    assert(line(cs, Direction::Up, 2) =~= seq![cs[2], cs[6], cs[10], cs[14]]);
    assert(line(cs, Direction::Left, 3) =~= seq![cs[12], cs[13], cs[14], cs[15]]);
    assert(line(cs, Direction::Up, 3) =~= seq![cs[3], cs[7], cs[11], cs[15]]);
}

/// Closeness of two neighbouring cells: when both hold a tile, 2^15 halved
/// once per unit of gap between their exponents; 0 when one is empty.
pub proof fn law_closeness(a: u8, b: u8)
    requires
        a <= 15,
        b <= 15,
    ensures
        a == 0 || b == 0 ==> closeness(a, b) == 0,
        a != 0 && b != 0 ==> closeness(a, b) * pow2((if a > b { a - b } else { b - a }) as nat) == 32768,
        closeness(a, b) == closeness(b, a),
{
    if a != 0 && b != 0 {
        let d = (if a > b { a - b } else { b - a }) as nat;
        lemma_pow2_adds((15 - d) as nat, d);
        lemma2_to64();
    }
}

/// 1 when both cells hold a tile, 0 otherwise.
#[verifier::opaque]
pub open spec fn both_tiles(a: u8, b: u8) -> int {
    if a != 0 && b != 0 {
        1
    } else {
        0
    }
}

/// 1 when both cells hold the same tile, 0 otherwise.
#[verifier::opaque]
pub open spec fn same_tile(a: u8, b: u8) -> int {
    if a != 0 && a == b {
        1
    } else {
        0
    }
}

proof fn lemma_line_pairs(a: u8, b: u8, c: u8, d: u8)
    ensures
        line_occupied_pairs(seq![a, b, c, d]) == both_tiles(a, b) + both_tiles(b, c) + both_tiles(c, d),
        line_merges(seq![a, b, c, d]) == same_tile(a, b) + same_tile(b, c) + same_tile(c, d),
{
    reveal(both_tiles);
    reveal(same_tile);
}

/// The occupied pairs are those of the 24 pairs of neighbouring cells (12 in
/// the rows, 12 in the columns) whose two cells both hold a tile.
pub proof fn law_occupied_pairs_cover_all_neighbours(cs: Seq<u8>)
    requires
        cs.len() == 16,
    ensures
        occupied_pairs_upto(cs, 4) == both_tiles(cs[0], cs[1])
            + both_tiles(cs[1], cs[2])
            + both_tiles(cs[2], cs[3])
            + both_tiles(cs[4], cs[5])
            + both_tiles(cs[5], cs[6])
            + both_tiles(cs[6], cs[7])
            + both_tiles(cs[8], cs[9])
            + both_tiles(cs[9], cs[10])
            + both_tiles(cs[10], cs[11])
            + both_tiles(cs[12], cs[13])
            + both_tiles(cs[13], cs[14])
            + both_tiles(cs[14], cs[15])
            + both_tiles(cs[0], cs[4])
            + both_tiles(cs[1], cs[5])
            + both_tiles(cs[2], cs[6])
            + both_tiles(cs[3], cs[7])
            + both_tiles(cs[4], cs[8])
            + both_tiles(cs[5], cs[9])
            + both_tiles(cs[6], cs[10])
            + both_tiles(cs[7], cs[11])
            + both_tiles(cs[8], cs[12])
            + both_tiles(cs[9], cs[13])
            + both_tiles(cs[10], cs[14])
            + both_tiles(cs[11], cs[15]),
{
    reveal_with_fuel(occupied_pairs_upto, 5);
    assert(line(cs, Direction::Left, 0) =~= seq![cs[0], cs[1], cs[2], cs[3]]);
    assert(line(cs, Direction::Up, 0) =~= seq![cs[0], cs[4], cs[8], cs[12]]);
    assert(line(cs, Direction::Left, 1) =~= seq![cs[4], cs[5], cs[6], cs[7]]);
    assert(line(cs, Direction::Up, 1) =~= seq![cs[1], cs[5], cs[9], cs[13]]);
    assert(line(cs, Direction::Left, 2) =~= seq![cs[8], cs[9], cs[10], cs[11]]);
    assert(line(cs, Direction::Up, 2) =~= seq![cs[2], cs[6], cs[10], cs[14]]);
    assert(line(cs, Direction::Left, 3) =~= seq![cs[12], cs[13], cs[14], cs[15]]);
    assert(line(cs, Direction::Up, 3) =~= seq![cs[3], cs[7], cs[11], cs[15]]);
    lemma_line_pairs(cs[0], cs[1], cs[2], cs[3]);
    lemma_line_pairs(cs[0], cs[4], cs[8], cs[12]);
    lemma_line_pairs(cs[4], cs[5], cs[6], cs[7]);
    lemma_line_pairs(cs[1], cs[5], cs[9], cs[13]);
    lemma_line_pairs(cs[8], cs[9], cs[10], cs[11]);
    lemma_line_pairs(cs[2], cs[6], cs[10], cs[14]);
    lemma_line_pairs(cs[12], cs[13], cs[14], cs[15]);
    lemma_line_pairs(cs[3], cs[7], cs[11], cs[15]);
}

/// The closeness reward sums the closeness of the 24 pairs of neighbouring
/// cells (12 in the rows, 12 in the columns).
pub proof fn law_closeness_covers_all_neighbours(cs: Seq<u8>)
    requires
        cs.len() == 16,
    ensures
        closeness_upto(cs, 4) == closeness(cs[0], cs[1])
            + closeness(cs[1], cs[2])
            + closeness(cs[2], cs[3])
            + closeness(cs[4], cs[5])
            + closeness(cs[5], cs[6])
            + closeness(cs[6], cs[7])
            + closeness(cs[8], cs[9])
            + closeness(cs[9], cs[10])
            + closeness(cs[10], cs[11])
            + closeness(cs[12], cs[13])
            + closeness(cs[13], cs[14])
            + closeness(cs[14], cs[15])
            + closeness(cs[0], cs[4])
            + closeness(cs[1], cs[5])
            + closeness(cs[2], cs[6])
            + closeness(cs[3], cs[7])
            + closeness(cs[4], cs[8])
            + closeness(cs[5], cs[9])
            + closeness(cs[6], cs[10])
            + closeness(cs[7], cs[11])
            + closeness(cs[8], cs[12])
            + closeness(cs[9], cs[13])
            + closeness(cs[10], cs[14])
            + closeness(cs[11], cs[15]),
{
    reveal_with_fuel(closeness_upto, 5);
    assert(line(cs, Direction::Left, 0) =~= seq![cs[0], cs[1], cs[2], cs[3]]);
    assert(line(cs, Direction::Up, 0) =~= seq![cs[0], cs[4], cs[8], cs[12]]);
    assert(line(cs, Direction::Left, 1) =~= seq![cs[4], cs[5], cs[6], cs[7]]);
    assert(line(cs, Direction::Up, 1) =~= seq![cs[1], cs[5], cs[9], cs[13]]);
    assert(line(cs, Direction::Left, 2) =~= seq![cs[8], cs[9], cs[10], cs[11]]);
    assert(line(cs, Direction::Up, 2) =~= seq![cs[2], cs[6], cs[10], cs[14]]);
    assert(line(cs, Direction::Left, 3) =~= seq![cs[12], cs[13], cs[14], cs[15]]);
    assert(line(cs, Direction::Up, 3) =~= seq![cs[3], cs[7], cs[11], cs[15]]);
}

/// The merges available are the pairs of neighbouring cells (among the 24
/// in the rows and the columns) holding two equal tiles.
pub proof fn law_merges_are_equal_neighbours(cs: Seq<u8>)
    requires
        cs.len() == 16,
    ensures
        merges_upto(cs, 4) == same_tile(cs[0], cs[1])
            + same_tile(cs[1], cs[2])
            + same_tile(cs[2], cs[3])
            + same_tile(cs[4], cs[5])
            + same_tile(cs[5], cs[6])
            + same_tile(cs[6], cs[7])
            + same_tile(cs[8], cs[9])
            + same_tile(cs[9], cs[10])
            + same_tile(cs[10], cs[11])
            + same_tile(cs[12], cs[13])
            + same_tile(cs[13], cs[14])
            + same_tile(cs[14], cs[15])
            + same_tile(cs[0], cs[4])
            + same_tile(cs[1], cs[5])
            + same_tile(cs[2], cs[6])
            + same_tile(cs[3], cs[7])
            + same_tile(cs[4], cs[8])
            + same_tile(cs[5], cs[9])
            + same_tile(cs[6], cs[10])
            + same_tile(cs[7], cs[11])
            + same_tile(cs[8], cs[12])
            + same_tile(cs[9], cs[13])
            + same_tile(cs[10], cs[14])
            + same_tile(cs[11], cs[15]),
{
    reveal_with_fuel(merges_upto, 5);
    assert(line(cs, Direction::Left, 0) =~= seq![cs[0], cs[1], cs[2], cs[3]]);
    assert(line(cs, Direction::Up, 0) =~= seq![cs[0], cs[4], cs[8], cs[12]]);
    assert(line(cs, Direction::Left, 1) =~= seq![cs[4], cs[5], cs[6], cs[7]]);
    assert(line(cs, Direction::Up, 1) =~= seq![cs[1], cs[5], cs[9], cs[13]]);
    assert(line(cs, Direction::Left, 2) =~= seq![cs[8], cs[9], cs[10], cs[11]]);
    assert(line(cs, Direction::Up, 2) =~= seq![cs[2], cs[6], cs[10], cs[14]]);
    assert(line(cs, Direction::Left, 3) =~= seq![cs[12], cs[13], cs[14], cs[15]]);
    assert(line(cs, Direction::Up, 3) =~= seq![cs[3], cs[7], cs[11], cs[15]]);
    lemma_line_pairs(cs[0], cs[1], cs[2], cs[3]);
    lemma_line_pairs(cs[0], cs[4], cs[8], cs[12]);
    lemma_line_pairs(cs[4], cs[5], cs[6], cs[7]);
    lemma_line_pairs(cs[1], cs[5], cs[9], cs[13]);
    lemma_line_pairs(cs[8], cs[9], cs[10], cs[11]);
    lemma_line_pairs(cs[2], cs[6], cs[10], cs[14]);
    lemma_line_pairs(cs[12], cs[13], cs[14], cs[15]);
    lemma_line_pairs(cs[3], cs[7], cs[11], cs[15]);
}

/// The snake total weighs each cell's tile value along the snake path:
/// row 0 from 15 down to 12 left to right, row 1 from 8 up to 11, row 2
/// from 7 down to 4, row 3 from 0 up to 3.
pub proof fn law_snake_weights(cs: Seq<u8>)
    requires
        cs.len() == 16,
    ensures
        snake_upto(cs, 16) == 15 * tile_value(cs[0])
            + 14 * tile_value(cs[1])
            + 13 * tile_value(cs[2])
            + 12 * tile_value(cs[3])
            + 8 * tile_value(cs[4])
            + 9 * tile_value(cs[5])
            + 10 * tile_value(cs[6])
            + 11 * tile_value(cs[7])
            + 7 * tile_value(cs[8])
            + 6 * tile_value(cs[9])
            + 5 * tile_value(cs[10])
            + 4 * tile_value(cs[11])
            + 0 * tile_value(cs[12])
            + 1 * tile_value(cs[13])
            + 2 * tile_value(cs[14])
            + 3 * tile_value(cs[15]),
{
    reveal_with_fuel(snake_upto, 17);
}

} // verus!
