use g2048_core::features::{
    closeness_sum, empty_cell_count, max_tile_in_corner, merge_count, monotonicity_penalty,
    occupied_pair_count, snake_total, Feature, SNAKE_MAX,
};

fn board_from_cells(cs: [u8; 16]) -> u64 {
    let mut board = 0u64;
    for (i, &c) in cs.iter().enumerate() {
        board |= (c as u64) << (i * 4);
    }
    board
}

#[test]
fn empty_cells_counts_zero_exponents() {
    let board = board_from_cells([1, 0, 0, 0, 0, 0, 0, 0, 0, 0, 0, 0, 0, 0, 0, 0]);
    assert!((empty_cell_count(board) as f64 / 16.0 - 15.0 / 16.0).abs() < 1e-9);
}

#[test]
fn empty_cells_is_zero_on_a_full_board() {
    let board = board_from_cells([1; 16]);
    assert_eq!(empty_cell_count(board) as f64 / 16.0, 0.0);
}

#[test]
fn monotonicity_is_maximal_on_a_perfectly_sorted_board() {
    let board = board_from_cells([
        4, 3, 2, 1,
        4, 3, 2, 1,
        4, 3, 2, 1,
        4, 3, 2, 1,
    ]);
    let value = 1.0 - monotonicity_penalty(board) as f64 / 120.0;
    assert!((value - 1.0).abs() < 1e-9);
}

#[test]
fn monotonicity_penalises_the_smaller_disorder_of_each_line() {
    // row 0: 1 3 2 4 -> drops 1, rises 4 -> 1; column 0: 1 0 0 0 -> 1 down, 0 up -> 0
    let board = board_from_cells([
        1, 3, 2, 4,
        0, 0, 0, 0,
        0, 0, 0, 0,
        0, 0, 0, 0,
    ]);
    // rows: 1; columns: each column goes down only -> 0
    assert_eq!(monotonicity_penalty(board), 1);
    // the checkerboard of 0 and 15 is the worst case: 8 lines of 15
    let worst = board_from_cells([
        0, 15, 0, 15,
        15, 0, 15, 0,
        0, 15, 0, 15,
        15, 0, 15, 0,
    ]);
    assert_eq!(monotonicity_penalty(worst), 120);
}

fn smoothness(board: u64) -> f64 {
    let pairs = occupied_pair_count(board);
    if pairs == 0 {
        0.0
    } else {
        closeness_sum(board) as f64 / (pairs as f64 * 32768.0)
    }
}

#[test]
fn smoothness_is_maximal_on_a_uniform_board() {
    let board = board_from_cells([3; 16]);
    assert!((smoothness(board) - 1.0).abs() < 1e-9);
}

#[test]
fn smoothness_ignores_pairs_with_an_empty_cell() {
    assert_eq!(occupied_pair_count(0x1), 0);
    assert_eq!(occupied_pair_count(0xF), 0);
    assert_eq!(smoothness(0x1), smoothness(0xF));
    // one pair of neighbours 3 and 5 (gap 2): reward 0.25
    let board = board_from_cells([3, 5, 0, 0, 0, 0, 0, 0, 0, 0, 0, 0, 0, 0, 0, 0]);
    assert_eq!(occupied_pair_count(board), 1);
    assert_eq!(closeness_sum(board), 8192);
    assert!((smoothness(board) - 0.25).abs() < 1e-9);
    // 8 next to 16 next to 32: two pairs of gap 1
    let board = board_from_cells([3, 4, 5, 0, 0, 0, 0, 0, 0, 0, 0, 0, 0, 0, 0, 0]);
    assert!((smoothness(board) - 0.5).abs() < 1e-9);
}

#[test]
fn max_tile_in_corner_detects_corner_placement() {
    let mut cs = [1u8; 16];
    cs[0] = 5;
    let board = board_from_cells(cs);
    assert_eq!(if max_tile_in_corner(board) { 1.0 } else { 0.0 }, 1.0);

    let mut cs2 = [1u8; 16];
    cs2[5] = 5;
    let board2 = board_from_cells(cs2);
    assert_eq!(if max_tile_in_corner(board2) { 1.0 } else { 0.0 }, 0.0);
}

#[test]
fn merges_available_counts_adjacent_equal_pairs() {
    let board = board_from_cells([
        2, 2, 0, 0,
        0, 0, 0, 0,
        0, 0, 0, 0,
        0, 0, 0, 0,
    ]);
    assert!((merge_count(board) as f64 / 24.0 - 1.0 / 24.0).abs() < 1e-9);
    assert_eq!(merge_count(board_from_cells([1; 16])), 24);
    assert_eq!(merge_count(0), 0);
}

#[test]
fn snake_total_weights_tile_values_along_the_path() {
    // cell 0 weighs 15, cell 12 weighs 0, cell 15 weighs 3
    let board = board_from_cells([1, 0, 0, 0, 0, 0, 0, 0, 0, 0, 0, 0, 5, 0, 0, 2]);
    assert_eq!(snake_total(board), 15 * 2 + 3 * 4);
    assert_eq!(snake_total(board_from_cells([15; 16])), SNAKE_MAX);
}

#[test]
fn feature_names_read_back() {
    for f in Feature::ALL {
        assert_eq!(Feature::from_name(f.name()), Some(f));
    }
    assert_eq!(Feature::from_name("nonexistent"), None);
    assert_eq!(Feature::SnakeWeighted.name(), "snake_weighted");
}
