use g2048_core::board::get_cell;
use g2048_core::naive::{self, board_to_grid, grid_to_board};
use g2048_core::{apply_move, Direction};

fn board_from_cells(cs: [u8; 16]) -> u64 {
    let mut board = 0u64;
    for (i, &c) in cs.iter().enumerate() {
        board |= (c as u64) << (i * 4);
    }
    board
}

#[test]
fn bitboard_matches_naive_reference() {
    // Exponents 0..=6 so that many merges happen.
    let mut x: u64 = 12345;
    for _ in 0..20_000 {
        let mut cells = [0u8; 16];
        for c in cells.iter_mut() {
            x = x.wrapping_mul(6364136223846793005).wrapping_add(1442695040888963407);
            *c = ((x >> 33) % 7) as u8;
        }
        let board = board_from_cells(cells);
        x = x.wrapping_mul(6364136223846793005).wrapping_add(1442695040888963407);
        let dir = Direction::ALL[((x >> 33) % 4) as usize];
        let (naive_grid, naive_score) = naive::apply_move(board_to_grid(board), dir);
        let expected_board = grid_to_board(naive_grid);
        let (actual_board, actual_score) = apply_move(board, dir);
        assert_eq!(actual_board, expected_board);
        assert_eq!(actual_score, naive_score);
    }
}

#[test]
fn grid_round_trip_keeps_the_board() {
    let board = 0x1234_2341_3412_4123u64;
    assert_eq!(grid_to_board(board_to_grid(board)), board);
    let g = board_to_grid(board);
    assert_eq!(g[0], [3, 2, 1, 4]);
    assert_eq!(g[3][3], 1);
}

#[test]
fn naive_down_merges_toward_the_bottom() {
    let grid = [[1, 0, 0, 0], [1, 0, 0, 0], [2, 0, 0, 0], [0, 0, 0, 0]];
    let (g, score) = naive::apply_move(grid, Direction::Down);
    assert_eq!(g, [[0, 0, 0, 0], [0, 0, 0, 0], [2, 0, 0, 0], [2, 0, 0, 0]]);
    assert_eq!(score, 4);
}

#[test]
fn naive_keeps_a_merged_fifteen_as_sixteen() {
    let board = board_from_cells([15, 15, 0, 0, 0, 0, 0, 0, 0, 0, 0, 0, 0, 0, 0, 0]);
    let (g, score) = naive::apply_move(board_to_grid(board), Direction::Left);
    assert_eq!(g[0], [16, 0, 0, 0]);
    assert_eq!(score, 65536);
    // the stored board keeps four bits per cell; the bitboard spills the bit
    assert_eq!(grid_to_board(g), 0);
    assert_eq!(get_cell(apply_move(board, Direction::Left).0, 0, 1), 1);
}
