use g2048_core::board::{empty_cells, get_cell, get_row, spawn_at, spawn_drawn, MoveTable};
use g2048_core::{apply_move, hello, max_tile, spawn, Direction};
use rand::SeedableRng;

fn board_from_cells(cells: [u8; 16]) -> u64 {
    let mut board = 0u64;
    for (i, &c) in cells.iter().enumerate() {
        board |= (c as u64) << (i * 4);
    }
    board
}

#[test]
fn hello_returns_expected_string() {
    assert_eq!(hello(), "hello from g2048-core");
}

#[test]
fn left_merges_adjacent_equal_tiles() {
    let board = board_from_cells([
        1, 1, 0, 0,
        0, 0, 0, 0,
        0, 0, 0, 0,
        0, 0, 0, 0,
    ]);
    let (new_board, score) = apply_move(board, Direction::Left);
    assert_eq!(get_row(new_board, 0), 0x0002);
    assert_eq!(score, 4);
}

#[test]
fn right_merges_toward_the_right_edge() {
    let board = board_from_cells([
        1, 1, 0, 0,
        0, 0, 0, 0,
        0, 0, 0, 0,
        0, 0, 0, 0,
    ]);
    let (new_board, score) = apply_move(board, Direction::Right);
    assert_eq!(get_row(new_board, 0), 0x2000);
    assert_eq!(score, 4);
}

#[test]
fn up_merges_a_column_toward_the_top() {
    let board = board_from_cells([
        1, 0, 0, 0,
        1, 0, 0, 0,
        0, 0, 0, 0,
        0, 0, 0, 0,
    ]);
    let (new_board, score) = apply_move(board, Direction::Up);
    assert_eq!(get_cell(new_board, 0, 0), 2);
    assert_eq!(get_cell(new_board, 1, 0), 0);
    assert_eq!(score, 4);
}

#[test]
fn down_merges_a_column_toward_the_bottom() {
    let board = board_from_cells([
        1, 0, 0, 0,
        1, 0, 0, 0,
        0, 0, 0, 0,
        0, 0, 0, 0,
    ]);
    let (new_board, score) = apply_move(board, Direction::Down);
    assert_eq!(get_cell(new_board, 3, 0), 2);
    assert_eq!(get_cell(new_board, 0, 0), 0);
    assert_eq!(score, 4);
}

#[test]
fn spawn_fills_an_empty_cell() {
    let mut rng = rand_pcg::Pcg64Mcg::seed_from_u64(42);
    let board = spawn(0u64, &mut rng);
    let occupied = (0..16).filter(|&i| (board >> (i * 4)) & 0xF != 0).count();
    assert_eq!(occupied, 1);
}

#[test]
fn spawn_does_nothing_on_a_full_board() {
    let full = board_from_cells([1; 16]);
    let mut rng = rand_pcg::Pcg64Mcg::seed_from_u64(1);
    assert_eq!(spawn(full, &mut rng), full);
}

#[test]
fn max_tile_reads_the_highest_exponent() {
    let board = board_from_cells([1, 3, 0, 0, 0, 0, 0, 0, 0, 0, 0, 0, 0, 0, 0, 0]);
    assert_eq!(max_tile(board), 8);
}

#[test]
fn max_tile_of_an_empty_board_is_zero() {
    assert_eq!(max_tile(0), 0);
    assert_eq!(max_tile(board_from_cells([0, 0, 0, 0, 0, 0, 0, 0, 0, 0, 0, 0, 0, 0, 0, 15])), 32768);
}

#[test]
fn a_row_merges_each_tile_once_from_the_edge() {
    // [2,2,2,2] -> [4,4,0,0], 8 points; [2,2,4,0] -> [4,4,0,0], 4 points
    let board = board_from_cells([
        1, 1, 1, 1,
        1, 1, 2, 0,
        0, 0, 0, 0,
        0, 0, 0, 0,
    ]);
    let (new_board, score) = apply_move(board, Direction::Left);
    assert_eq!(get_row(new_board, 0), 0x0022);
    assert_eq!(get_row(new_board, 1), 0x0022);
    assert_eq!(score, 12);
}

#[test]
fn two_tiles_of_exponent_15_spill_into_the_next_cell() {
    // 15 + 15 gives 16, which does not fit four bits: its fifth bit lands in
    // the next cell.
    let board = board_from_cells([
        15, 15, 3, 3,
        0, 0, 0, 0,
        0, 0, 0, 0,
        0, 0, 0, 0,
    ]);
    let (new_board, score) = apply_move(board, Direction::Left);
    assert_eq!(get_row(new_board, 0), 0x0050);
    assert_eq!(score, 65536 + 16);
}

#[test]
fn an_illegal_move_leaves_the_board_unchanged() {
    let board = board_from_cells([
        1, 2, 3, 4,
        0, 0, 0, 0,
        0, 0, 0, 0,
        0, 0, 0, 0,
    ]);
    assert_eq!(apply_move(board, Direction::Left), (board, 0));
    assert_eq!(apply_move(board, Direction::Up), (board, 0));
    assert_ne!(apply_move(board, Direction::Down).0, board);
}

#[test]
fn the_move_table_agrees_with_the_direct_moves() {
    let table = MoveTable::build();
    let mut x: u64 = 0x9E37_79B9_7F4A_7C15;
    for _ in 0..2000 {
        x = x.wrapping_mul(6364136223846793005).wrapping_add(1442695040888963407);
        for dir in Direction::ALL {
            assert_eq!(table.apply_move(x, dir), apply_move(x, dir));
        }
    }
}

#[test]
fn empty_cells_lists_the_zero_cells_in_order() {
    let board = board_from_cells([1, 0, 2, 0, 3, 3, 3, 3, 0, 1, 1, 1, 1, 1, 1, 0]);
    assert_eq!(empty_cells(board), vec![1, 3, 8, 15]);
    assert_eq!(empty_cells(board_from_cells([1; 16])), Vec::<usize>::new());
}

#[test]
fn spawn_at_puts_the_tile_in_the_chosen_empty_cell() {
    let board = board_from_cells([1, 0, 2, 0, 3, 3, 3, 3, 0, 1, 1, 1, 1, 1, 1, 0]);
    let out = spawn_at(board, 2, 2);
    assert_eq!(get_cell(out, 2, 0), 2);
    assert_eq!(out, board | (2u64 << (8 * 4)));
}

fn cells_of(board: u64) -> [u8; 16] {
    let mut cs = [0u8; 16];
    for (i, c) in cs.iter_mut().enumerate() {
        *c = ((board >> (i * 4)) & 0xF) as u8;
    }
    cs
}

fn mirror(board: u64) -> u64 {
    let cs = cells_of(board);
    let mut out = [0u8; 16];
    for i in 0..16 {
        out[i] = cs[4 * (i / 4) + 3 - i % 4];
    }
    board_from_cells(out)
}

fn transpose(board: u64) -> u64 {
    let cs = cells_of(board);
    let mut out = [0u8; 16];
    for i in 0..16 {
        out[i] = cs[4 * (i % 4) + i / 4];
    }
    board_from_cells(out)
}

#[test]
fn the_four_moves_are_one_slide_seen_from_four_sides() {
    let mut x: u64 = 77;
    for _ in 0..2000 {
        x = x.wrapping_mul(6364136223846793005).wrapping_add(1442695040888963407);
        let (l, ls) = apply_move(mirror(x), Direction::Left);
        assert_eq!(apply_move(x, Direction::Right), (mirror(l), ls));
        let (u, us) = apply_move(transpose(x), Direction::Left);
        assert_eq!(apply_move(x, Direction::Up), (transpose(u), us));
        let (d, ds) = apply_move(transpose(x), Direction::Right);
        assert_eq!(apply_move(x, Direction::Down), (transpose(d), ds));
    }
}

#[test]
fn a_move_keeps_the_value_of_the_tiles() {
    let value = |b: u64| -> u64 { cells_of(b).iter().map(|&e| if e == 0 { 0 } else { 1u64 << e }).sum() };
    let count = |b: u64| cells_of(b).iter().filter(|&&e| e != 0).count();
    let mut x: u64 = 5;
    for _ in 0..2000 {
        let mut cs = [0u8; 16];
        for c in cs.iter_mut() {
            x = x.wrapping_mul(6364136223846793005).wrapping_add(1442695040888963407);
            *c = ((x >> 33) % 15) as u8;
        }
        let board = board_from_cells(cs);
        for dir in Direction::ALL {
            let (after, score) = apply_move(board, dir);
            assert_eq!(value(after), value(board));
            assert!(count(after) <= count(board));
            assert_eq!(score == 0, count(after) == count(board));
        }
    }
}

#[test]
fn spawn_drawn_places_a_two_or_a_four() {
    let board = board_from_cells([1, 0, 2, 0, 3, 3, 3, 3, 0, 1, 1, 1, 1, 1, 1, 0]);
    assert_eq!(spawn_drawn(board, 1, true), board | (1u64 << (3 * 4)));
    assert_eq!(spawn_drawn(board, 1, false), board | (2u64 << (3 * 4)));
}
