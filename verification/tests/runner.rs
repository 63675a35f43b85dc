use g2048_core::agent::{Agent, CornerAgent, GreedyAgent, RandomAgent};
use g2048_core::runner::{
    board_to_exponents, direction_to_u8, move_options, play_game, replay_state, replay_steps,
    u8_to_direction,
};
use g2048_core::train::ntuple::{active_indices, DIM, NUM_EXPONENTS};
use g2048_core::{Direction, GameState};
use rand::SeedableRng;
use rand_pcg::Pcg64Mcg;

struct Played {
    seed: u64,
    score: u64,
    max_tile: u32,
    moves: Vec<u8>,
}

fn play_random(seed: u64, max_moves: usize) -> Played {
    let mut agent = RandomAgent::new(Pcg64Mcg::seed_from_u64(seed ^ 0x9E37_79B9_7F4A_7C15));
    let (state, moves) = play_game(&mut agent, seed, max_moves);
    assert!(moves.len() <= max_moves);
    Played { seed, score: state.score(), max_tile: state.max_tile(), moves }
}

#[test]
fn replay_reproduces_the_exact_same_outcome() {
    for i in 0..8 {
        let original = play_random(123 + i, 500);
        let replayed = replay_state(original.seed, &original.moves).ok().unwrap();
        assert_eq!(replayed.score(), original.score);
        assert_eq!(replayed.max_tile(), original.max_tile);
    }
}

#[test]
fn replay_trajectory_matches_replay_final_score_and_has_one_step_per_move() {
    for i in 0..8 {
        let original = play_random(123 + i, 500);
        let trajectory = replay_steps(original.seed, &original.moves).ok().unwrap();
        assert_eq!(trajectory.len(), original.moves.len());
        if let Some(last) = trajectory.last() {
            assert_eq!(last.score_after, original.score);
        }
        for step in &trajectory {
            assert_eq!(step.move_options.len(), 4);
            assert!(step.move_options.iter().any(|m| m.legal));
        }
    }
}

#[test]
fn replay_rejects_an_illegal_recorded_move() {
    let state = GameState::new(3);
    let legal = state.legal_moves();
    let illegal = Direction::ALL.iter().copied().find(|d| !legal.contains(d));
    if let Some(d) = illegal {
        let code = direction_to_u8(d);
        let (bad, at) = replay_state(3, &[code]).err().unwrap();
        assert_eq!(bad, code);
        assert_eq!(at.board(), state.board());
        assert_eq!(at.score(), 0);
        let (bad, at) = replay_steps(3, &[code]).err().unwrap();
        assert_eq!(bad, code);
        assert_eq!(at.board(), state.board());
    }
    // a move on a game that has been replayed is legal again: replaying an
    // empty record gives the start
    let start = replay_state(3, &[]).ok().unwrap();
    assert_eq!(start.board(), state.board());
}

#[test]
fn direction_codes_round_trip() {
    for d in Direction::ALL {
        assert_eq!(u8_to_direction(direction_to_u8(d)), d);
    }
    assert_eq!(direction_to_u8(Direction::Up), 2);
    assert_eq!(u8_to_direction(200), Direction::Down);
}

#[test]
fn move_options_report_each_direction() {
    let board = 0x0000_0000_0000_0011u64;
    let options = move_options(board);
    assert_eq!(options.len(), 4);
    assert_eq!((options[0].direction, options[0].legal, options[0].gained), (0, true, 4));
    assert_eq!((options[1].direction, options[1].legal, options[1].gained), (1, true, 4));
    assert_eq!((options[2].direction, options[2].legal, options[2].gained), (2, false, 0));
    assert_eq!((options[3].direction, options[3].legal, options[3].gained), (3, true, 0));
}

#[test]
fn board_to_exponents_reads_every_cell() {
    let e = board_to_exponents(0xF000_0000_0000_0021);
    assert_eq!(e[0], 1);
    assert_eq!(e[1], 2);
    assert_eq!(e[15], 15);
}

#[test]
fn active_indices_pick_one_weight_per_cell() {
    let idx = active_indices(3);
    assert_eq!(idx[0], 3);
    assert_eq!(idx[1], NUM_EXPONENTS);
    assert_eq!(idx[15], 15 * NUM_EXPONENTS);
    assert!(idx.iter().all(|&i| i < DIM));
}

#[test]
fn played_games_of_every_agent_replay() {
    let mut greedy = GreedyAgent;
    let (g, moves) = play_game(&mut greedy, 9, 300);
    assert_eq!(replay_state(9, &moves).ok().unwrap().score(), g.score());
    let mut corner = CornerAgent::new();
    let (c, moves) = play_game(&mut corner, 10, 300);
    assert_eq!(replay_state(10, &moves).ok().unwrap().board(), c.board());
    let mut boxed: Box<dyn Agent> = Box::new(GreedyAgent);
    let (_, moves) = play_game(&mut *boxed, 11, 7);
    assert!(moves.len() <= 7);
}
