use g2048_core::agent::{legal_moves_of, rollout, Agent, CornerAgent, GreedyAgent, RandomAgent};
use g2048_core::{apply_move, Direction, GameState};
use rand::SeedableRng;
use rand_pcg::Pcg64Mcg;

fn play_out(mut agent: impl Agent, seed: u64, max_moves: usize) -> GameState {
    let mut state = GameState::new(seed);
    for _ in 0..max_moves {
        match agent.choose_move(&state) {
            Some(dir) => {
                assert!(state.apply_move(dir), "the agent offered an illegal move");
                state.spawn();
            }
            None => break,
        }
    }
    state
}

#[test]
fn random_agent_always_picks_a_legal_move() {
    let mut state = GameState::new(5);
    let mut agent = RandomAgent::new(Pcg64Mcg::seed_from_u64(99));
    for _ in 0..200 {
        let legal = state.legal_moves();
        if legal.is_empty() {
            assert_eq!(agent.choose_move(&state), None);
            break;
        }
        let chosen = agent.choose_move(&state).expect("a legal move exists");
        assert!(legal.contains(&chosen));
        state.apply_move(chosen);
        state.spawn();
    }
}

#[test]
fn greedy_agent_plays_full_games_without_illegal_moves() {
    play_out(GreedyAgent, 1, 500);
}

#[test]
fn corner_agent_plays_full_games_without_illegal_moves() {
    play_out(CornerAgent::new(), 2, 500);
}

#[test]
fn greedy_agent_takes_the_last_best_gain() {
    for seed in 0..30 {
        let state = GameState::new(seed);
        let chosen = GreedyAgent.choose_move(&state).unwrap();
        let gains: Vec<(Direction, u32)> = legal_moves_of(state.board())
            .into_iter()
            .map(|d| (d, apply_move(state.board(), d).1))
            .collect();
        let best = gains.iter().map(|g| g.1).max().unwrap();
        let last_best = gains.iter().rev().find(|g| g.1 == best).unwrap().0;
        assert_eq!(chosen, last_best);
    }
    // Left and right both merge the pair (4 points); up and down are illegal.
    let board = 0x0011u64;
    let gains: Vec<u32> = Direction::ALL.iter().map(|&d| apply_move(board, d).1).collect();
    assert_eq!(gains[0], 4);
    assert_eq!(gains[1], 4);
}

#[test]
fn corner_agent_prefers_down_then_left() {
    let agent = CornerAgent::default();
    let mut a = agent;
    let state = GameState::new(11);
    let legal = legal_moves_of(state.board());
    let chosen = a.choose_move(&state);
    let order = [Direction::Down, Direction::Left, Direction::Up, Direction::Right];
    let expected = order.iter().copied().find(|d| legal.contains(d));
    assert_eq!(chosen, expected);
}

#[test]
fn a_new_game_has_two_tiles_and_no_points() {
    for seed in 0..50 {
        let state = GameState::new(seed);
        let tiles = (0..16).filter(|&i| (state.board() >> (i * 4)) & 0xF != 0).count();
        assert_eq!(tiles, 2);
        assert_eq!(state.score(), 0);
        let max = state.max_tile();
        assert!(max == 2 || max == 4);
    }
}

#[test]
fn legal_moves_keep_the_order_of_all_directions() {
    let board = 0x0000_0000_0000_0021u64;
    assert_eq!(legal_moves_of(board), vec![Direction::Right, Direction::Down]);
    assert_eq!(legal_moves_of(0x4321), vec![Direction::Down]);
    assert_eq!(legal_moves_of(0), Vec::<Direction>::new());
}

#[test]
fn rollout_stops_when_no_move_is_left() {
    // a full board without equal neighbours: no tile can spawn, no move is legal
    let blocked = 0x2121_1212_2121_1212u64;
    let mut rng = Pcg64Mcg::seed_from_u64(4);
    assert_eq!(rollout(&mut rng, blocked, 100), 0);
    assert_eq!(rollout(&mut rng, 0, 0), 0);
    let score = rollout(&mut rng, 0, 200);
    assert!(score > 0);
}
