//! Deterministic replay of a recorded game from its seed and its sequence
//! of moves, and the per-move records shown by the replay viewer.

use vstd::prelude::*;
use crate::board::{
    apply_move, cells, dir_index, get_cell, is_legal, move_score, moved_cells, spawned_onto,
    try_move, Direction,
};
use crate::agent::Agent;
use crate::game::{add_points, is_start, GameState};

verus! {

/// The direction that a recorded move code stands for: 0 left, 1 right,
/// 2 up, anything else down.
pub open spec fn code_direction(v: u8) -> Direction {
    if v == 0 {
        Direction::Left
    } else if v == 1 {
        Direction::Right
    } else if v == 2 {
        Direction::Up
    } else {
        Direction::Down
    }
}

/// The code under which a move is recorded.
pub fn direction_to_u8(d: Direction) -> (v: u8)
    ensures
        v == dir_index(d),
{
    match d {
        Direction::Left => 0,
        Direction::Right => 1,
        Direction::Up => 2,
        Direction::Down => 3,
    }
}

/// The direction of a recorded move code.
pub fn u8_to_direction(v: u8) -> (d: Direction)
    ensures
        d == code_direction(v),
{
    match v {
        0 => Direction::Left,
        1 => Direction::Right,
        2 => Direction::Up,
        _ => Direction::Down,
    }
}

/// Decoding the code of a direction gives the direction back.
pub proof fn law_direction_code_round_trip(d: Direction)
    ensures
        code_direction(dir_index(d) as u8) == d,
{
}

/// One recorded move replays from (`board`, `score`) to (`next`,
/// `next_score`): the move is legal, a tile spawns on the moved cells, and
/// the points of the move are added.
pub open spec fn replay_step(board: u64, score: u64, code: u8, next: u64, next_score: u64) -> bool {
    let d = code_direction(code);
    &&& is_legal(board, d)
    &&& spawned_onto(moved_cells(cells(board), d), next)
    &&& next_score == add_points(score, move_score(cells(board), d))
}

/// `boards` and `scores` are the successive states of a game from a start
/// board with score 0, each one replaying the next recorded move of `moves`.
pub open spec fn is_replay(boards: Seq<u64>, scores: Seq<u64>, moves: Seq<u8>) -> bool {
    &&& boards.len() == moves.len() + 1
    &&& scores.len() == moves.len() + 1
    &&& is_start(boards[0])
    &&& scores[0] == 0
    &&& forall|t: int|
        0 <= t < moves.len() ==> #[trigger] replay_step(
            boards[t],
            scores[t],
            moves[t],
            boards[t + 1],
            scores[t + 1],
        )
}

/// The state reached by replaying `moves` in the game of `seed`; or, at the
/// first recorded move that is illegal when its turn comes, that move's code
/// with the state reached before it.
pub fn replay_state(seed: u64, moves: &[u8]) -> (r: Result<GameState, (u8, GameState)>)
    ensures
        r matches Ok(g) ==> exists|boards: Seq<u64>, scores: Seq<u64>|
            #[trigger] is_replay(boards, scores, moves@) && g@ == (boards.last(), scores.last()),
        r matches Err((code, g)) ==> !is_legal(g@.0, code_direction(code)) && exists|
            t: int,
            boards: Seq<u64>,
            scores: Seq<u64>,
        |
            0 <= t < moves@.len() && moves@[t] == code && #[trigger] is_replay(
                boards,
                scores,
                moves@.take(t),
            ) && g@ == (boards.last(), scores.last()),
{
    let mut state = GameState::new(seed);
    let ghost mut boards: Seq<u64> = seq![state@.0];
    let ghost mut scores: Seq<u64> = seq![state@.1];
    let mut i: usize = 0;
    assert(moves@.take(0) =~= Seq::<u8>::empty());
    while i < moves.len()
        invariant
            i <= moves@.len(),
            is_replay(boards, scores, moves@.take(i as int)),
            state@ == (boards.last(), scores.last()),
        decreases moves@.len() - i,
    {
        let m = moves[i];
        let dir = u8_to_direction(m);
        let ghost before = state@;
        if !state.apply_move(dir) {
            assert(is_replay(boards, scores, moves@.take(i as int)));
            return Err((m, state));
        }
        state.spawn();
        proof {
            let old_boards = boards;
            let old_scores = scores;
            boards = boards.push(state@.0);
            scores = scores.push(state@.1);
            assert(moves@.take(i + 1).drop_last() =~= moves@.take(i as int));
            assert forall|t: int| 0 <= t < i + 1 implies #[trigger] replay_step(
                boards[t],
                scores[t],
                moves@.take(i + 1)[t],
                boards[t + 1],
                scores[t + 1],
            ) by {
                if t < i {
                    assert(replay_step(
                        old_boards[t],
                        old_scores[t],
                        moves@.take(i as int)[t],
                        old_boards[t + 1],
                        old_scores[t + 1],
                    ));
                }
            }
        }
        i += 1;
    }
    assert(moves@.take(moves@.len() as int) =~= moves@);
    Ok(state)
}

/// For one direction: its code, whether it is legal, and the points it
/// would win.
#[derive(Debug, Clone, Copy)]
pub struct MoveOption {
    pub direction: u8,
    pub legal: bool,
    pub gained: u32,
}

/// The option of direction `d` on a board.
pub open spec fn option_for(board: u64, d: Direction) -> MoveOption {
    MoveOption {
        direction: dir_index(d) as u8,
        legal: is_legal(board, d),
        gained: move_score(cells(board), d) as u32,
    }
}

/// The options of the four directions, in the order of `Direction::ALL`.
pub open spec fn options_of(board: u64) -> Seq<MoveOption> {
    seq![
        option_for(board, Direction::Left),
        option_for(board, Direction::Right),
        option_for(board, Direction::Up),
        option_for(board, Direction::Down),
    ]
}

/// The option of direction `d` on the board.
fn option_of(board: u64, d: Direction) -> (o: MoveOption)
    ensures
        o == option_for(board, d),
{
    let (legal, _, gained) = try_move(board, d);
    MoveOption { direction: direction_to_u8(d), legal, gained }
}

/// For each direction (legal or not), its code, its legality and the points
/// it would win on the board, computed on the board alone.
pub fn move_options(board: u64) -> (v: Vec<MoveOption>)
    ensures
        v@ == options_of(board),
{
    let mut v: Vec<MoveOption> = Vec::new();
    v.push(option_of(board, Direction::Left));
    v.push(option_of(board, Direction::Right));
    v.push(option_of(board, Direction::Up));
    v.push(option_of(board, Direction::Down));
    assert(v@ =~= options_of(board));
    v
}

/// The 16 exponents of a board, cell 0 (top left) first.
pub fn board_to_exponents(board: u64) -> (e: [u8; 16])
    ensures
        e@ == cells(board),
{
    let mut e = [0u8; 16];
    let mut i: usize = 0;
    while i < 16
        invariant
            i <= 16,
            forall|q: int| 0 <= q < i ==> #[trigger] e[q] == cells(board)[q],
        decreases 16 - i,
    {
        assert(4 * (i / 4) + i % 4 == i);
        e[i] = get_cell(board, i / 4, i % 4);
        i += 1;
    }
    assert(e@ =~= cells(board));
    e
}

/// What the replay viewer shows of one recorded move.
pub struct ReplayStep {
    /// The board before the move, as 16 exponents (cell 0 = top left).
    pub board_before: [u8; 16],
    /// The same board, as a bitboard.
    pub board_bits: u64,
    pub chosen_direction: u8,
    /// Points won by the chosen move.
    pub gained: u32,
    /// Score once the move is played.
    pub score_after: u64,
    /// For each direction: legal or not, and the points it would win.
    pub move_options: Vec<MoveOption>,
}

/// `step` shows the move coded `code`, played on `board` and leaving the
/// score at `score_after`.
pub open spec fn shows_step(step: ReplayStep, board: u64, code: u8, score_after: u64) -> bool {
    &&& step.board_before@ == cells(board)
    &&& step.board_bits == board
    &&& step.chosen_direction == code
    &&& step.gained == move_score(cells(board), code_direction(code))
    &&& step.score_after == score_after
    &&& step.move_options@ == options_of(board)
}

/// Replays a game move by move and records, for each move, the board
/// before it, the move, the points it won and those that each of the four
/// directions would have won; or gives the code of the first recorded move
/// that is illegal when its turn comes, with the state reached before it.
pub fn replay_steps(seed: u64, moves: &[u8]) -> (r: Result<Vec<ReplayStep>, (u8, GameState)>)
    ensures
        r matches Ok(steps) ==> steps@.len() == moves@.len() && exists|boards: Seq<u64>, scores: Seq<u64>|
            #[trigger] is_replay(boards, scores, moves@) && forall|t: int|
                0 <= t < moves@.len() ==> shows_step(#[trigger] steps@[t], boards[t], moves@[t], scores[t + 1]),
        r matches Err((code, g)) ==> !is_legal(g@.0, code_direction(code)) && exists|
            t: int,
            boards: Seq<u64>,
            scores: Seq<u64>,
        |
            0 <= t < moves@.len() && moves@[t] == code && #[trigger] is_replay(
                boards,
                scores,
                moves@.take(t),
            ) && g@ == (boards.last(), scores.last()),
{
    let mut state = GameState::new(seed);
    let mut steps: Vec<ReplayStep> = Vec::new();
    let ghost mut boards: Seq<u64> = seq![state@.0];
    let ghost mut scores: Seq<u64> = seq![state@.1];
    let mut i: usize = 0;
    assert(moves@.take(0) =~= Seq::<u8>::empty());
    while i < moves.len()
        invariant
            i <= moves@.len(),
            is_replay(boards, scores, moves@.take(i as int)),
            state@ == (boards.last(), scores.last()),
            steps@.len() == i,
            forall|t: int| 0 <= t < i ==> shows_step(#[trigger] steps@[t], boards[t], moves@[t], scores[t + 1]),
        decreases moves@.len() - i,
    {
        let board_before = state.board();
        let options = move_options(board_before);
        let m = moves[i];
        let dir = u8_to_direction(m);
        let (_, gained) = apply_move(board_before, dir);
        if !state.apply_move(dir) {
            assert(is_replay(boards, scores, moves@.take(i as int)));
            return Err((m, state));
        }
        state.spawn();
        let step = ReplayStep {
            board_before: board_to_exponents(board_before),
            board_bits: board_before,
            chosen_direction: m,
            gained,
            score_after: state.score(),
            move_options: options,
        };
        steps.push(step);
        proof {
            let old_boards = boards;
            let old_scores = scores;
            boards = boards.push(state@.0);
            scores = scores.push(state@.1);
            assert(moves@.take(i + 1).drop_last() =~= moves@.take(i as int));
            assert forall|t: int| 0 <= t < i + 1 implies #[trigger] replay_step(
                boards[t],
                scores[t],
                moves@.take(i + 1)[t],
                boards[t + 1],
                scores[t + 1],
            ) by {
                if t < i {
                    assert(replay_step(
                        old_boards[t],
                        old_scores[t],
                        moves@.take(i as int)[t],
                        old_boards[t + 1],
                        old_scores[t + 1],
                    ));
                }
            }
            assert forall|t: int| 0 <= t < i + 1 implies shows_step(#[trigger] steps@[t], boards[t], moves@[t], scores[t + 1]) by {
                if t < i {
                    assert(shows_step(steps@[t], old_boards[t], moves@[t], old_scores[t + 1]));
                }
            }
        }
        i += 1;
    }
    assert(moves@.take(moves@.len() as int) =~= moves@);
    Ok(steps)
}

/// One turn of a played game from (`board`, `score`) to (`next`,
/// `next_score`): the move coded `code` is played when it is legal (its
/// points added), left out when it is not, and a tile spawns either way.
pub open spec fn play_step(board: u64, score: u64, code: u8, next: u64, next_score: u64) -> bool {
    let d = code_direction(code);
    if is_legal(board, d) {
        &&& spawned_onto(moved_cells(cells(board), d), next)
        &&& next_score == add_points(score, move_score(cells(board), d))
    } else {
        &&& spawned_onto(cells(board), next)
        &&& next_score == score
    }
}

/// `boards` and `scores` are the successive states of a game from a start
/// board with score 0, one turn per recorded move of `moves`.
pub open spec fn is_play(boards: Seq<u64>, scores: Seq<u64>, moves: Seq<u8>) -> bool {
    &&& boards.len() == moves.len() + 1
    &&& scores.len() == moves.len() + 1
    &&& is_start(boards[0])
    &&& scores[0] == 0
    &&& forall|t: int|
        0 <= t < moves.len() ==> #[trigger] play_step(
            boards[t],
            scores[t],
            moves[t],
            boards[t + 1],
            scores[t + 1],
        )
}

/// Plays the game of `seed` with `agent` until it offers no move or `limit`
/// moves are recorded; returns the final game and the codes of the moves
/// the agent chose, in order. `seed` and these codes replay the game.
pub fn play_game<A: Agent + ?Sized>(agent: &mut A, seed: u64, limit: usize) -> (r: (GameState, Vec<u8>))
    ensures
        r.1@.len() <= limit,
        exists|boards: Seq<u64>, scores: Seq<u64>|
            #[trigger] is_play(boards, scores, r.1@) && r.0@ == (boards.last(), scores.last()),
{
    let mut state = GameState::new(seed);
    let mut moves_log: Vec<u8> = Vec::new();
    let ghost mut boards: Seq<u64> = seq![state@.0];
    let ghost mut scores: Seq<u64> = seq![state@.1];
    while moves_log.len() < limit
        invariant
            moves_log@.len() <= limit,
            is_play(boards, scores, moves_log@),
            state@ == (boards.last(), scores.last()),
        decreases limit - moves_log@.len(),
    {
        match agent.choose_move(&state) {
            Some(dir) => {
                let code = direction_to_u8(dir);
                assert(code_direction(code) == dir);
                state.apply_move(dir);
                let ghost old_moves = moves_log@;
                moves_log.push(code);
                state.spawn();
                proof {
                    let old_boards = boards;
                    let old_scores = scores;
                    boards = boards.push(state@.0);
                    scores = scores.push(state@.1);
                    assert forall|t: int| 0 <= t < moves_log@.len() implies #[trigger] play_step(
                        boards[t],
                        scores[t],
                        moves_log@[t],
                        boards[t + 1],
                        scores[t + 1],
                    ) by {
                        if t < old_moves.len() {
                            assert(play_step(
                                old_boards[t],
                                old_scores[t],
                                old_moves[t],
                                old_boards[t + 1],
                                old_scores[t + 1],
                            ));
                        }
                    }
                }
            },
            None => break,
        }
    }
    (state, moves_log)
}

/// A played game whose recorded moves were all legal when played is a
/// replay of its record: `seed` and the recorded codes replay it move by
/// move.
pub proof fn law_legal_play_is_replay(boards: Seq<u64>, scores: Seq<u64>, moves: Seq<u8>)
    requires
        is_play(boards, scores, moves),
        forall|t: int| 0 <= t < moves.len() ==> #[trigger] is_legal(boards[t], code_direction(moves[t])),
    ensures
        is_replay(boards, scores, moves),
{
    assert forall|t: int| 0 <= t < moves.len() implies #[trigger] replay_step(
        boards[t],
        scores[t],
        moves[t],
        boards[t + 1],
        scores[t + 1],
    ) by {
        assert(play_step(boards[t], scores[t], moves[t], boards[t + 1], scores[t + 1]));
        assert(is_legal(boards[t], code_direction(moves[t])));
    }
}

} // verus!
