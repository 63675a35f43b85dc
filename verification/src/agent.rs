//! Reference agents: random, greedy and corner. Every later player is
//! measured against them.

use vstd::prelude::*;
use rand_pcg::Pcg64Mcg;
use crate::board::{
    apply_move, cells, dir_index, is_legal, lemma_legal_moves, lemma_move_score_bounded, legal_moves,
    legal_moves_spec, move_score, moved_cells, spawn, spawned_onto, try_move, Direction,
};
use crate::game::GameState;
use crate::rng::index_below;

verus! {

/// A player: picks a move for the game as it stands, or `None` when it has
/// none to offer.
pub trait Agent {
    /// The move this agent plays in `state`, if any.
    fn choose_move(&mut self, state: &GameState) -> Option<Direction>;
}

/// Points that moving in `dir` wins on `board`.
pub open spec fn gain(board: u64, dir: Direction) -> nat {
    move_score(cells(board), dir)
}

/// The legal moves of a board, in the order of `Direction::ALL`.
pub fn legal_moves_of(board: u64) -> (v: Vec<Direction>)
    ensures
        v@ == legal_moves_spec(board),
{
    legal_moves(board)
}

/// Picks a legal move uniformly at random.
pub struct RandomAgent {
    rng: Pcg64Mcg,
}

impl View for RandomAgent {
    type V = Pcg64Mcg;

    /// The generator the agent draws its moves from.
    closed spec fn view(&self) -> Pcg64Mcg {
        self.rng
    }
}

impl RandomAgent {
    /// An agent that draws its moves from `rng`.
    pub fn new(rng: Pcg64Mcg) -> (a: Self)
        ensures
            a@ == rng,
    {
        RandomAgent { rng }
    }
}

impl Agent for RandomAgent {
    fn choose_move(&mut self, state: &GameState) -> (r: Option<Direction>)
        ensures
            r is None <==> legal_moves_spec(state@.0).len() == 0,
            r matches Some(d) ==> legal_moves_spec(state@.0).contains(d),
    {
        let moves = state.legal_moves();
        if moves.len() == 0 {
            return None;
        }
        let idx = index_below(&mut self.rng, moves.len());
        Some(moves[idx])
    }
}

/// Picks the move that wins the most points right away; among equal gains,
/// the last one in the order of `Direction::ALL`.
pub struct GreedyAgent;

/// `dir` is a legal move of `board` whose gain no legal move beats, and
/// every legal move after it in `Direction::ALL` gains strictly less.
pub open spec fn is_greedy_choice(board: u64, dir: Direction) -> bool {
    &&& is_legal(board, dir)
    &&& forall|e: Direction| #[trigger] is_legal(board, e) ==> gain(board, e) <= gain(board, dir)
    &&& forall|e: Direction|
        #[trigger] is_legal(board, e) && dir_index(e) > dir_index(dir) ==> gain(board, e) < gain(
            board,
            dir,
        )
}

impl Agent for GreedyAgent {
    fn choose_move(&mut self, state: &GameState) -> (r: Option<Direction>)
        ensures
            r is None <==> forall|e: Direction| !#[trigger] is_legal(state@.0, e),
            r matches Some(d) ==> is_greedy_choice(state@.0, d),
    {
        let board = state.board();
        let all = [Direction::Left, Direction::Right, Direction::Up, Direction::Down];
        let mut best: Option<Direction> = None;
        let mut best_gain: u32 = 0;
        let mut i: usize = 0;
        while i < 4
            invariant
                i <= 4,
                board == state@.0,
                all@ == seq![Direction::Left, Direction::Right, Direction::Up, Direction::Down],
                best is None <==> forall|e: Direction| dir_index(e) < i ==> !#[trigger] is_legal(board, e),
                best matches Some(d) ==> {
                    &&& dir_index(d) < i
                    &&& is_legal(board, d)
                    &&& best_gain == gain(board, d)
                    &&& forall|e: Direction|
                        #[trigger] is_legal(board, e) && dir_index(e) < i ==> gain(board, e) <= gain(board, d)
                    &&& forall|e: Direction|
                        #[trigger] is_legal(board, e) && dir_index(e) < i && dir_index(e) > dir_index(d)
                            ==> gain(board, e) < gain(board, d)
                },
            decreases 4 - i,
        {
            let d = all[i];
            assert(dir_index(d) == i);
            let (legal, _, gained) = try_move(board, d);
            if legal && (best.is_none() || gained >= best_gain) {
                best = Some(d);
                best_gain = gained;
            }
            i += 1;
        }
        best
    }
}

/// Fixed "corner" strategy: always tries the directions in the same order
/// (down, left, up, right) and plays the first legal one, to keep the big
/// tiles gathered in a corner.
pub struct CornerAgent {
    priority: [Direction; 4],
}

impl View for CornerAgent {
    type V = Seq<Direction>;

    /// The order in which the agent tries the directions.
    closed spec fn view(&self) -> Seq<Direction> {
        self.priority@
    }
}

impl CornerAgent {
    /// The agent with its priority order down, left, up, right.
    pub fn new() -> (a: Self)
        ensures
            a@ == seq![Direction::Down, Direction::Left, Direction::Up, Direction::Right],
    {
        let a = CornerAgent {
            priority: [Direction::Down, Direction::Left, Direction::Up, Direction::Right],
        };
        assert(a@ =~= seq![Direction::Down, Direction::Left, Direction::Up, Direction::Right]);
        a
    }
}

impl Default for CornerAgent {
    fn default() -> (a: Self)
        ensures
            a@ == seq![Direction::Down, Direction::Left, Direction::Up, Direction::Right],
    {
        Self::new()
    }
}

impl Agent for CornerAgent {
    fn choose_move(&mut self, state: &GameState) -> (r: Option<Direction>)
        ensures
            final(self)@ == old(self)@,
            r is None <==> forall|k: int| 0 <= k < 4 ==> !is_legal(state@.0, #[trigger] old(self)@[k]),
            r matches Some(d) ==> exists|k: int|
                0 <= k < 4 && #[trigger] old(self)@[k] == d && is_legal(state@.0, d) && forall|j: int|
                    0 <= j < k ==> !is_legal(state@.0, #[trigger] old(self)@[j]),
    {
        let board = state.board();
        let mut k: usize = 0;
        while k < 4
            invariant
                k <= 4,
                board == state@.0,
                self@ == old(self)@,
                self@.len() == 4,
                forall|j: int| 0 <= j < k ==> !is_legal(board, #[trigger] self@[j]),
            decreases 4 - k,
        {
            let d = self.priority[k];
            let (legal, _, _) = try_move(board, d);
            if legal {
                return Some(d);
            }
            k += 1;
        }
        None
    }
}

/// `boards` and `dirs` form a playout from `start`: a tile spawns on
/// `start` to give `boards[0]`, then each direction is legal on the board
/// before it, and a tile spawns on the moved cells to give the next board.
pub open spec fn is_playout(start: u64, boards: Seq<u64>, dirs: Seq<Direction>) -> bool {
    &&& boards.len() == dirs.len() + 1
    &&& spawned_onto(cells(start), boards[0])
    &&& forall|t: int|
        0 <= t < dirs.len() ==> #[trigger] is_legal(boards[t], dirs[t]) && spawned_onto(
            moved_cells(cells(boards[t]), dirs[t]),
            boards[t + 1],
        )
}

/// Points won by the first `n` moves of a playout.
pub open spec fn playout_points(boards: Seq<u64>, dirs: Seq<Direction>, n: int) -> nat
    decreases n,
{
    if n <= 0 {
        0
    } else {
        playout_points(boards, dirs, n - 1) + move_score(cells(boards[n - 1]), dirs[n - 1])
    }
}

/// A random playout from `start_board`: a tile spawns, then up to
/// `max_rollout_moves` legal moves drawn uniformly at random are played,
/// each followed by a spawn; stops early when no move is legal. Returns the
/// points won.
pub fn rollout(rng: &mut Pcg64Mcg, start_board: u64, max_rollout_moves: usize) -> (score: u64)
    requires
        max_rollout_moves < 0x1000_0000_0000,
    ensures
        exists|boards: Seq<u64>, dirs: Seq<Direction>|
            #[trigger] is_playout(start_board, boards, dirs) && dirs.len() <= max_rollout_moves
                && score == playout_points(boards, dirs, dirs.len() as int) && (dirs.len()
                < max_rollout_moves ==> forall|d: Direction| !#[trigger] is_legal(boards.last(), d)),
{
    let mut board = spawn(start_board, rng);
    let mut score = 0u64;
    let ghost mut boards: Seq<u64> = seq![board];
    let ghost mut dirs: Seq<Direction> = Seq::empty();
    let mut k: usize = 0;
    while k < max_rollout_moves
        invariant
            k <= max_rollout_moves,
            max_rollout_moves < 0x1000_0000_0000,
            dirs.len() == k,
            is_playout(start_board, boards, dirs),
            board == boards.last(),
            score == playout_points(boards, dirs, k as int),
            score <= 524288 * k,
        decreases max_rollout_moves - k,
    {
        let legal = legal_moves_of(board);
        if legal.len() == 0 {
            proof {
                lemma_legal_moves(board);
            }
            return score;
        }
        proof {
            lemma_legal_moves(board);
        }
        let idx = index_below(rng, legal.len());
        let dir = legal[idx];
        assert(is_legal(board, legal@[idx as int]));
        let (new_board, gained) = apply_move(board, dir);
        proof {
            lemma_move_score_bounded(board, dir);
        }
        score += gained as u64;
        let next = spawn(new_board, rng);
        proof {
            let old_boards = boards;
            let old_dirs = dirs;
            boards = boards.push(next);
            dirs = dirs.push(dir);
            assert forall|t: int| 0 <= t < dirs.len() implies #[trigger] is_legal(boards[t], dirs[t])
                && spawned_onto(moved_cells(cells(boards[t]), dirs[t]), boards[t + 1]) by {
                if t < k {
                    assert(boards[t] == old_boards[t] && boards[t + 1] == old_boards[t + 1]);
                    assert(dirs[t] == old_dirs[t]);
                    assert(is_legal(old_boards[t], old_dirs[t]));
                } else {
                    assert(boards[t] == board && dirs[t] == dir && boards[t + 1] == next);
                }
            }
            lemma_playout_points_prefix(old_boards, old_dirs, boards, dirs, k as int);
            assert(playout_points(boards, dirs, k + 1) == playout_points(boards, dirs, k as int)
                + move_score(cells(board), dir));
        }
        board = next;
        k += 1;
    }
    score
}

proof fn lemma_playout_points_prefix(
    b1: Seq<u64>,
    d1: Seq<Direction>,
    b2: Seq<u64>,
    d2: Seq<Direction>,
    n: int,
)
    requires
        0 <= n <= d1.len(),
        n <= d2.len(),
        n <= b1.len(),
        n <= b2.len(),
        forall|t: int| 0 <= t < n ==> b1[t] == b2[t] && d1[t] == d2[t],
    ensures
        playout_points(b1, d1, n) == playout_points(b2, d2, n),
    decreases n,
{
    if n > 0 {
        lemma_playout_points_prefix(b1, d1, b2, d2, n - 1);
    }
}

} // verus!
