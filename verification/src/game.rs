//! A game in progress: the board, the points won so far, and the seeded
//! generator that places the new tiles.

use vstd::prelude::*;
use rand_pcg::Pcg64Mcg;
use crate::board::{
    cells, is_legal, legal_moves, legal_moves_spec, max_exponent,
    max_tile, move_score, moved_cells, spawn, spawned_onto, try_move, Direction,
};
use crate::rng::seeded;
use vstd::arithmetic::power2::pow2;

verus! {

/// Points after adding `gained` to `score`, held at `u64::MAX` rather than
/// wrapping.
pub open spec fn add_points(score: u64, gained: nat) -> u64 {
    if score + gained > u64::MAX {
        u64::MAX
    } else {
        (score + gained) as u64
    }
}

/// A game: its board, its score, and the generator of its new tiles, seeded
/// once so that the same seed and the same moves replay the same game.
pub struct GameState {
    board: u64,
    score: u64,
    rng: Pcg64Mcg,
}

impl View for GameState {
    type V = (u64, u64);

    /// The board and the score.
    closed spec fn view(&self) -> (u64, u64) {
        (self.board, self.score)
    }
}

/// A board on which a game starts: two tiles spawned on an empty board.
pub open spec fn is_start(board: u64) -> bool {
    exists|first: u64| spawned_onto(cells(0), first) && #[trigger] spawned_onto(cells(first), board)
}

impl GameState {
    /// A new game for `seed`: an empty board on which two tiles spawn,
    /// and a score of 0.
    pub fn new(seed: u64) -> (g: Self)
        ensures
            g@.1 == 0,
            is_start(g@.0),
    {
        let mut rng = seeded(seed);
        let first = spawn(0, &mut rng);
        let board = spawn(first, &mut rng);
        assert(spawned_onto(cells(0), first) && spawned_onto(cells(first), board));
        GameState { board, score: 0, rng }
    }

    /// The current board.
    pub fn board(&self) -> (b: u64)
        ensures
            b == self@.0,
    {
        self.board
    }

    /// The points won so far.
    pub fn score(&self) -> (s: u64)
        ensures
            s == self@.1,
    {
        self.score
    }

    /// Value of the largest tile on the board.
    pub fn max_tile(&self) -> (v: u32)
        ensures
            v == if max_exponent(cells(self@.0)) == 0 {
                0
            } else {
                pow2(max_exponent(cells(self@.0)) as nat)
            },
    {
        max_tile(self.board)
    }

    /// The legal moves, in the order of `Direction::ALL`.
    pub fn legal_moves(&self) -> (v: Vec<Direction>)
        ensures
            v@ == legal_moves_spec(self@.0),
    {
        legal_moves(self.board)
    }

    /// Plays `dir` when it is legal (the board changes and the points it
    /// wins are added to the score) and returns whether it was; an illegal
    /// move leaves the game as it is.
    pub fn apply_move(&mut self, dir: Direction) -> (moved: bool)
        ensures
            moved == is_legal(old(self)@.0, dir),
            moved ==> cells(final(self)@.0) == moved_cells(cells(old(self)@.0), dir)
                && final(self)@.1 == add_points(
                old(self)@.1,
                move_score(cells(old(self)@.0), dir),
            ),
            !moved ==> final(self)@ == old(self)@,
    {
        let (legal, after, gained) = try_move(self.board, dir);
        if legal {
            self.board = after;
            self.score = self.score.saturating_add(gained as u64);
        }
        legal
    }

    /// Spawns a tile on the board with the game's generator.
    pub fn spawn(&mut self)
        ensures
            final(self)@.1 == old(self)@.1,
            spawned_onto(cells(old(self)@.0), final(self)@.0),
    {
        self.board = spawn(self.board, &mut self.rng);
    }
}

} // verus!
