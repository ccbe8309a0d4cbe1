//! The game as mathematics: the snake is a sequence of grid positions from
//! tail to head, and one move is a function from game to game.

use vstd::prelude::*;
use crate::snake::{Moves, BOARD_SIZE, FINAL_SCORE};

verus! {

/// A position `(x, y)`: column, then row, with row 0 at the top.
pub type Pos = (int, int);

/// Whether a position lies on the board.
pub open spec fn in_grid(p: Pos) -> bool {
    0 <= p.0 < BOARD_SIZE && 0 <= p.1 < BOARD_SIZE
}

/// The position one step away from `p` in direction `m`.
pub open spec fn shift(p: Pos, m: Moves) -> Pos {
    match m {
        Moves::Up => (p.0, p.1 - 1),
        Moves::Down => (p.0, p.1 + 1),
        Moves::Left => (p.0 - 1, p.1),
        Moves::Right => (p.0 + 1, p.1),
    }
}

/// The index of a direction: 0 for up, 1 for down, 2 for left, 3 for right.
pub open spec fn move_index(m: Moves) -> int {
    match m {
        Moves::Up => 0,
        Moves::Down => 1,
        Moves::Left => 2,
        Moves::Right => 3,
    }
}

/// The direction that undoes `m`.
pub open spec fn reverse(m: Moves) -> Moves {
    match m {
        Moves::Up => Moves::Down,
        Moves::Down => Moves::Up,
        Moves::Left => Moves::Right,
        Moves::Right => Moves::Left,
    }
}

/// A move is legal unless it turns the snake straight back onto its neck.
pub open spec fn is_legal(facing: Option<Moves>, m: Moves) -> bool {
    facing != Some(reverse(m))
}

/// The four directions.
pub open spec fn all_moves() -> Seq<Moves> {
    seq![Moves::Down, Moves::Up, Moves::Left, Moves::Right]
}

/// The mathematical state of a game.
pub struct Game {
    /// The squares the snake occupies, tail first and head last.
    pub snake: Seq<Pos>,
    /// Where the apple lies.
    pub apple: Pos,
    /// Apples eaten so far.
    pub score: nat,
    /// The direction of the last move, if there was one.
    pub facing: Option<Moves>,
    /// False once the game has ended.
    pub alive: bool,
}

impl Game {
    pub open spec fn head(self) -> Pos {
        self.snake.last()
    }

    pub open spec fn tail(self) -> Pos {
        self.snake.first()
    }

    /// The square the head would enter by moving in direction `m`.
    pub open spec fn target(self, m: Moves) -> Pos {
        shift(self.head(), m)
    }

    /// The move runs off the board or into the snake itself, tail included.
    pub open spec fn crashes(self, m: Moves) -> bool {
        !in_grid(self.target(m)) || self.snake.contains(self.target(m))
    }

    /// The move lands the head on the apple.
    pub open spec fn eats(self, m: Moves) -> bool {
        !self.crashes(m) && self.target(m) == self.apple
    }

    /// The move eats the apple and a fresh apple has to be laid out.
    pub open spec fn grows(self, m: Moves) -> bool {
        self.alive && self.eats(m) && self.score + 1 != FINAL_SCORE
    }

    /// The game after steering in direction `m`. `respawn` is where the next
    /// apple goes; it matters only when `self.grows(m)`.
    pub open spec fn step(self, m: Moves, respawn: Pos) -> Game {
        if !self.alive {
            self
        } else if self.crashes(m) {
            Game { facing: Some(m), alive: false, ..self }
        } else if self.target(m) == self.apple {
            if self.score + 1 == FINAL_SCORE {
                Game { facing: Some(m), score: self.score + 1, alive: false, ..self }
            } else {
                Game {
                    facing: Some(m),
                    score: self.score + 1,
                    snake: self.snake.push(self.target(m)),
                    apple: respawn,
                    ..self
                }
            }
        } else {
            Game { facing: Some(m), snake: self.snake.drop_first().push(self.target(m)), ..self }
        }
    }

    /// The move leaves the game running.
    pub open spec fn survives(self, m: Moves) -> bool {
        self.alive && !self.crashes(m) && !(self.target(m) == self.apple && self.score + 1
            == FINAL_SCORE)
    }

    /// The move raises the score.
    pub open spec fn scores(self, m: Moves) -> bool {
        self.alive && self.eats(m)
    }

    /// The direction that closes the gap to the apple: along the row first,
    /// along the column only once the head is in the apple's column.
    pub open spec fn toward_apple(self) -> Moves {
        if self.apple.0 < self.head().0 {
            Moves::Left
        } else if self.apple.0 > self.head().0 {
            Moves::Right
        } else if self.apple.1 < self.head().1 {
            Moves::Up
        } else {
            Moves::Down
        }
    }

    /// Steps between head and apple, counted along rows and columns.
    pub open spec fn apple_distance(self) -> int {
        let dx = self.head().0 - self.apple.0;
        let dy = self.head().1 - self.apple.1;
        (if dx < 0 { -dx } else { dx }) + (if dy < 0 { -dy } else { dy })
    }
}

/// A move never lowers the score, and raises it by exactly one exactly when
/// the game is running and the head lands on the apple.
pub proof fn lemma_score_step(g: Game, m: Moves, respawn: Pos)
    ensures
        g.step(m, respawn).score >= g.score,
        g.scores(m) ==> g.step(m, respawn).score == g.score + 1,
        !g.scores(m) ==> g.step(m, respawn).score == g.score,
{
}

/// Whether the game goes on, and what the score becomes, does not depend on
/// where the next apple is laid out.
pub proof fn lemma_step_outcome(g: Game, m: Moves, respawn: Pos)
    ensures
        g.step(m, respawn).alive == g.survives(m),
        g.step(m, respawn).score > g.score <==> g.scores(m),
        g.alive ==> g.step(m, respawn).facing == Some(m),
{
}

/// A finished game stays as it is.
pub proof fn lemma_terminal_is_inert(g: Game, m: Moves, respawn: Pos)
    requires
        !g.alive,
    ensures
        g.step(m, respawn) == g,
{
}

} // verus!
