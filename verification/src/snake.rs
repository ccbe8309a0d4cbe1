//! The board, its squares, and the moves that change it.

use crate::grid::lemma_free_square;
use crate::model::{in_grid, is_legal, move_index, reverse, shift, Game, Pos};
use crate::rng::random_below;
use rand::rngs::StdRng;
use vstd::pervasive::unreached;
use vstd::prelude::*;

verus! {

/// Side length of the square board.
pub const BOARD_SIZE: usize = 8;

/// Number of squares on the board.
pub const CELL_COUNT: usize = 64;

/// The score at which the snake has eaten every apple the board has room for.
pub const FINAL_SCORE: usize = 63;

/// One of the four directions the snake can be steered in.
#[derive(Debug, Clone, Copy, PartialEq, Eq, Structural, Hash)]
pub enum Moves {
    Up,
    Down,
    Left,
    Right,
}

impl Moves {
    /// The index of the direction: 0 for up, 1 for down, 2 for left, 3 for right.
    pub fn to_usize(&self) -> (i: usize)
        ensures
            i == move_index(*self),
    {
        match self {
            Moves::Up => 0,
            Moves::Down => 1,
            Moves::Left => 2,
            Moves::Right => 3,
        }
    }

    /// The direction that undoes this one.
    pub fn opposite(&self) -> (r: Moves)
        ensures
            r == reverse(*self),
    {
        match self {
            Moves::Up => Moves::Down,
            Moves::Down => Moves::Up,
            Moves::Left => Moves::Right,
            Moves::Right => Moves::Left,
        }
    }
}

/// What a single square of the board holds.
#[derive(Debug, Clone, Copy, PartialEq, Eq, Structural)]
pub enum Cell {
    /// The apple.
    Apple,
    /// Nothing.
    Empty,
    /// A segment of the snake. Behind the head each segment records the
    /// direction in which the snake left it; the head of a running game
    /// records none.
    Snake(Option<Moves>),
}

impl Cell {
    /// The symbol that stands for the square's content: a green apple, a
    /// black square for nothing, a white square for the snake.
    pub fn print(&self) -> (text: String)
        ensures
            text@ == symbol(*self),
    {
        broadcast use vstd::string::group_string_axioms;

        match self {
            Cell::Apple => "\u{1F34F}".to_string(),
            Cell::Empty => "\u{2B1B}".to_string(),
            Cell::Snake(_) => "\u{2B1C}".to_string(),
        }
    }

    /// A number for the square's content: 0 empty, 1 apple, 2 a segment with
    /// no direction, 3 to 6 a segment that was left upwards, downwards, to the
    /// left, to the right.
    pub fn to_usize(&self) -> (code: usize)
        ensures
            code == match *self {
                Cell::Empty => 0usize,
                Cell::Apple => 1usize,
                Cell::Snake(None) => 2usize,
                Cell::Snake(Some(Moves::Up)) => 3usize,
                Cell::Snake(Some(Moves::Down)) => 4usize,
                Cell::Snake(Some(Moves::Left)) => 5usize,
                Cell::Snake(Some(Moves::Right)) => 6usize,
            },
    {
        match self {
            Cell::Apple => 1,
            Cell::Empty => 0,
            Cell::Snake(dir) => match dir {
                Some(d) => match d {
                    Moves::Up => 3,
                    Moves::Down => 4,
                    Moves::Left => 5,
                    Moves::Right => 6,
                },
                None => 2,
            },
        }
    }
}

/// The squares of a board, row by row.
pub type Squares = [[Cell; BOARD_SIZE]; BOARD_SIZE];

/// What a board holds at a position.
pub open spec fn at(board: Squares, p: Pos) -> Cell {
    board[p.1][p.0]
}

/// `board` holds what `other` holds, except perhaps on the squares `a`, `b`
/// and `c`.
pub open spec fn same_except(board: Squares, other: Squares, a: Pos, b: Pos, c: Pos) -> bool {
    forall|p: Pos| in_grid(p) && p != a && p != b && p != c ==> #[trigger] at(board, p) == at(other, p)
}

/// The symbol that stands for a square's content.
pub open spec fn symbol(c: Cell) -> Seq<char> {
    match c {
        Cell::Apple => "\u{1F34F}"@,
        Cell::Empty => "\u{2B1B}"@,
        Cell::Snake(_) => "\u{2B1C}"@,
    }
}

/// The symbols of the first `n` squares of row `y`, left to right.
pub open spec fn row_text(board: Squares, y: int, n: int) -> Seq<char>
    decreases n,
{
    if n <= 0 {
        Seq::empty()
    } else {
        row_text(board, y, n - 1) + symbol(at(board, (n - 1, y)))
    }
}

/// The symbols of the first `n` rows, each row followed by a line break.
pub open spec fn board_text(board: Squares, n: int) -> Seq<char>
    decreases n,
{
    if n <= 0 {
        Seq::empty()
    } else {
        board_text(board, n - 1) + row_text(board, n - 1, BOARD_SIZE as int) + "\n"@
    }
}

/// The text of a game whose score reads `score`: the score's line, then the
/// rows of the board.
pub open spec fn game_text(score: Seq<char>, board: Squares) -> Seq<char> {
    "Score: "@ + score + "\n"@ + board_text(board, BOARD_SIZE as int)
}

/// The position that a pair of board coordinates names.
pub open spec fn pos(c: (usize, usize)) -> Pos {
    (c.0 as int, c.1 as int)
}

/// A game of snake: the board and the bookkeeping that goes with it.
///
/// Coordinates are `(x, y)`, and the square at `(x, y)` is `board[y][x]`.
#[derive(Debug, Clone, Copy)]
pub struct SnakeBoard {
    pub board: Squares,
    /// Apples eaten so far.
    pub points: usize,
    /// The direction of the last move, if there was one.
    pub facing: Option<Moves>,
    pub snake_head: (usize, usize),
    pub snake_tail: (usize, usize),
    pub apple: (usize, usize),
    /// False once the game has ended.
    pub still_playing: bool,
}

impl View for SnakeBoard {
    type V = Game;

    open spec fn view(&self) -> Game {
        Game {
            snake: self.body(),
            apple: pos(self.apple),
            score: self.points as nat,
            facing: self.facing,
            alive: self.still_playing,
        }
    }
}

impl SnakeBoard {
    /// What the board holds at a position.
    pub open spec fn cell(self, p: Pos) -> Cell {
        at(self.board, p)
    }

    /// How many segments the snake has. A game that ended by filling the
    /// board counts the last apple without the snake having moved onto it.
    pub open spec fn length(self) -> int {
        if !self.still_playing && self.points == FINAL_SCORE {
            self.points as int
        } else {
            self.points + 1
        }
    }

    /// The direction recorded on the head's square: none while the game runs,
    /// the fatal move once it has ended.
    pub open spec fn head_mark(self) -> Option<Moves> {
        if self.still_playing {
            None
        } else {
            self.facing
        }
    }

    /// The square at `from` is a segment whose recorded direction leads to `to`.
    pub open spec fn links(self, from: Pos, to: Pos) -> bool {
        self.cell(from) matches Cell::Snake(Some(d)) && shift(from, d) == to
    }

    /// Along `body`, each segment but the last leads to the one after it.
    pub open spec fn chained(self, body: Seq<Pos>) -> bool {
        forall|i: int, j: int|
            0 <= i && j == i + 1 && j < body.len() ==> self.links(
                #[trigger] body[i],
                #[trigger] body[j],
            )
    }

    /// `body` is the snake of this board, tail first: it runs from
    /// `snake_tail` to `snake_head` over distinct squares of the board, each
    /// segment's recorded direction leads to the next, and every other square
    /// is empty but for the one apple.
    pub open spec fn traces(self, body: Seq<Pos>) -> bool {
        &&& body.len() >= 1
        &&& body.len() == self.length()
        &&& body.first() == pos(self.snake_tail)
        &&& body.last() == pos(self.snake_head)
        &&& forall|i: int| 0 <= i < body.len() ==> in_grid(#[trigger] body[i])
        &&& body.no_duplicates()
        &&& self.chained(body)
        &&& self.cell(body.last()) == Cell::Snake(self.head_mark())
        &&& in_grid(pos(self.apple))
        &&& !body.contains(pos(self.apple))
        &&& forall|p: Pos|
            in_grid(p) && !body.contains(p) ==> #[trigger] self.cell(p) == (if p == pos(
                self.apple,
            ) {
                Cell::Apple
            } else {
                Cell::Empty
            })
        &&& self.still_playing ==> self.points + 1 < CELL_COUNT
    }

    /// The board is well formed: it shows a snake.
    pub open spec fn wf(self) -> bool {
        exists|body: Seq<Pos>| self.traces(body)
    }

    /// The snake of a well-formed board, tail first.
    pub open spec fn body(self) -> Seq<Pos> {
        choose|body: Seq<Pos>| self.traces(body)
    }

    /// A board shows at most one snake.
    pub proof fn lemma_body_unique(self, a: Seq<Pos>, b: Seq<Pos>)
        requires
            self.traces(a),
            self.traces(b),
        ensures
            a == b,
    {
        assert forall|i: int| 0 <= i < a.len() implies a[i] == b[i] by {
            self.lemma_bodies_agree(a, b, i);
        }
        assert(a =~= b);
    }

    proof fn lemma_bodies_agree(self, a: Seq<Pos>, b: Seq<Pos>, i: int)
        requires
            self.traces(a),
            self.traces(b),
            0 <= i < a.len(),
        ensures
            a[i] == b[i],
        decreases i,
    {
        if i > 0 {
            self.lemma_bodies_agree(a, b, i - 1);
            assert(self.links(a[i - 1], a[i]));
            assert(self.links(b[i - 1], b[i]));
        }
    }

    /// Every square of the snake holds a segment.
    pub proof fn lemma_body_cells(self, body: Seq<Pos>)
        requires
            self.traces(body),
        ensures
            forall|p: Pos| body.contains(p) ==> #[trigger] self.cell(p) is Snake,
    {
        assert forall|p: Pos| body.contains(p) implies #[trigger] self.cell(p) is Snake by {
            let i = choose|i: int| 0 <= i < body.len() && body[i] == p;
            if i < body.len() - 1 {
                assert(self.links(body[i], body[i + 1]));
            }
        }
    }

    /// The snake of a board is the one it traces.
    pub proof fn lemma_body_is(self, body: Seq<Pos>)
        requires
            self.traces(body),
        ensures
            self.wf(),
            self.body() == body,
    {
        self.lemma_body_unique(body, self.body());
    }
}

impl SnakeBoard {
    /// The squares of the board that hold nothing, row by row from the top
    /// and left to right within a row.
    pub fn empty_cells(&self) -> (free: Vec<(usize, usize)>)
        ensures
            forall|i: int|
                0 <= i < free.len() ==> in_grid(pos(#[trigger] free[i])) && self.cell(pos(free[i]))
                    == Cell::Empty,
            forall|p: Pos|
                in_grid(p) && self.cell(p) == Cell::Empty ==> exists|i: int|
                    0 <= i < free.len() && pos(#[trigger] free[i]) == p,
            forall|i: int, j: int|
                0 <= i < j < free.len() ==> comes_before(#[trigger] free[i], #[trigger] free[j]),
    {
        let mut free: Vec<(usize, usize)> = Vec::new();
        let mut y: usize = 0;
        while y < BOARD_SIZE
            invariant
                y <= BOARD_SIZE,
                forall|i: int|
                    0 <= i < free.len() ==> in_grid(pos(#[trigger] free[i])) && self.cell(
                        pos(free[i]),
                    ) == Cell::Empty && free[i].1 < y,
                forall|p: Pos|
                    in_grid(p) && p.1 < y && self.cell(p) == Cell::Empty ==> exists|i: int|
                        0 <= i < free.len() && pos(#[trigger] free[i]) == p,
                forall|i: int, j: int|
                    0 <= i < j < free.len() ==> comes_before(
                        #[trigger] free[i],
                        #[trigger] free[j],
                    ),
            decreases BOARD_SIZE - y,
        {
            let mut x: usize = 0;
            while x < BOARD_SIZE
                invariant
                    y < BOARD_SIZE,
                    x <= BOARD_SIZE,
                    forall|i: int|
                        0 <= i < free.len() ==> in_grid(pos(#[trigger] free[i])) && self.cell(
                            pos(free[i]),
                        ) == Cell::Empty && (free[i].1 < y || (free[i].1 == y && free[i].0 < x)),
                    forall|p: Pos|
                        in_grid(p) && (p.1 < y || (p.1 == y && p.0 < x)) && self.cell(p)
                            == Cell::Empty ==> exists|i: int|
                            0 <= i < free.len() && pos(#[trigger] free[i]) == p,
                    forall|i: int, j: int|
                        0 <= i < j < free.len() ==> comes_before(
                            #[trigger] free[i],
                            #[trigger] free[j],
                        ),
                decreases BOARD_SIZE - x,
            {
                if self.board[y][x] == Cell::Empty {
                    let ghost before = free@;
                    free.push((x, y));
                    assert forall|p: Pos|
                        in_grid(p) && (p.1 < y || (p.1 == y && p.0 < x + 1)) && self.cell(p)
                            == Cell::Empty implies exists|i: int|
                        0 <= i < free.len() && pos(#[trigger] free[i]) == p by {
                        if p == (x as int, y as int) {
                            assert(pos(free[before.len() as int]) == p);
                        } else {
                            let i = choose|i: int|
                                0 <= i < before.len() && pos(#[trigger] before[i]) == p;
                            assert(pos(free[i]) == p);
                        }
                    }
                    assert forall|i: int, j: int| 0 <= i < j < free.len() implies comes_before(
                        #[trigger] free[i],
                        #[trigger] free[j],
                    ) by {
                        assert(free[i] == before[i]);
                        if j < before.len() {
                            assert(free[j] == before[j]);
                        }
                    }
                }
                x += 1;
            }
            y += 1;
        }
        free
    }
}

/// `a` is in a row above `b`, or in the same row to the left of it.
pub open spec fn comes_before(a: (usize, usize), b: (usize, usize)) -> bool {
    a.1 < b.1 || (a.1 == b.1 && a.0 < b.0)
}

/// The square next to `c` in direction `m`, if the board has one there.
pub fn neighbour(c: (usize, usize), m: Moves) -> (next: Option<(usize, usize)>)
    requires
        in_grid(pos(c)),
    ensures
        match next {
            Some(t) => in_grid(pos(t)) && pos(t) == shift(pos(c), m),
            None => !in_grid(shift(pos(c), m)),
        },
{
    let (x, y) = c;
    match m {
        Moves::Up => if y == 0 {
            None
        } else {
            Some((x, y - 1))
        },
        Moves::Down => if y == BOARD_SIZE - 1 {
            None
        } else {
            Some((x, y + 1))
        },
        Moves::Left => if x == 0 {
            None
        } else {
            Some((x - 1, y))
        },
        Moves::Right => if x == BOARD_SIZE - 1 {
            None
        } else {
            Some((x + 1, y))
        },
    }
}

impl SnakeBoard {
    /// One of the squares on which the next apple may be laid out.
    pub open spec fn is_free(self, c: (usize, usize)) -> bool {
        in_grid(pos(c)) && self.cell(pos(c)) == Cell::Empty
    }

    fn put(board: &mut Squares, c: (usize, usize), content: Cell)
        requires
            in_grid(pos(c)),
        ensures
            at(*final(board), pos(c)) == content,
            same_except(*final(board), *old(board), pos(c), pos(c), pos(c)),
    {
        board[c.1][c.0] = content;
    }

    /// Applies one move, laying out the next apple on `respawn` if the move
    /// eats the apple and the game goes on.
    ///
    /// A finished game is left untouched. Otherwise the move is recorded as
    /// the new facing and on the head's square. Running off the board or into
    /// the snake ends the game. Eating the apple raises the score; the game
    /// ends if that fills the board, else the snake grows by one segment and
    /// the apple moves to `respawn`. Any other move slides the snake one
    /// square along.
    pub fn make_move_with(&mut self, action: Moves, respawn: (usize, usize))
        requires
            old(self).wf(),
            old(self)@.grows(action) ==> old(self).is_free(respawn),
        ensures
            final(self).wf(),
            final(self)@ == old(self)@.step(action, pos(respawn)),
            !old(self).still_playing ==> *final(self) == *old(self),
    {
        if !self.still_playing {
            return ;
        }
        let ghost before = *self;
        let ghost body = self.body();
        let ghost target = shift(body.last(), action);
        assert(before.traces(body));

        self.facing = Some(action);
        let head = self.snake_head;
        Self::put(&mut self.board, head, Cell::Snake(Some(action)));
        let ghost marked = *self;
        proof {
            before.lemma_marked(marked, body, action);
        }

        let next = neighbour(head, action);
        let crashed = match next {
            None => true,
            Some(t) => matches!(self.board[t.1][t.0], Cell::Snake(Some(_))),
        };
        if crashed {
            self.still_playing = false;
            proof {
                assert(in_grid(target) ==> marked.cell(target) == self.cell(target));
                assert(before@.crashes(action));
                before.lemma_ended(*self, body, action);
                self.lemma_body_is(body);
            }
            return ;
        }
        let new_head = match next {
            Some(t) => t,
            None => unreached(),
        };
        assert(pos(new_head) == target);
        assert(!body.contains(target)) by {
            assert(marked.cell(target) == self.cell(target));
        }

        if new_head.0 == self.apple.0 && new_head.1 == self.apple.1 {
            self.points += 1;
            if self.points == FINAL_SCORE {
                self.still_playing = false;
                proof {
                    before.lemma_ended(*self, body, action);
                    self.lemma_body_is(body);
                }
                return ;
            }
            assert(before@.grows(action));
            proof {
                before.lemma_body_cells(body);
            }
            Self::put(&mut self.board, respawn, Cell::Apple);
            let ghost laid = self.board;
            self.apple = respawn;
            Self::put(&mut self.board, new_head, Cell::Snake(None));
            self.snake_head = new_head;
            proof {
                assert(!body.contains(pos(respawn)));
                assert(at(laid, body.last()) == at(marked.board, body.last()));
                assert(at(self.board, body.last()) == at(laid, body.last()));
                assert(at(self.board, pos(respawn)) == at(laid, pos(respawn)));
                assert forall|p: Pos|
                    in_grid(p) && p != body.last() && p != target && p != pos(
                        respawn,
                    ) implies #[trigger] at(self.board, p) == at(before.board, p) by {
                    assert(at(laid, p) == at(marked.board, p));
                    assert(at(marked.board, p) == at(before.board, p));
                }
                before.lemma_grown(*self, body, action, respawn);
                self.lemma_body_is(body.push(target));
            }
        } else {
            let tail = self.snake_tail;
            assert(marked.links(body.push(target)[0], body.push(target)[1]));
            let direction = match self.board[tail.1][tail.0] {
                Cell::Snake(Some(d)) => d,
                _ => unreached(),
            };
            let new_tail = match neighbour(tail, direction) {
                Some(t) => t,
                None => unreached(),
            };
            Self::put(&mut self.board, tail, Cell::Empty);
            let ghost cleared = self.board;
            self.snake_tail = new_tail;
            Self::put(&mut self.board, new_head, Cell::Snake(None));
            self.snake_head = new_head;
            proof {
                assert(before.cell(target) == Cell::Empty);
                assert(at(self.board, body.first()) == at(cleared, body.first()));
                if body.len() > 1 {
                    assert(body.first() != body.last());
                    assert(at(cleared, body.last()) == at(marked.board, body.last()));
                    assert(at(self.board, body.last()) == at(cleared, body.last()));
                }
                assert forall|p: Pos|
                    in_grid(p) && p != body.last() && p != body.first() && p
                        != target implies #[trigger] at(self.board, p) == at(before.board, p) by {
                    assert(at(cleared, p) == at(marked.board, p));
                    assert(at(marked.board, p) == at(before.board, p));
                }
                before.lemma_slid(*self, body, action);
                self.lemma_body_is(body.drop_first().push(target));
            }
        }
    }
}

/// The column the first apple goes to: the column drawn for it, or, if
/// that is the snake's own column, the column as far from the right edge as
/// the snake's is from the left.
pub open spec fn apple_column(drawn: int, snake: int) -> int {
    if drawn == snake {
        BOARD_SIZE - 1 - snake
    } else {
        drawn
    }
}

impl SnakeBoard {
    /// A fresh game with a one-segment snake at column `snake_x`, row
    /// `snake_y`, and the apple in row `apple_y`, at column `apple_x` or, if
    /// that is the snake's column, at the mirrored column.
    pub fn from_draws(snake_x: usize, snake_y: usize, apple_x: usize, apple_y: usize) -> (game:
        SnakeBoard)
        requires
            snake_x < BOARD_SIZE,
            snake_y < BOARD_SIZE,
            apple_x < BOARD_SIZE,
            apple_y < BOARD_SIZE,
        ensures
            game.wf(),
            game@ == (Game {
                snake: seq![(snake_x as int, snake_y as int)],
                apple: (apple_column(apple_x as int, snake_x as int), apple_y as int),
                score: 0,
                facing: None,
                alive: true,
            }),
    {
        let mut board = [[Cell::Empty; BOARD_SIZE]; BOARD_SIZE];
        let ghost blank = board;
        assert forall|p: Pos| in_grid(p) implies #[trigger] at(blank, p) == Cell::Empty by {
            assert(blank[p.1] == [Cell::Empty; BOARD_SIZE]);
        }
        Self::put(&mut board, (snake_x, snake_y), Cell::Snake(None));
        let ghost seeded = board;
        let column = if apple_x == snake_x {
            (BOARD_SIZE - 1) - snake_x
        } else {
            apple_x
        };
        Self::put(&mut board, (column, apple_y), Cell::Apple);
        let game = SnakeBoard {
            board,
            points: 0,
            facing: None,
            snake_head: (snake_x, snake_y),
            snake_tail: (snake_x, snake_y),
            apple: (column, apple_y),
            still_playing: true,
        };
        proof {
            let body = seq![(snake_x as int, snake_y as int)];
            assert(body[0] == (snake_x as int, snake_y as int));
            assert(at(game.board, body[0]) == at(seeded, body[0]));
            assert forall|p: Pos| in_grid(p) && !body.contains(p) implies #[trigger] game.cell(p)
                == (if p == pos(game.apple) {
                Cell::Apple
            } else {
                Cell::Empty
            }) by {
                assert(p != body[0]);
                if p != pos(game.apple) {
                    assert(at(game.board, p) == at(seeded, p));
                    assert(at(seeded, p) == at(blank, p));
                }
            }
            assert(game.traces(body));
            game.lemma_body_is(body);
        }
        game
    }

    /// A fresh game at random: the snake's column and row and the apple's
    /// column and row are drawn in this order, each below `BOARD_SIZE`, and
    /// handed to `from_draws`.
    pub fn new_random(rng: &mut StdRng) -> (game: SnakeBoard)
        ensures
            game.wf(),
            game.still_playing,
            game.points == 0,
            game.facing is None,
            game@.snake.len() == 1,
            game.snake_head == game.snake_tail,
            game.apple.0 != game.snake_head.0,
    {
        let snake_x = random_below(rng, BOARD_SIZE);
        let snake_y = random_below(rng, BOARD_SIZE);
        let apple_x = random_below(rng, BOARD_SIZE);
        let apple_y = random_below(rng, BOARD_SIZE);
        let game = Self::from_draws(snake_x, snake_y, apple_x, apple_y);
        proof {
            assert(game.traces(game.body()));
        }
        game
    }

    /// The moves open to the snake: all four, but for the one that would
    /// turn it straight back. Whether a move is survived is not looked at.
    pub fn get_actions(&self) -> (moves: Vec<Moves>)
        ensures
            moves@.no_duplicates(),
            forall|m: Moves| moves@.contains(m) <==> is_legal(self.facing, m),
            moves.len() == if self.facing is None {
                4int
            } else {
                3int
            },
    {
        let mut moves: Vec<Moves> = Vec::new();
        let banned = match self.facing {
            Some(direction) => Some(direction.opposite()),
            None => None,
        };
        if banned != Some(Moves::Down) {
            moves.push(Moves::Down);
        }
        if banned != Some(Moves::Up) {
            moves.push(Moves::Up);
        }
        if banned != Some(Moves::Left) {
            moves.push(Moves::Left);
        }
        if banned != Some(Moves::Right) {
            moves.push(Moves::Right);
        }
        proof {
            let list = moves@;
            assert forall|m: Moves| is_legal(self.facing, m) implies list.contains(m) by {
                if list.len() == 4 {
                    assert(list[0] == Moves::Down && list[1] == Moves::Up && list[2] == Moves::Left
                        && list[3] == Moves::Right);
                } else {
                    assert(list.len() == 3);
                    assert(list[0] == m || list[1] == m || list[2] == m);
                }
            }
        }
        moves
    }

    /// Whether `action` makes the snake eat the apple with the game going on
    /// afterwards, so that a new apple is needed.
    pub fn will_grow(&self, action: Moves) -> (grows: bool)
        requires
            self.wf(),
        ensures
            grows == self@.grows(action),
    {
        if !self.still_playing {
            return false;
        }
        proof {
            let body = self.body();
            assert(self.traces(body));
            assert(in_grid(body[body.len() - 1]));
        }
        match neighbour(self.snake_head, action) {
            None => false,
            Some(t) => t.0 == self.apple.0 && t.1 == self.apple.1 && self.points + 1
                != FINAL_SCORE,
        }
    }

    /// Applies one move; where the snake eats the apple and the game goes on,
    /// the next apple is laid out on one of the empty squares, drawn from
    /// `rng` with equal chances.
    ///
    /// The outcome is that of `make_move_with` for the square drawn.
    pub fn make_move(&mut self, action: Moves, rng: &mut StdRng)
        requires
            old(self).wf(),
        ensures
            final(self).wf(),
            final(self)@ == old(self)@.step(action, final(self)@.apple),
            !old(self).still_playing ==> *final(self) == *old(self),
    {
        let respawn = if self.will_grow(action) {
            let free = self.empty_cells();
            proof {
                let body = self.body();
                assert(self.traces(body));
                lemma_free_square(body, pos(self.apple));
                let p = choose|p: Pos| in_grid(p) && !body.contains(p) && p != pos(self.apple);
                assert(self.cell(p) == Cell::Empty);
            }
            let drawn = random_below(rng, free.len());
            free[drawn]
        } else {
            self.apple
        };
        self.make_move_with(action, respawn);
    }

    /// Whether the game is still running.
    pub fn is_still_playing(&self) -> (running: bool)
        ensures
            running == self@.alive,
    {
        self.still_playing
    }

    /// Steps between head and apple, counted along rows and columns.
    pub fn apple_distance(&self) -> (steps: usize)
        requires
            self.wf(),
        ensures
            steps == self@.apple_distance(),
    {
        proof {
            let body = self.body();
            assert(self.traces(body));
            assert(in_grid(body[body.len() - 1]));
        }
        let (head_x, head_y) = self.snake_head;
        let (apple_x, apple_y) = self.apple;
        let across = if head_x < apple_x {
            apple_x - head_x
        } else {
            head_x - apple_x
        };
        let down = if head_y < apple_y {
            apple_y - head_y
        } else {
            head_y - apple_y
        };
        across + down
    }
}

impl SnakeBoard {
    /// The game as text: a line with the score, then one line for each
    /// row of the board, top row first, with one symbol for each square.
    pub fn print(&self) -> (text: String)
        ensures
            exists|score: String| #[trigger]
                vstd::string::to_string_from_display_ensures::<usize>(&self.points, score)
                    && text@ == game_text(score@, self.board),
    {
        broadcast use vstd::string::group_string_axioms;

        let score = self.points.to_string();
        let mut text = "Score: ".to_string();
        text.append(score.as_str());
        text.append("\n");
        let ghost heading = text@;
        assert(heading == heading + board_text(self.board, 0));
        let mut y: usize = 0;
        while y < BOARD_SIZE
            invariant
                y <= BOARD_SIZE,
                text@ == heading + board_text(self.board, y as int),
            decreases BOARD_SIZE - y,
        {
            let ghost above = text@;
            assert(above == above + row_text(self.board, y as int, 0));
            let mut x: usize = 0;
            while x < BOARD_SIZE
                invariant
                    y < BOARD_SIZE,
                    x <= BOARD_SIZE,
                    text@ == above + row_text(self.board, y as int, x as int),
                decreases BOARD_SIZE - x,
            {
                let square = self.board[y][x].print();
                text.append(square.as_str());
                assert(text@ == above + row_text(self.board, y as int, x + 1));
                x += 1;
            }
            text.append("\n");
            assert(text@ == heading + board_text(self.board, y + 1));
            y += 1;
        }
        assert(heading == "Score: "@ + score@ + "\n"@);
        text
    }
}

} // verus!
