//! Telling a well-formed board from any other at run time.

use crate::grid::lemma_snake_fits;
use crate::model::{in_grid, Pos};
use crate::snake::{at, neighbour, pos, Cell, SnakeBoard, BOARD_SIZE, CELL_COUNT, FINAL_SCORE};
use vstd::prelude::*;

verus! {

/// One flag for each square of the board.
pub type Marks = [[bool; BOARD_SIZE]; BOARD_SIZE];

/// The flag of a square.
pub open spec fn flagged(marks: Marks, p: Pos) -> bool {
    marks[p.1][p.0]
}

/// The flags are up on the squares of `walked` and nowhere else.
pub open spec fn flags_show(marks: Marks, walked: Seq<Pos>) -> bool {
    forall|p: Pos| in_grid(p) ==> (#[trigger] flagged(marks, p) <==> walked.contains(p))
}

fn raise(marks: &mut Marks, c: (usize, usize), Ghost(walked): Ghost<Seq<Pos>>)
    requires
        in_grid(pos(c)),
        flags_show(*old(marks), walked),
    ensures
        flags_show(*final(marks), walked.push(pos(c))),
{
    let ghost before = *marks;
    marks[c.1][c.0] = true;
    proof {
        let longer = walked.push(pos(c));
        assert forall|p: Pos| in_grid(p) implies (#[trigger] flagged(*marks, p) <==> longer.contains(
            p,
        )) by {
            if p == pos(c) {
                assert(longer[walked.len() as int] == p);
            } else {
                assert(flagged(*marks, p) == flagged(before, p));
                if walked.contains(p) {
                    let i = choose|i: int| 0 <= i < walked.len() && walked[i] == p;
                    assert(longer[i] == p);
                }
                if longer.contains(p) {
                    let i = choose|i: int| 0 <= i < longer.len() && longer[i] == p;
                    assert(walked[i] == p);
                }
            }
        }
    }
}

fn on_board(c: (usize, usize)) -> (inside: bool)
    ensures
        inside == in_grid(pos(c)),
{
    c.0 < BOARD_SIZE && c.1 < BOARD_SIZE
}

impl SnakeBoard {
    /// Whether the square at `p` holds what a square off the snake must hold.
    pub open spec fn off_snake_ok(self, p: Pos) -> bool {
        self.cell(p) == (if p == pos(self.apple) {
            Cell::Apple
        } else {
            Cell::Empty
        })
    }

    /// Follows the recorded directions from the tail over as many squares as
    /// the snake should have, flagging each. Gives the square reached and the
    /// flags, or nothing if the walk leaves the board, meets a square that
    /// records no direction, or comes back to a square it has been on.
    fn walk(&self, length: usize) -> (out: Option<((usize, usize), Marks, Ghost<Seq<Pos>>)>)
        requires
            in_grid(pos(self.snake_tail)),
            1 <= length <= CELL_COUNT,
            length == self.length(),
        ensures
            match out {
                Some((end, marks, walked)) => {
                    &&& walked@.len() == length
                    &&& walked@.first() == pos(self.snake_tail)
                    &&& walked@.last() == pos(end)
                    &&& forall|i: int| 0 <= i < walked@.len() ==> in_grid(#[trigger] walked@[i])
                    &&& walked@.no_duplicates()
                    &&& self.chained(walked@)
                    &&& flags_show(marks, walked@)
                    &&& self.wf() ==> walked@ == self.body()
                },
                None => !self.wf(),
            },
    {
        let mut marks: Marks = [[false; BOARD_SIZE]; BOARD_SIZE];
        let mut here = self.snake_tail;
        let ghost mut walked: Seq<Pos> = Seq::empty();
        proof {
            let blank = marks;
            assert forall|p: Pos| in_grid(p) implies (#[trigger] flagged(blank, p)
                <==> walked.contains(p)) by {
                assert(blank[p.1] == [false; BOARD_SIZE]);
            }
        }
        raise(&mut marks, here, Ghost(walked));
        proof {
            walked = walked.push(pos(here));
            if self.wf() {
                assert(self.traces(self.body()));
                assert(walked =~= self.body().take(1));
            }
        }
        let mut k: usize = 1;
        while k < length
            invariant
                1 <= k <= length,
                length == self.length(),
                walked.len() == k,
                walked.first() == pos(self.snake_tail),
                walked.last() == pos(here),
                forall|i: int| 0 <= i < walked.len() ==> in_grid(#[trigger] walked[i]),
                walked.no_duplicates(),
                self.chained(walked),
                flags_show(marks, walked),
                self.wf() ==> walked == self.body().take(k as int),
            decreases length - k,
        {
            let ghost body = self.body();
            proof {
                assert(in_grid(walked[k - 1]));
                if self.wf() {
                    assert(self.traces(body));
                    assert(body.take(k as int)[k - 1] == body[k - 1]);
                    assert(self.links(body[k - 1], body[k as int]));
                    assert(in_grid(body[k as int]));
                    assert(!walked.contains(body[k as int])) by {
                        if walked.contains(body[k as int]) {
                            let i = choose|i: int| 0 <= i < walked.len() && walked[i] == body[k as int];
                            assert(body.take(k as int)[i] == body[i]);
                        }
                    }
                }
            }
            let direction = match self.board[here.1][here.0] {
                Cell::Snake(Some(d)) => d,
                _ => {
                    return None;
                },
            };
            let next = match neighbour(here, direction) {
                Some(n) => n,
                None => {
                    return None;
                },
            };
            if marks[next.1][next.0] {
                assert(flagged(marks, pos(next)));
                return None;
            }
            assert(!flagged(marks, pos(next)));
            raise(&mut marks, next, Ghost(walked));
            proof {
                let longer = walked.push(pos(next));
                assert forall|i: int, j: int|
                    0 <= i && j == i + 1 && j < longer.len() implies self.links(
                    #[trigger] longer[i],
                    #[trigger] longer[j],
                ) by {
                    if j < walked.len() {
                        assert(self.links(walked[i], walked[j]));
                    }
                }
                assert forall|i: int| 0 <= i < longer.len() implies in_grid(
                    #[trigger] longer[i],
                ) by {
                    if i < walked.len() {
                        assert(in_grid(walked[i]));
                    }
                }
                if self.wf() {
                    assert(longer =~= body.take(k + 1));
                }
                walked = longer;
            }
            here = next;
            k += 1;
        }
        proof {
            if self.wf() {
                assert(self.traces(self.body()));
                assert(self.body().take(k as int) =~= self.body());
            }
        }
        Some((here, marks, Ghost(walked)))
    }

    /// Whether every square off the walked path holds the apple if it is the
    /// apple's square and nothing otherwise.
    fn rest_is_clear(&self, marks: &Marks, Ghost(walked): Ghost<Seq<Pos>>) -> (clear: bool)
        requires
            flags_show(*marks, walked),
        ensures
            clear == forall|p: Pos| in_grid(p) && !walked.contains(p) ==> self.off_snake_ok(p),
    {
        let mut y: usize = 0;
        while y < BOARD_SIZE
            invariant
                y <= BOARD_SIZE,
                flags_show(*marks, walked),
                forall|p: Pos|
                    in_grid(p) && p.1 < y && !walked.contains(p) ==> self.off_snake_ok(p),
            decreases BOARD_SIZE - y,
        {
            let mut x: usize = 0;
            while x < BOARD_SIZE
                invariant
                    y < BOARD_SIZE,
                    x <= BOARD_SIZE,
                    flags_show(*marks, walked),
                    forall|p: Pos|
                        in_grid(p) && (p.1 < y || (p.1 == y && p.0 < x)) && !walked.contains(p)
                            ==> self.off_snake_ok(p),
                decreases BOARD_SIZE - x,
            {
                let ghost p = (x as int, y as int);
                assert(flagged(*marks, p) == marks[y as int][x as int]);
                if !marks[y][x] {
                    let wanted = if x == self.apple.0 && y == self.apple.1 {
                        Cell::Apple
                    } else {
                        Cell::Empty
                    };
                    if self.board[y][x] != wanted {
                        assert(in_grid(p) && !walked.contains(p) && !self.off_snake_ok(p));
                        return false;
                    }
                }
                x += 1;
            }
            y += 1;
        }
        true
    }

    /// Whether the board is well formed.
    pub fn is_well_formed(&self) -> (ok: bool)
        ensures
            ok == self.wf(),
    {
        proof {
            if self.wf() {
                let body = self.body();
                assert(self.traces(body));
                assert(in_grid(body[0]) && in_grid(body[body.len() - 1]));
                lemma_snake_fits(body, pos(self.apple));
            }
        }
        if !on_board(self.snake_head) || !on_board(self.snake_tail) || !on_board(self.apple) {
            return false;
        }
        if self.points > FINAL_SCORE || (self.still_playing && self.points == FINAL_SCORE) {
            return false;
        }
        let length = if self.points == FINAL_SCORE {
            FINAL_SCORE
        } else {
            self.points + 1
        };
        let (end, marks, Ghost(walked)) = match self.walk(length) {
            Some(found) => found,
            None => {
                return false;
            },
        };
        if end.0 != self.snake_head.0 || end.1 != self.snake_head.1 {
            return false;
        }
        let mark = if self.still_playing {
            None
        } else {
            self.facing
        };
        if self.board[end.1][end.0] != Cell::Snake(mark) {
            return false;
        }
        assert(flagged(marks, pos(self.apple)) == marks[self.apple.1 as int][self.apple.0 as int]);
        if marks[self.apple.1][self.apple.0] {
            return false;
        }
        if !self.rest_is_clear(&marks, Ghost(walked)) {
            return false;
        }
        proof {
            assert(self.traces(walked));
        }
        true
    }
}

} // verus!
