//! How one move changes the snake that a board shows.
//!
//! Each lemma takes the board before the move and a board after it, the
//! latter described square by square, and concludes which snake the board
//! after the move traces.

use crate::model::{in_grid, shift, Pos};
use crate::snake::{pos, same_except, Cell, Moves, SnakeBoard, FINAL_SCORE};
use vstd::prelude::*;

verus! {

impl SnakeBoard {
    /// Once the head's square records the move, every segment leads to the
    /// next one and the head to the square it is about to enter; and the
    /// squares that record a direction are exactly the snake's.
    pub proof fn lemma_marked(self, marked: SnakeBoard, body: Seq<Pos>, action: Moves)
        requires
            self.traces(body),
            self.still_playing,
            marked.cell(body.last()) == Cell::Snake(Some(action)),
            same_except(marked.board, self.board, body.last(), body.last(), body.last()),
        ensures
            marked.chained(body.push(shift(body.last(), action))),
            forall|p: Pos|
                in_grid(p) ==> (body.contains(p) <==> #[trigger] marked.cell(p) matches Cell::Snake(
                    Some(_),
                )),
    {
        let grown = body.push(shift(body.last(), action));
        assert forall|i: int, j: int| 0 <= i && j == i + 1 && j < grown.len() implies marked.links(
            #[trigger] grown[i],
            #[trigger] grown[j],
        ) by {
            if j < body.len() {
                assert(self.links(body[i], body[j]));
                assert(body[i] != body.last());
                assert(marked.cell(body[i]) == self.cell(body[i]));
            }
        }
        assert forall|p: Pos| in_grid(p) implies (body.contains(p) <==> #[trigger] marked.cell(
            p,
        ) matches Cell::Snake(Some(_))) by {
            if body.contains(p) {
                let i = choose|i: int| 0 <= i < body.len() && body[i] == p;
                assert(marked.links(grown[i], grown[i + 1]));
            } else {
                assert(marked.cell(p) == self.cell(p));
            }
        }
    }

    /// A move that ends the game leaves the snake where it was.
    pub proof fn lemma_ended(self, after: SnakeBoard, body: Seq<Pos>, action: Moves)
        requires
            self.traces(body),
            self.still_playing,
            after.cell(body.last()) == Cell::Snake(Some(action)),
            same_except(after.board, self.board, body.last(), body.last(), body.last()),
            after.facing == Some(action),
            !after.still_playing,
            after.snake_head == self.snake_head,
            after.snake_tail == self.snake_tail,
            after.apple == self.apple,
            after.points == self.points || (after.points == self.points + 1 && after.points
                == FINAL_SCORE),
        ensures
            after.traces(body),
    {
        assert forall|i: int, j: int| 0 <= i && j == i + 1 && j < body.len() implies after.links(
            #[trigger] body[i],
            #[trigger] body[j],
        ) by {
            assert(self.links(body[i], body[j]));
            assert(body[i] != body.last());
            assert(after.cell(body[i]) == self.cell(body[i]));
        }
        assert forall|p: Pos| in_grid(p) && !body.contains(p) implies #[trigger] after.cell(p) == (
        if p == pos(after.apple) {
            Cell::Apple
        } else {
            Cell::Empty
        }) by {
            assert(p != body.last());
            assert(after.cell(p) == self.cell(p));
        }
    }

    /// A move onto the apple that does not fill the board adds the apple's
    /// square to the snake as its new head.
    pub proof fn lemma_grown(
        self,
        after: SnakeBoard,
        body: Seq<Pos>,
        action: Moves,
        respawn: (usize, usize),
    )
        requires
            self.traces(body),
            self.still_playing,
            shift(body.last(), action) == pos(self.apple),
            self.is_free(respawn),
            self.points + 1 != FINAL_SCORE,
            after.cell(body.last()) == Cell::Snake(Some(action)),
            after.cell(pos(self.apple)) == Cell::Snake(None),
            after.cell(pos(respawn)) == Cell::Apple,
            same_except(after.board, self.board, body.last(), pos(self.apple), pos(respawn)),
            after.facing == Some(action),
            after.still_playing,
            after.points == self.points + 1,
            after.snake_head == self.apple,
            after.snake_tail == self.snake_tail,
            after.apple == respawn,
        ensures
            after.traces(body.push(pos(self.apple))),
    {
        let target = pos(self.apple);
        let grown = body.push(target);
        self.lemma_body_cells(body);
        assert(!body.contains(pos(respawn)));
        assert(self.cell(target) == Cell::Apple);
        assert(pos(respawn) != target);
        assert forall|i: int, j: int| 0 <= i && j == i + 1 && j < grown.len() implies after.links(
            #[trigger] grown[i],
            #[trigger] grown[j],
        ) by {
            if j < body.len() {
                assert(self.links(body[i], body[j]));
                assert(body[i] != body.last());
                assert(body.contains(body[i]));
                assert(after.cell(body[i]) == self.cell(body[i]));
            }
        }
        assert forall|p: Pos| in_grid(p) && !grown.contains(p) implies #[trigger] after.cell(p) == (
        if p == pos(after.apple) {
            Cell::Apple
        } else {
            Cell::Empty
        }) by {
            assert(grown[body.len() as int] == target);
            assert(!body.contains(p)) by {
                if body.contains(p) {
                    let i = choose|i: int| 0 <= i < body.len() && body[i] == p;
                    assert(grown[i] == p);
                }
            }
            assert(p != body.last());
            if p != pos(respawn) {
                assert(after.cell(p) == self.cell(p));
            }
        }
        assert(!grown.contains(pos(respawn)));
        assert(grown.no_duplicates());
        assert forall|i: int| 0 <= i < grown.len() implies in_grid(#[trigger] grown[i]) by {
            if i < body.len() {
                assert(in_grid(body[i]));
            }
        }
    }

    /// A move onto an empty square takes the tail's square from the snake
    /// and adds the entered square as its new head.
    pub proof fn lemma_slid(self, after: SnakeBoard, body: Seq<Pos>, action: Moves)
        requires
            self.traces(body),
            self.still_playing,
            in_grid(shift(body.last(), action)),
            !body.contains(shift(body.last(), action)),
            shift(body.last(), action) != pos(self.apple),
            body.len() > 1 ==> after.cell(body.last()) == Cell::Snake(Some(action)),
            after.cell(body.first()) == Cell::Empty,
            after.cell(shift(body.last(), action)) == Cell::Snake(None),
            same_except(after.board, self.board, body.last(), body.first(), shift(body.last(), action)),
            after.facing == Some(action),
            after.still_playing,
            after.points == self.points,
            pos(after.snake_head) == shift(body.last(), action),
            pos(after.snake_tail) == body.push(shift(body.last(), action))[1],
            after.apple == self.apple,
        ensures
            after.traces(body.drop_first().push(shift(body.last(), action))),
    {
        let target = shift(body.last(), action);
        let slid = body.drop_first().push(target);
        assert(slid.len() == body.len());
        assert forall|i: int| 0 <= i < slid.len() - 1 implies slid[i] == body[i + 1] by {}
        assert(slid[slid.len() - 1] == target);
        assert forall|i: int, j: int| 0 <= i && j == i + 1 && j < slid.len() implies after.links(
            #[trigger] slid[i],
            #[trigger] slid[j],
        ) by {
            assert(slid[i] == body[i + 1]);
            if j < slid.len() - 1 {
                assert(slid[j] == body[j + 1]);
                assert(self.links(body[i + 1], body[j + 1]));
                assert(body[i + 1] != body.last());
                assert(body[i + 1] != body.first());
                assert(body.contains(body[i + 1]));
                assert(after.cell(body[i + 1]) == self.cell(body[i + 1]));
            } else {
                assert(body[i + 1] == body.last());
            }
        }
        assert forall|p: Pos| in_grid(p) && slid.contains(p) implies body.contains(p) || p
            == target by {
            let i = choose|i: int| 0 <= i < slid.len() && slid[i] == p;
            if i < slid.len() - 1 {
                assert(body[i + 1] == p);
            }
        }
        assert forall|p: Pos| in_grid(p) && !slid.contains(p) implies #[trigger] after.cell(p) == (
        if p == pos(after.apple) {
            Cell::Apple
        } else {
            Cell::Empty
        }) by {
            assert(p != target);
            if p != body.first() {
                assert(!body.contains(p)) by {
                    if body.contains(p) {
                        let i = choose|i: int| 0 <= i < body.len() && body[i] == p;
                        assert(slid[i - 1] == p);
                    }
                }
                assert(p != body.last());
                assert(after.cell(p) == self.cell(p));
            } else {
                assert(body.contains(body.first()));
            }
        }
        assert(!slid.contains(pos(self.apple)));
        assert(slid.no_duplicates()) by {
            assert forall|i: int, j: int| 0 <= i < slid.len() && 0 <= j < slid.len() && i
                != j implies slid[i] != slid[j] by {
                if i < slid.len() - 1 {
                    assert(body.contains(body[i + 1]));
                }
                if j < slid.len() - 1 {
                    assert(body.contains(body[j + 1]));
                }
            }
        }
        assert forall|i: int| 0 <= i < slid.len() implies in_grid(#[trigger] slid[i]) by {
            if i < slid.len() - 1 {
                assert(in_grid(body[i + 1]));
            }
        }
    }
}

} // verus!
