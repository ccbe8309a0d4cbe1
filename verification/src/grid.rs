//! Counting the squares of the board.

use vstd::prelude::*;
use vstd::relations::injective_on;
use vstd::set_lib::{lemma_int_range, lemma_len_subset, lemma_map_size, set_int_range};
use crate::model::{in_grid, Pos};
use crate::snake::CELL_COUNT;

verus! {

/// All the squares of the board.
pub open spec fn grid() -> Set<Pos> {
    Set::new(|p: Pos| in_grid(p))
}

/// The board has as many squares as `CELL_COUNT` says.
pub proof fn lemma_grid_size()
    ensures
        grid().finite(),
        grid().len() == CELL_COUNT,
{
    let numbers = set_int_range(0, 64);
    let square = |i: int| (i % 8, i / 8);
    lemma_int_range(0, 64);
    assert(injective_on(square, numbers)) by {
        assert forall|i: int, j: int|
            numbers.contains(i) && numbers.contains(j) && #[trigger] square(i) == #[trigger] square(
                j,
            ) implies i == j by {
            assert(i == 8 * (i / 8) + i % 8);
            assert(j == 8 * (j / 8) + j % 8);
        }
    }
    assert(numbers.map(square) =~= grid()) by {
        assert forall|p: Pos| grid().contains(p) implies numbers.map(square).contains(p) by {
            let i = p.0 + 8 * p.1;
            assert(numbers.contains(i));
            assert(square(i) == p);
        }
    }
    lemma_map_size(numbers, grid(), square);
}

/// Squares that cover less than the whole board leave one out.
pub proof fn lemma_square_left_over(taken: Set<Pos>)
    requires
        taken.finite(),
        taken.len() < CELL_COUNT,
    ensures
        exists|p: Pos| in_grid(p) && !taken.contains(p),
{
    if forall|p: Pos| in_grid(p) ==> taken.contains(p) {
        assert(grid().subset_of(taken));
        lemma_len_subset(grid(), taken);
        lemma_grid_size();
    }
}

/// A snake and an apple that together count fewer items than the board has
/// squares leave a square free.
pub proof fn lemma_free_square(snake: Seq<Pos>, apple: Pos)
    requires
        snake.len() + 1 < CELL_COUNT,
    ensures
        exists|p: Pos| in_grid(p) && !snake.contains(p) && p != apple,
{
    let taken = snake.to_set().insert(apple);
    snake.lemma_cardinality_of_set();
    lemma_square_left_over(taken);
    let p = choose|p: Pos| in_grid(p) && !taken.contains(p);
    assert(!snake.to_set().contains(p));
    assert(in_grid(p) && !snake.contains(p) && p != apple);
}

/// A snake on the board that leaves the apple's square out has fewer
/// segments than the board has squares.
pub proof fn lemma_snake_fits(snake: Seq<Pos>, apple: Pos)
    requires
        snake.no_duplicates(),
        forall|i: int| 0 <= i < snake.len() ==> in_grid(#[trigger] snake[i]),
        in_grid(apple),
        !snake.contains(apple),
    ensures
        snake.len() + 1 <= CELL_COUNT,
{
    let taken = snake.to_set().insert(apple);
    snake.unique_seq_to_set();
    vstd::seq_lib::seq_to_set_is_finite(snake);
    assert(!snake.to_set().contains(apple));
    assert(taken.len() == snake.len() + 1);
    assert(taken.subset_of(grid())) by {
        assert forall|p: Pos| taken.contains(p) implies grid().contains(p) by {
            if p != apple {
                let i = choose|i: int| 0 <= i < snake.len() && snake[i] == p;
                assert(in_grid(snake[i]));
            }
        }
    }
    lemma_grid_size();
    lemma_len_subset(taken, grid());
}

} // verus!
