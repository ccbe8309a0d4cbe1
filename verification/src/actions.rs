//! Actions as indices, for callers that number them.

use crate::model::move_index;
use crate::snake::{Moves, SnakeBoard};
use vstd::prelude::*;

verus! {

/// How many actions there are.
pub const ACTION_SIZE: usize = 4;

/// An index that names no action.
#[derive(Debug, Clone, Copy, PartialEq, Eq, Structural)]
pub struct InvalidAction {
    /// The index that was given.
    pub index: usize,
}

impl SnakeBoard {
    /// The index of an action, below `ACTION_SIZE`.
    pub fn action_to_index(action: &Moves) -> (index: usize)
        ensures
            index == move_index(*action),
            index < ACTION_SIZE,
    {
        action.to_usize()
    }

    /// The action with the given index, or the index back if it names none.
    pub fn index_to_action(index: usize) -> (action: Result<Moves, InvalidAction>)
        ensures
            index < ACTION_SIZE ==> action is Ok && move_index(action->Ok_0) == index,
            index >= ACTION_SIZE ==> action == Err::<Moves, InvalidAction>(
                InvalidAction { index },
            ),
    {
        match index {
            0 => Ok(Moves::Up),
            1 => Ok(Moves::Down),
            2 => Ok(Moves::Left),
            3 => Ok(Moves::Right),
            _ => Err(InvalidAction { index }),
        }
    }
}

} // verus!
