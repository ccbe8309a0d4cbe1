//! What holds of every board, every move and every recorded game.

use crate::data::{
    chosen, first_passing, follows, is_episode, is_order, leads_to, lemma_first_passing_is_member,
    Policy, Probe,
};
use crate::model::{in_grid, is_legal, lemma_score_step, reverse, Game, Pos};
use crate::snake::{pos, Cell, Moves, SnakeBoard, BOARD_SIZE, CELL_COUNT, FINAL_SCORE};
use vstd::prelude::*;

verus! {

impl SnakeBoard {
    /// The squares of the board that hold a segment of the snake.
    pub open spec fn snake_cells(self) -> Set<Pos> {
        Set::new(|p: Pos| in_grid(p) && self.cell(p) is Snake)
    }

    /// The squares of the board that hold an apple.
    pub open spec fn apple_cells(self) -> Set<Pos> {
        Set::new(|p: Pos| in_grid(p) && self.cell(p) == Cell::Apple)
    }
}

/// Two well-formed boards that stand for the same game are the same board:
/// what a contract says of the game, it says of every square and field.
pub proof fn lemma_game_determines_board(a: SnakeBoard, b: SnakeBoard)
    requires
        a.wf(),
        b.wf(),
        a@ == b@,
    ensures
        a == b,
{
    let body = a.body();
    assert(a.traces(body));
    assert(b.traces(body));
    assert forall|p: Pos| in_grid(p) implies a.cell(p) == b.cell(p) by {
        if body.contains(p) {
            let i = choose|i: int| 0 <= i < body.len() && body[i] == p;
            if i < body.len() - 1 {
                assert(a.links(body[i], body[i + 1]));
                assert(b.links(body[i], body[i + 1]));
            }
        }
    }
    assert forall|y: int| 0 <= y < BOARD_SIZE implies a.board[y] == b.board[y] by {
        assert forall|x: int| 0 <= x < BOARD_SIZE implies a.board[y][x] == b.board[y][x] by {
            assert(a.cell((x, y)) == b.cell((x, y)));
        }
        assert(a.board[y] =~= b.board[y]);
    }
    assert(a.board =~= b.board);
    assert(pos(a.snake_head) == pos(b.snake_head));
    assert(pos(a.snake_tail) == pos(b.snake_tail));
    assert(pos(a.apple) == pos(b.apple));
}

/// On a well-formed board the squares that hold a segment are those of the
/// snake, and in a running game, as in one that ended before the board was
/// full, there is one more of them than the score.
pub proof fn lemma_snake_cell_count(board: SnakeBoard)
    requires
        board.wf(),
    ensures
        board.snake_cells() == board@.snake.to_set(),
        board.snake_cells().finite(),
        board.snake_cells().len() == board.length(),
        board.still_playing || board.points != FINAL_SCORE ==> board.snake_cells().len()
            == board.points + 1,
{
    let body = board.body();
    assert(board.traces(body));
    board.lemma_body_cells(body);
    assert forall|p: Pos| board.snake_cells().contains(p) implies body.to_set().contains(p) by {
        if !body.contains(p) {
            assert(board.cell(p) == Cell::Apple || board.cell(p) == Cell::Empty);
        }
    }
    assert forall|p: Pos| body.to_set().contains(p) implies board.snake_cells().contains(p) by {
        let i = choose|i: int| 0 <= i < body.len() && body[i] == p;
        assert(in_grid(body[i]));
    }
    assert(board.snake_cells() =~= body.to_set());
    body.unique_seq_to_set();
    vstd::seq_lib::seq_to_set_is_finite(body);
}

/// A well-formed board holds exactly one apple, on the square that `apple`
/// names.
pub proof fn lemma_one_apple(board: SnakeBoard)
    requires
        board.wf(),
    ensures
        board.apple_cells() == set![pos(board.apple)],
        board.apple_cells().finite(),
        board.apple_cells().len() == 1,
{
    let body = board.body();
    assert(board.traces(body));
    board.lemma_body_cells(body);
    assert forall|p: Pos| board.apple_cells().contains(p) <==> p == pos(board.apple) by {
        if in_grid(p) && !body.contains(p) {
            assert(board.cell(p) == (if p == pos(board.apple) {
                Cell::Apple
            } else {
                Cell::Empty
            }));
        }
    }
    assert(board.apple_cells() =~= set![pos(board.apple)]);
}

/// Every state recorded in a game shows exactly one apple and a snake of one
/// segment more than the score.
pub proof fn lemma_episode_state(
    policy: Policy,
    states: Seq<SnakeBoard>,
    actions: Seq<Moves>,
    i: int,
)
    requires
        is_episode(policy, states, actions),
        0 <= i < states.len(),
    ensures
        states[i].apple_cells().len() == 1,
        states[i].snake_cells().len() == states[i].points + 1,
        states[i]@.snake.len() == states[i].points + 1,
{
    assert(states[i].wf() && states[i].still_playing);
    assert(states[i].traces(states[i].body()));
    lemma_one_apple(states[i]);
    lemma_snake_cell_count(states[i]);
}

/// Before the first move every direction is legal; after a move every
/// direction is legal but the one that undoes it.
pub proof fn lemma_legal_moves(facing: Option<Moves>, m: Moves)
    ensures
        facing is None ==> is_legal(facing, m),
        facing matches Some(f) ==> (is_legal(facing, m) <==> m != reverse(f)),
{
}

/// From one recorded state to the next the score stays or goes up by one,
/// and it goes up exactly when the move lands the head on the apple.
pub proof fn lemma_episode_score_step(
    policy: Policy,
    states: Seq<SnakeBoard>,
    actions: Seq<Moves>,
    i: int,
)
    requires
        is_episode(policy, states, actions),
        0 <= i,
        i + 1 < states.len(),
    ensures
        states[i]@.scores(actions[i]) ==> states[i + 1].points == states[i].points + 1,
        !states[i]@.scores(actions[i]) ==> states[i + 1].points == states[i].points,
{
    assert(leads_to(states[i], actions[i], states[i + 1]));
    lemma_score_step(states[i]@, actions[i], states[i + 1]@.apple);
}

/// In a recorded game the score never goes down.
pub proof fn lemma_episode_score_monotone(
    policy: Policy,
    states: Seq<SnakeBoard>,
    actions: Seq<Moves>,
    i: int,
    j: int,
)
    requires
        is_episode(policy, states, actions),
        0 <= i <= j < states.len(),
    ensures
        states[i].points <= states[j].points,
    decreases j - i,
{
    if i < j {
        lemma_episode_score_monotone(policy, states, actions, i, j - 1);
        lemma_episode_score_step(policy, states, actions, j - 1);
    }
}

/// How many of the first `n` moves of a recorded game raise the score.
pub open spec fn scoring_moves(states: Seq<SnakeBoard>, actions: Seq<Moves>, n: int) -> int
    decreases n,
{
    if n <= 0 {
        0
    } else {
        scoring_moves(states, actions, n - 1) + if states[n - 1]@.scores(actions[n - 1]) {
            1int
        } else {
            0int
        }
    }
}

/// The score of a recorded state is the number of scoring moves before it.
pub proof fn lemma_score_counts_moves(
    policy: Policy,
    states: Seq<SnakeBoard>,
    actions: Seq<Moves>,
    n: int,
)
    requires
        is_episode(policy, states, actions),
        0 <= n < states.len(),
    ensures
        states[n].points == scoring_moves(states, actions, n),
    decreases n,
{
    if n > 0 {
        lemma_score_counts_moves(policy, states, actions, n - 1);
        lemma_episode_score_step(policy, states, actions, n - 1);
    } else {
        assert(states[0] == states.first());
    }
}

/// A recorded game has fewer scoring moves than the board has squares; so
/// a game in which every move scores has fewer moves than the board has
/// squares.
pub proof fn lemma_scoring_moves_bounded(
    policy: Policy,
    states: Seq<SnakeBoard>,
    actions: Seq<Moves>,
)
    requires
        is_episode(policy, states, actions),
    ensures
        scoring_moves(states, actions, states.len() as int) <= FINAL_SCORE,
        scoring_moves(states, actions, states.len() as int) == states.len() ==> states.len()
            < CELL_COUNT,
{
    if states.len() > 0 {
        let n = states.len() - 1;
        lemma_score_counts_moves(policy, states, actions, n);
        assert(states[n].wf() && states[n].still_playing);
        assert(states[n].traces(states[n].body()));
    }
}

/// In a game played by always moving up, the head is one row higher in
/// each recorded state than in the one before.
proof fn lemma_up_episode_rows(states: Seq<SnakeBoard>, actions: Seq<Moves>, n: int)
    requires
        is_episode(Policy::FixedUp, states, actions),
        0 <= n < states.len(),
    ensures
        states[n]@.head().1 + n == states[0]@.head().1,
    decreases n,
{
    if n > 0 {
        lemma_up_episode_rows(states, actions, n - 1);
        let before = states[n - 1];
        assert(follows(Policy::FixedUp, before, actions[n - 1]));
        assert(actions[n - 1] == Moves::Up);
        assert(leads_to(before, Moves::Up, states[n]));
        assert(states[n].still_playing);
        assert(before.still_playing);
    }
}

/// A game played by always moving up has at most as many moves as the board
/// has rows.
pub proof fn lemma_up_episode_length(states: Seq<SnakeBoard>, actions: Seq<Moves>)
    requires
        is_episode(Policy::FixedUp, states, actions),
    ensures
        states.len() <= BOARD_SIZE,
{
    if states.len() > 0 {
        let n = states.len() - 1;
        lemma_up_episode_rows(states, actions, n);
        assert(states[0].traces(states[0].body()));
        assert(in_grid(states[0].body()[states[0].body().len() - 1]));
        assert(states[n].traces(states[n].body()));
        assert(in_grid(states[n].body()[states[n].body().len() - 1]));
    }
}

/// Every policy but the one that always moves up picks one of the moves it
/// is given.
pub proof fn lemma_chosen_is_listed(g: Game, policy: Policy, order: Seq<Moves>)
    requires
        order.len() > 0,
        policy != Policy::FixedUp,
    ensures
        order.contains(chosen(g, policy, order)),
{
    assert(order[0] == order.first());
    lemma_first_passing_is_member(g, Probe::Survives, order);
    lemma_first_passing_is_member(g, Probe::Scores, order);
}

/// If one of the moves given keeps the game going, the surviving policy
/// picks a move that does, and the apple-first policy picks one that does or
/// that scores. If one of the moves given scores, the apple-first policy
/// picks a move that scores.
pub proof fn lemma_chosen_passes(g: Game, policy: Policy, order: Seq<Moves>, m: Moves)
    requires
        order.contains(m),
    ensures
        policy == Policy::SurvivalGreedy && g.survives(m) ==> g.survives(chosen(g, policy, order)),
        policy == Policy::AppleThenSurvival && g.survives(m) ==> g.survives(
            chosen(g, policy, order),
        ) || g.scores(chosen(g, policy, order)),
        policy == Policy::AppleThenSurvival && g.scores(m) ==> g.scores(chosen(g, policy, order)),
{
    lemma_first_passing_is_member(g, Probe::Survives, order);
    lemma_first_passing_is_member(g, Probe::Scores, order);
    let i = choose|i: int| 0 <= i < order.len() && order[i] == m;
    if g.survives(m) {
        assert(first_passing(g, Probe::Survives, order) is Some);
    }
    if g.scores(m) {
        assert(first_passing(g, Probe::Scores, order) is Some);
    }
}

/// In a game played by any policy but the one that always moves up, no move
/// turns the snake straight back.
pub proof fn lemma_episode_moves_are_legal(
    policy: Policy,
    states: Seq<SnakeBoard>,
    actions: Seq<Moves>,
    i: int,
)
    requires
        is_episode(policy, states, actions),
        policy != Policy::FixedUp,
        0 <= i < states.len(),
    ensures
        is_legal(states[i].facing, actions[i]),
        states[i].facing matches Some(f) ==> actions[i] != reverse(f),
{
    assert(states[i].wf() && follows(policy, states[i], actions[i]));
    let order = choose|order: Seq<Moves>|
        is_order(order, states[i].facing) && actions[i] == chosen(states[i]@, policy, order);
    assert(order.contains(Moves::Up) || order.contains(Moves::Down)) by {
        assert(is_legal(states[i].facing, Moves::Up) || is_legal(states[i].facing, Moves::Down));
    }
    lemma_chosen_is_listed(states[i]@, policy, order);
}

} // verus!
