//! Scripted policies, and whole games played by them.

use crate::model::{is_legal, lemma_step_outcome, Game};
use crate::rng::random_below;
use crate::snake::{Moves, SnakeBoard};
use rand::rngs::StdRng;
use vstd::prelude::*;

verus! {

/// A question asked of a move before it is made.
#[derive(Debug, Clone, Copy, PartialEq, Eq, Structural)]
pub enum Probe {
    /// Does the game go on after the move?
    Survives,
    /// Does the move raise the score?
    Scores,
}

/// A rule for picking the next move.
#[derive(Debug, Clone, Copy, PartialEq, Eq, Structural)]
pub enum Policy {
    /// The first move in the order given, whatever it leads to.
    Random,
    /// Always up.
    FixedUp,
    /// The first move that keeps the game going.
    SurvivalGreedy,
    /// The first move that eats the apple; failing that, the first that
    /// keeps the game going.
    AppleThenSurvival,
    /// The move that closes the gap to the apple, if it is among the moves
    /// given.
    GoalDirected,
}

/// The answer to `probe` for move `m` in game `g`.
pub open spec fn passes(g: Game, probe: Probe, m: Moves) -> bool {
    match probe {
        Probe::Survives => g.survives(m),
        Probe::Scores => g.scores(m),
    }
}

/// The first move of `order` that passes `probe`, if any does.
pub open spec fn first_passing(g: Game, probe: Probe, order: Seq<Moves>) -> Option<Moves>
    decreases order.len(),
{
    if order.len() == 0 {
        None
    } else if passes(g, probe, order.first()) {
        Some(order.first())
    } else {
        first_passing(g, probe, order.drop_first())
    }
}

/// `preferred` if there is one, else the first move of `order`.
pub open spec fn or_first(preferred: Option<Moves>, order: Seq<Moves>) -> Moves {
    match preferred {
        Some(m) => m,
        None => order.first(),
    }
}

/// The move that `policy` picks in game `g` when the moves to consider come
/// in the order `order`.
pub open spec fn chosen(g: Game, policy: Policy, order: Seq<Moves>) -> Moves {
    match policy {
        Policy::Random => order.first(),
        Policy::FixedUp => Moves::Up,
        Policy::SurvivalGreedy => or_first(first_passing(g, Probe::Survives, order), order),
        Policy::AppleThenSurvival => match first_passing(g, Probe::Scores, order) {
            Some(m) => m,
            None => or_first(first_passing(g, Probe::Survives, order), order),
        },
        Policy::GoalDirected => if order.contains(g.toward_apple()) {
            g.toward_apple()
        } else {
            order.first()
        },
    }
}

/// If no move before position `i` passes the probe, the search goes on from there.
proof fn lemma_first_passing_skip(g: Game, probe: Probe, order: Seq<Moves>, i: int)
    requires
        0 <= i <= order.len(),
        forall|j: int| 0 <= j < i ==> !passes(g, probe, #[trigger] order[j]),
    ensures
        first_passing(g, probe, order) == first_passing(g, probe, order.skip(i)),
    decreases i,
{
    if i == 0 {
        assert(order.skip(0) =~= order);
    } else {
        lemma_first_passing_skip(g, probe, order, i - 1);
        let rest = order.skip(i - 1);
        assert(rest.first() == order[i - 1]);
        assert(rest.drop_first() =~= order.skip(i));
    }
}

/// The first passing move, if there is one, is one of the moves considered
/// and passes; if there is none, no move considered passes.
pub proof fn lemma_first_passing_is_member(g: Game, probe: Probe, order: Seq<Moves>)
    ensures
        first_passing(g, probe, order) matches Some(m) ==> order.contains(m) && passes(g, probe, m),
        first_passing(g, probe, order) is None ==> forall|j: int|
            0 <= j < order.len() ==> !passes(g, probe, #[trigger] order[j]),
    decreases order.len(),
{
    if order.len() > 0 {
        if passes(g, probe, order.first()) {
            assert(order[0] == order.first());
        } else {
            let rest = order.drop_first();
            lemma_first_passing_is_member(g, probe, rest);
            if first_passing(g, probe, rest) is Some {
                let m = first_passing(g, probe, rest)->0;
                let j = choose|j: int| 0 <= j < rest.len() && rest[j] == m;
                assert(order[j + 1] == m);
            } else {
                assert forall|j: int| 0 <= j < order.len() implies !passes(
                    g,
                    probe,
                    #[trigger] order[j],
                ) by {
                    if j > 0 {
                        assert(rest[j - 1] == order[j]);
                    }
                }
            }
        }
    }
}

/// Whether `moves` holds `m`.
pub fn contains_move(moves: &Vec<Moves>, m: Moves) -> (found: bool)
    ensures
        found == moves@.contains(m),
{
    let mut i: usize = 0;
    while i < moves.len()
        invariant
            i <= moves.len(),
            forall|j: int| 0 <= j < i ==> moves[j] != m,
        decreases moves.len() - i,
    {
        if moves[i] == m {
            return true;
        }
        i += 1;
    }
    false
}

/// The moves of `moves` as `arranged` by numbers drawn from `rng`, the first below the number of moves.
pub fn shuffled(moves: Vec<Moves>, rng: &mut StdRng) -> (order: Vec<Moves>)
    ensures
        exists|draws: Seq<usize>| #[trigger]
            are_draws(draws, moves@.len()) && order@ == arrangement(moves@, draws),
        order@.to_multiset() == moves@.to_multiset(),
{
    let count = moves.len();
    let mut draws: Vec<usize> = Vec::new();
    let mut t: usize = 0;
    while t + 1 < count
        invariant
            draws.len() == t,
            t + 1 <= count || t == 0,
            forall|k: int| 0 <= k < t ==> (#[trigger] draws[k]) < count - k,
        decreases count - t,
    {
        let drawn = random_below(rng, count - t);
        draws.push(drawn);
        t += 1;
    }
    assert(are_draws(draws@, moves@.len()));
    arranged(moves, &draws)
}

/// `s` with the items at places `i` and `j` changed over.
pub open spec fn swapped(s: Seq<Moves>, i: int, j: int) -> Seq<Moves> {
    s.update(i, s[j]).update(j, s[i])
}

/// `draws` can steer the arranging of `count` moves: there is one draw for
/// each place but the first, and each draw names a place that is not yet
/// settled when its turn comes.
pub open spec fn are_draws(draws: Seq<usize>, count: nat) -> bool {
    &&& draws.len() + 1 == count || (count == 0 && draws.len() == 0)
    &&& forall|k: int| 0 <= k < draws.len() ==> (#[trigger] draws[k]) < count - k
}

/// `moves` after the first `steps` draws have been followed. Places are
/// settled from the last to the second: at each step the last place not yet
/// settled changes over with the place drawn, and is settled.
pub open spec fn arrangement_after(moves: Seq<Moves>, draws: Seq<usize>, steps: int) -> Seq<Moves>
    decreases steps,
{
    if steps <= 0 {
        moves
    } else {
        swapped(
            arrangement_after(moves, draws, steps - 1),
            moves.len() - steps,
            draws[steps - 1] as int,
        )
    }
}

/// `moves` after all of `draws` have been followed.
pub open spec fn arrangement(moves: Seq<Moves>, draws: Seq<usize>) -> Seq<Moves> {
    arrangement_after(moves, draws, draws.len() as int)
}

/// Changing two items over keeps what a sequence holds, and how often.
pub proof fn lemma_swapped_is_permutation(s: Seq<Moves>, i: int, j: int)
    requires
        0 <= i < s.len(),
        0 <= j < s.len(),
    ensures
        swapped(s, i, j).len() == s.len(),
        swapped(s, i, j).to_multiset() == s.to_multiset(),
{
    broadcast use vstd::seq_lib::to_multiset_contains;

    let half = s.update(i, s[j]);
    vstd::seq_lib::to_multiset_update(s, i, s[j]);
    vstd::seq_lib::to_multiset_update(half, j, s[i]);
    assert(s.contains(s[i]));
    assert(s.to_multiset().count(s[i]) > 0);
    assert(swapped(s, i, j).to_multiset() =~= s.to_multiset());
}

/// Arranging keeps the moves, each as often as it was there.
pub proof fn lemma_arrangement_is_permutation(moves: Seq<Moves>, draws: Seq<usize>, steps: int)
    requires
        are_draws(draws, moves.len()),
        0 <= steps <= draws.len(),
    ensures
        arrangement_after(moves, draws, steps).len() == moves.len(),
        arrangement_after(moves, draws, steps).to_multiset() == moves.to_multiset(),
    decreases steps,
{
    if steps > 0 {
        lemma_arrangement_is_permutation(moves, draws, steps - 1);
        assert(draws[steps - 1] < moves.len() - (steps - 1));
        lemma_swapped_is_permutation(
            arrangement_after(moves, draws, steps - 1),
            moves.len() - steps,
            draws[steps - 1] as int,
        );
    }
}

/// The moves of `moves` in the order that `draws` give them: for each draw
/// in turn, the last place not yet settled changes over with the place
/// drawn.
pub fn arranged(moves: Vec<Moves>, draws: &Vec<usize>) -> (order: Vec<Moves>)
    requires
        are_draws(draws@, moves@.len()),
    ensures
        order@ == arrangement(moves@, draws@),
        order@.to_multiset() == moves@.to_multiset(),
{
    let ghost given = moves@;
    let count = moves.len();
    let mut order = moves;
    let mut t: usize = 0;
    while t < draws.len()
        invariant
            t <= draws.len(),
            count == given.len(),
            order.len() == count,
            are_draws(draws@, given.len()),
            order@ == arrangement_after(given, draws@, t as int),
        decreases draws.len() - t,
    {
        let i = count - 1 - t;
        let j = draws[t];
        let ghost before = order@;
        let a = order[i];
        let b = order[j];
        order[i] = b;
        order[j] = a;
        t += 1;
        assert(order@ =~= swapped(before, i as int, j as int));
    }
    proof {
        lemma_arrangement_is_permutation(given, draws@, draws.len() as int);
    }
    order
}

impl SnakeBoard {
    /// The direction that closes the gap to the apple, along the row first.
    pub fn toward_apple(&self) -> (m: Moves)
        requires
            self.wf(),
        ensures
            m == self@.toward_apple(),
    {
        proof {
            assert(self.traces(self.body()));
        }
        let (head_x, head_y) = self.snake_head;
        let (apple_x, apple_y) = self.apple;
        if apple_x < head_x {
            Moves::Left
        } else if apple_x > head_x {
            Moves::Right
        } else if apple_y < head_y {
            Moves::Up
        } else {
            Moves::Down
        }
    }

    /// Answers `probe` for move `m` by making the move on a copy of the game.
    pub fn probe(&self, probe: Probe, m: Moves, rng: &mut StdRng) -> (answer: bool)
        requires
            self.wf(),
        ensures
            answer == passes(self@, probe, m),
    {
        let mut scratch = *self;
        scratch.make_move(m, rng);
        proof {
            lemma_step_outcome(self@, m, scratch@.apple);
        }
        match probe {
            Probe::Survives => scratch.still_playing,
            Probe::Scores => scratch.points > self.points,
        }
    }

    /// The first move of `order` that passes `probe`, each tried on a copy of
    /// the game.
    pub fn find_first(&self, probe: Probe, order: &Vec<Moves>, rng: &mut StdRng) -> (found: Option<
        Moves,
    >)
        requires
            self.wf(),
        ensures
            found == first_passing(self@, probe, order@),
    {
        let mut i: usize = 0;
        while i < order.len()
            invariant
                self.wf(),
                i <= order.len(),
                forall|j: int| 0 <= j < i ==> !passes(self@, probe, #[trigger] order@[j]),
            decreases order.len() - i,
        {
            if self.probe(probe, order[i], rng) {
                proof {
                    lemma_first_passing_skip(self@, probe, order@, i as int);
                    assert(order@.skip(i as int).first() == order@[i as int]);
                }
                return Some(order[i]);
            }
            i += 1;
        }
        proof {
            lemma_first_passing_skip(self@, probe, order@, order.len() as int);
        }
        None
    }

    /// The move that `policy` picks when the moves to consider come in the
    /// order `order`.
    pub fn choose_action(&self, policy: Policy, order: &Vec<Moves>, rng: &mut StdRng) -> (action:
        Moves)
        requires
            self.wf(),
            policy != Policy::FixedUp ==> order.len() > 0,
        ensures
            action == chosen(self@, policy, order@),
    {
        match policy {
            Policy::Random => order[0],
            Policy::FixedUp => Moves::Up,
            Policy::SurvivalGreedy => match self.find_first(Probe::Survives, order, rng) {
                Some(m) => m,
                None => order[0],
            },
            Policy::AppleThenSurvival => match self.find_first(Probe::Scores, order, rng) {
                Some(m) => m,
                None => match self.find_first(Probe::Survives, order, rng) {
                    Some(m) => m,
                    None => order[0],
                },
            },
            Policy::GoalDirected => {
                let candidate = self.toward_apple();
                if contains_move(order, candidate) {
                    candidate
                } else {
                    order[0]
                }
            },
        }
    }
}

/// `order` lists the moves that are legal after facing `facing`, each once.
pub open spec fn is_order(order: Seq<Moves>, facing: Option<Moves>) -> bool {
    order.no_duplicates() && forall|m: Moves| order.contains(m) <==> is_legal(facing, m)
}

/// `action` is what `policy` picks in `state` for some order of the legal moves.
pub open spec fn follows(policy: Policy, state: SnakeBoard, action: Moves) -> bool {
    exists|order: Seq<Moves>|
        is_order(order, state.facing) && action == chosen(state@, policy, order)
}

/// `next` is what `action` makes of `state`, wherever the apple went.
pub open spec fn leads_to(state: SnakeBoard, action: Moves, next: SnakeBoard) -> bool {
    next@ == state@.step(action, next@.apple)
}

/// A game as it stands before the first move.
pub open spec fn is_opening(state: SnakeBoard) -> bool {
    &&& state.wf()
    &&& state.still_playing
    &&& state.points == 0
    &&& state.facing is None
    &&& state.snake_head == state.snake_tail
    &&& state.apple.0 != state.snake_head.0
}

/// `states` and `actions` record a game played by `policy` from its opening:
/// each state is running and well formed, each action is the policy's pick
/// in the state of the same index, and each state but the first is what the
/// action before it made of the state before it.
pub open spec fn is_episode(policy: Policy, states: Seq<SnakeBoard>, actions: Seq<Moves>) -> bool {
    &&& states.len() == actions.len()
    &&& states.len() > 0 ==> is_opening(states.first())
    &&& forall|i: int|
        0 <= i < states.len() ==> (#[trigger] states[i]).wf() && states[i].still_playing && follows(
            policy,
            states[i],
            actions[i],
        )
    &&& forall|i: int, j: int|
        0 <= i && j == i + 1 && j < states.len() ==> leads_to(
            #[trigger] states[i],
            actions[i],
            #[trigger] states[j],
        )
}

/// An order that has the same moves as the legal ones, as often, lists them.
proof fn lemma_shuffle_is_order(legal: Seq<Moves>, order: Seq<Moves>, facing: Option<Moves>)
    requires
        is_order(legal, facing),
        order.to_multiset() == legal.to_multiset(),
    ensures
        is_order(order, facing),
{
    broadcast use vstd::seq_lib::to_multiset_contains;

    legal.lemma_multiset_has_no_duplicates();
    order.lemma_multiset_has_no_duplicates_conv();
    assert forall|m: Moves| order.contains(m) <==> is_legal(facing, m) by {
        assert(order.contains(m) <==> order.to_multiset().count(m) > 0);
        assert(legal.contains(m) <==> legal.to_multiset().count(m) > 0);
    }
}

/// Plays a game by `policy` from a random opening until it ends or
/// `max_steps` moves are made. Returns the state before each move, the moves,
/// and the state after the last move.
pub fn run_episode(policy: Policy, rng: &mut StdRng, max_steps: usize) -> (out: (
    Vec<SnakeBoard>,
    Vec<Moves>,
    SnakeBoard,
))
    ensures
        is_episode(policy, out.0@, out.1@),
        out.0.len() <= max_steps,
        out.2.wf(),
        out.0.len() == 0 ==> is_opening(out.2),
        out.0.len() > 0 ==> leads_to(out.0@.last(), out.1@.last(), out.2),
        out.2.still_playing ==> out.0.len() == max_steps,
{
    let mut states: Vec<SnakeBoard> = Vec::new();
    let mut actions: Vec<Moves> = Vec::new();
    let mut state = SnakeBoard::new_random(rng);
    while state.still_playing && states.len() < max_steps
        invariant
            state.wf(),
            states.len() <= max_steps,
            is_episode(policy, states@, actions@),
            states.len() == 0 ==> is_opening(state),
            states.len() > 0 ==> leads_to(states@.last(), actions@.last(), state),
        decreases max_steps - states.len(),
    {
        let legal = state.get_actions();
        let ghost listed = legal@;
        let order = shuffled(legal, rng);
        proof {
            lemma_shuffle_is_order(listed, order@, state.facing);
            assert(is_legal(state.facing, Moves::Up) || is_legal(state.facing, Moves::Down));
            assert(order@.contains(Moves::Up) || order@.contains(Moves::Down));
        }
        let action = state.choose_action(policy, &order, rng);
        let ghost recorded = states@;
        let ghost taken = actions@;
        let ghost current = state;
        states.push(state);
        actions.push(action);
        state.make_move(action, rng);
        proof {
            let now = states@;
            let acts = actions@;
            assert(follows(policy, current, action));
            assert forall|i: int| 0 <= i < now.len() implies (#[trigger] now[i]).wf()
                && now[i].still_playing && follows(policy, now[i], acts[i]) by {
                if i < recorded.len() {
                    assert(now[i] == recorded[i]);
                    assert(acts[i] == taken[i]);
                }
            }
            assert forall|i: int, j: int| 0 <= i && j == i + 1 && j < now.len() implies leads_to(
                #[trigger] now[i],
                acts[i],
                #[trigger] now[j],
            ) by {
                assert(now[i] == recorded[i]);
                assert(acts[i] == taken[i]);
                if j < recorded.len() {
                    assert(now[j] == recorded[j]);
                    assert(leads_to(recorded[i], taken[i], recorded[j]));
                } else {
                    assert(recorded[i] == recorded.last());
                }
            }
            if recorded.len() > 0 {
                assert(now.first() == recorded.first());
            }
        }
    }
    (states, actions, state)
}

/// Plays a game by `policy` from a random opening until it ends or
/// `max_steps` moves are made, and returns the state before each move and the
/// moves. The state after the last move is not among them.
pub fn generate_episode(policy: Policy, rng: &mut StdRng, max_steps: usize) -> (out: (
    Vec<SnakeBoard>,
    Vec<Moves>,
))
    ensures
        is_episode(policy, out.0@, out.1@),
        out.0.len() <= max_steps,
        max_steps > 0 ==> out.0.len() > 0,
        out.0.len() < max_steps ==> !out.0@.last()@.survives(out.1@.last()),
{
    let (states, actions, last) = run_episode(policy, rng, max_steps);
    proof {
        if states.len() > 0 {
            lemma_step_outcome(states@.last()@, actions@.last(), last@.apple);
        }
    }
    (states, actions)
}

/// A game in which every move is the first of the legal moves in a random order.
pub fn play_game_random(rng: &mut StdRng, max_steps: usize) -> (out: (Vec<SnakeBoard>, Vec<Moves>))
    ensures
        is_episode(Policy::Random, out.0@, out.1@),
        out.0.len() <= max_steps,
        max_steps > 0 ==> out.0.len() > 0,
        out.0.len() < max_steps ==> !out.0@.last()@.survives(out.1@.last()),
{
    generate_episode(Policy::Random, rng, max_steps)
}

/// A game in which every move is up.
pub fn play_game_up(rng: &mut StdRng, max_steps: usize) -> (out: (Vec<SnakeBoard>, Vec<Moves>))
    ensures
        is_episode(Policy::FixedUp, out.0@, out.1@),
        out.0.len() <= max_steps,
        max_steps > 0 ==> out.0.len() > 0,
        out.0.len() < max_steps ==> !out.0@.last()@.survives(out.1@.last()),
{
    generate_episode(Policy::FixedUp, rng, max_steps)
}

/// A game in which every move is the first legal move, in a random order,
/// that keeps the game going.
pub fn play_game_smart(rng: &mut StdRng, max_steps: usize) -> (out: (Vec<SnakeBoard>, Vec<Moves>))
    ensures
        is_episode(Policy::SurvivalGreedy, out.0@, out.1@),
        out.0.len() <= max_steps,
        max_steps > 0 ==> out.0.len() > 0,
        out.0.len() < max_steps ==> !out.0@.last()@.survives(out.1@.last()),
{
    generate_episode(Policy::SurvivalGreedy, rng, max_steps)
}

/// A game in which every move eats the apple if a legal move can, and else
/// keeps the game going if a legal move can.
pub fn play_game_well(rng: &mut StdRng, max_steps: usize) -> (out: (Vec<SnakeBoard>, Vec<Moves>))
    ensures
        is_episode(Policy::AppleThenSurvival, out.0@, out.1@),
        out.0.len() <= max_steps,
        max_steps > 0 ==> out.0.len() > 0,
        out.0.len() < max_steps ==> !out.0@.last()@.survives(out.1@.last()),
{
    generate_episode(Policy::AppleThenSurvival, rng, max_steps)
}

/// A game in which every move heads for the apple if that move is legal.
pub fn play_game_towards(rng: &mut StdRng, max_steps: usize) -> (out: (
    Vec<SnakeBoard>,
    Vec<Moves>,
))
    ensures
        is_episode(Policy::GoalDirected, out.0@, out.1@),
        out.0.len() <= max_steps,
        max_steps > 0 ==> out.0.len() > 0,
        out.0.len() < max_steps ==> !out.0@.last()@.survives(out.1@.last()),
{
    generate_episode(Policy::GoalDirected, rng, max_steps)
}

/// A game played like `play_game_random`, returned as the states alone,
/// with the state after the last move at the end.
pub fn play_one_game(rng: &mut StdRng, max_steps: usize) -> (states: Vec<SnakeBoard>)
    ensures
        states.len() >= 1,
        states.len() <= max_steps + 1,
        exists|actions: Seq<Moves>|
            {
                &&& is_episode(Policy::Random, states@.drop_last(), actions)
                &&& states.len() > 1 ==> leads_to(
                    states@[states.len() - 2],
                    actions.last(),
                    states@.last(),
                )
            },
        states.len() == 1 ==> is_opening(states@.last()),
        states@.last().wf(),
        states@.last().still_playing ==> states.len() == max_steps + 1,
{
    let (mut states, actions, last) = run_episode(Policy::Random, rng, max_steps);
    let ghost recorded = states@;
    states.push(last);
    proof {
        assert(states@.drop_last() =~= recorded);
        if recorded.len() > 0 {
            assert(states@[states.len() - 2] == recorded.last());
        }
    }
    states
}

/// How many policies `SnakeBoard::play_one_game` picks from.
pub const POLICY_COUNT: usize = 4;

/// The policy that `SnakeBoard::play_one_game` plays for a number drawn.
pub open spec fn policy_of_draw(draw: int) -> Policy {
    if draw == 0 {
        Policy::Random
    } else if draw == 1 {
        Policy::SurvivalGreedy
    } else if draw == 2 {
        Policy::GoalDirected
    } else {
        Policy::AppleThenSurvival
    }
}

impl Policy {
    /// The policy for a number drawn below `POLICY_COUNT`.
    pub fn from_draw(draw: usize) -> (policy: Policy)
        requires
            draw < POLICY_COUNT,
        ensures
            policy == policy_of_draw(draw as int),
    {
        if draw == 0 {
            Policy::Random
        } else if draw == 1 {
            Policy::SurvivalGreedy
        } else if draw == 2 {
            Policy::GoalDirected
        } else {
            Policy::AppleThenSurvival
        }
    }
}

impl SnakeBoard {
    /// Plays one game by a policy drawn from `rng`: the random one, the one
    /// that survives, the one that heads for the apple, or the one that eats
    /// and else survives. Returns the state before each move and the moves.
    pub fn play_one_game(rng: &mut StdRng, max_steps: usize) -> (out: (
        Vec<SnakeBoard>,
        Vec<Moves>,
    ))
        ensures
            exists|draw: int|
                0 <= draw < POLICY_COUNT && is_episode(policy_of_draw(draw), out.0@, out.1@),
            out.0.len() <= max_steps,
            max_steps > 0 ==> out.0.len() > 0,
            out.0.len() < max_steps ==> !out.0@.last()@.survives(out.1@.last()),
    {
        let draw = random_below(rng, POLICY_COUNT);
        let out = generate_episode(Policy::from_draw(draw), rng, max_steps);
        assert(is_episode(policy_of_draw(draw as int), out.0@, out.1@));
        out
    }
}

} // verus!
