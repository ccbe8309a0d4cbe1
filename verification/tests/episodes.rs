use rand::rngs::StdRng;
use rand::SeedableRng;
use snake_engine::data::{
    arranged, contains_move, generate_episode, play_game_random, play_game_smart, play_game_towards,
    play_game_up, play_game_well, play_one_game, run_episode, shuffled, Policy, Probe,
};
use snake_engine::actions::{InvalidAction, ACTION_SIZE};
use snake_engine::snake::{neighbour, Cell, Moves, SnakeBoard, BOARD_SIZE, CELL_COUNT};

const ALL: [Moves; 4] = [Moves::Up, Moves::Down, Moves::Left, Moves::Right];

const POLICIES: [Policy; 5] = [
    Policy::Random,
    Policy::FixedUp,
    Policy::SurvivalGreedy,
    Policy::AppleThenSurvival,
    Policy::GoalDirected,
];

fn snake_cells(game: &SnakeBoard) -> usize {
    game.board.iter().flatten().filter(|c| matches!(c, Cell::Snake(_))).count()
}

fn apple_cells(game: &SnakeBoard) -> usize {
    game.board.iter().flatten().filter(|c| matches!(c, Cell::Apple)).count()
}

/// Whether `action` keeps the game going, found out without the library's probes.
fn keeps_going(game: &SnakeBoard, action: Moves) -> bool {
    match neighbour(game.snake_head, action) {
        None => false,
        Some((x, y)) => {
            if (x, y) == game.snake_head || matches!(game.board[y][x], Cell::Snake(_)) {
                false
            } else {
                !((x, y) == game.apple && game.points + 1 == CELL_COUNT - 1)
            }
        }
    }
}

fn lands_on_apple(game: &SnakeBoard, action: Moves) -> bool {
    neighbour(game.snake_head, action) == Some(game.apple)
}

fn check_episode(states: &[SnakeBoard], actions: &[Moves]) {
    assert_eq!(states.len(), actions.len());
    if states.is_empty() {
        return;
    }
    assert_eq!(states[0].points, 0);
    assert_eq!(states[0].facing, None);
    assert_eq!(states[0].snake_head, states[0].snake_tail);
    for (i, state) in states.iter().enumerate() {
        assert!(state.still_playing);
        assert_eq!(apple_cells(state), 1);
        assert_eq!(snake_cells(state), state.points + 1);
        assert_eq!(state.board[state.apple.1][state.apple.0], Cell::Apple);
        assert_eq!(state.board[state.snake_head.1][state.snake_head.0], Cell::Snake(None));
        if i + 1 < states.len() {
            let next = &states[i + 1];
            assert_eq!(next.facing, Some(actions[i]));
            assert_eq!(Some(next.snake_head), neighbour(state.snake_head, actions[i]));
            assert!(next.points >= state.points);
            if lands_on_apple(state, actions[i]) {
                assert_eq!(next.points, state.points + 1);
            } else {
                assert_eq!(next.points, state.points);
            }
        }
    }
}

#[test]
fn action_indices_round_trip() {
    assert_eq!(ACTION_SIZE, 4);
    for m in ALL {
        let index = SnakeBoard::action_to_index(&m);
        assert!(index < ACTION_SIZE);
        assert_eq!(index, m.to_usize());
        assert_eq!(SnakeBoard::index_to_action(index), Ok(m));
    }
    assert_eq!(SnakeBoard::index_to_action(0), Ok(Moves::Up));
    assert_eq!(SnakeBoard::index_to_action(1), Ok(Moves::Down));
    assert_eq!(SnakeBoard::index_to_action(2), Ok(Moves::Left));
    assert_eq!(SnakeBoard::index_to_action(3), Ok(Moves::Right));
}

#[test]
fn an_index_out_of_range_is_an_error() {
    assert_eq!(SnakeBoard::index_to_action(4), Err(InvalidAction { index: 4 }));
    assert_eq!(SnakeBoard::index_to_action(17), Err(InvalidAction { index: 17 }));
    assert_eq!(
        SnakeBoard::index_to_action(usize::MAX),
        Err(InvalidAction { index: usize::MAX })
    );
}

#[test]
fn policies_by_draw() {
    assert_eq!(Policy::from_draw(0), Policy::Random);
    assert_eq!(Policy::from_draw(1), Policy::SurvivalGreedy);
    assert_eq!(Policy::from_draw(2), Policy::GoalDirected);
    assert_eq!(Policy::from_draw(3), Policy::AppleThenSurvival);
}

#[test]
fn contains_move_finds_what_is_there() {
    let moves = vec![Moves::Down, Moves::Left];
    assert!(contains_move(&moves, Moves::Down));
    assert!(contains_move(&moves, Moves::Left));
    assert!(!contains_move(&moves, Moves::Up));
    assert!(!contains_move(&moves, Moves::Right));
    assert!(!contains_move(&Vec::new(), Moves::Up));
}

#[test]
fn shuffling_keeps_the_moves() {
    let mut orders = Vec::new();
    for seed in 0..60 {
        let mut rng = StdRng::seed_from_u64(seed);
        let order = shuffled(ALL.to_vec(), &mut rng);
        assert_eq!(order.len(), 4);
        for m in ALL {
            assert_eq!(order.iter().filter(|x| **x == m).count(), 1);
        }
        if !orders.contains(&order) {
            orders.push(order);
        }
    }
    assert!(orders.len() > 4);
    let mut rng = StdRng::seed_from_u64(0);
    assert_eq!(shuffled(Vec::new(), &mut rng), Vec::new());
    assert_eq!(shuffled(vec![Moves::Left], &mut rng), vec![Moves::Left]);
}

#[test]
fn goal_directed_closes_the_column_gap_first() {
    let mut rng = StdRng::seed_from_u64(2);
    let game = SnakeBoard::from_draws(3, 3, 1, 5);
    assert_eq!(game.snake_head, (3, 3));
    assert_eq!(game.apple, (1, 5));
    assert_eq!(game.toward_apple(), Moves::Left);
    let order = game.get_actions();
    assert_eq!(game.choose_action(Policy::GoalDirected, &order, &mut rng), Moves::Left);
}

#[test]
fn goal_directed_falls_back_when_its_move_is_not_legal() {
    let mut rng = StdRng::seed_from_u64(2);
    let mut game = SnakeBoard::from_draws(2, 3, 1, 5);
    game.make_move(Moves::Right, &mut rng);
    assert_eq!(game.snake_head, (3, 3));
    assert_eq!(game.apple, (1, 5));
    assert_eq!(game.facing, Some(Moves::Right));
    assert_eq!(game.toward_apple(), Moves::Left);
    let legal = game.get_actions();
    assert!(!legal.contains(&Moves::Left));
    for seed in 0..20 {
        let mut rng = StdRng::seed_from_u64(seed);
        let order = shuffled(game.get_actions(), &mut rng);
        let action = game.choose_action(Policy::GoalDirected, &order, &mut rng);
        assert_eq!(action, order[0]);
        assert!(legal.contains(&action));
        assert_ne!(action, Moves::Left);
    }
}

#[test]
fn goal_directed_in_every_direction() {
    assert_eq!(SnakeBoard::from_draws(3, 3, 5, 0).toward_apple(), Moves::Right);
    assert_eq!(SnakeBoard::from_draws(3, 3, 0, 3).toward_apple(), Moves::Left);
    // The apple's column can only match the head's after a move.
    let mut game = SnakeBoard::from_draws(3, 3, 4, 1);
    game.make_move_with(Moves::Right, (0, 0));
    assert_eq!(game.snake_head, (4, 3));
    assert_eq!(game.toward_apple(), Moves::Up);
    let mut game = SnakeBoard::from_draws(3, 3, 4, 6);
    game.make_move_with(Moves::Right, (0, 0));
    assert_eq!(game.toward_apple(), Moves::Down);
}

#[test]
fn random_policy_takes_the_first_move_given() {
    let mut rng = StdRng::seed_from_u64(4);
    let game = SnakeBoard::from_draws(0, 0, 5, 5);
    for m in ALL {
        let order = vec![m, Moves::Down];
        assert_eq!(game.choose_action(Policy::Random, &order, &mut rng), m);
    }
}

#[test]
fn fixed_up_is_always_up() {
    let mut rng = StdRng::seed_from_u64(4);
    let game = SnakeBoard::from_draws(0, 0, 5, 5);
    assert_eq!(game.choose_action(Policy::FixedUp, &vec![Moves::Left], &mut rng), Moves::Up);
    assert_eq!(game.choose_action(Policy::FixedUp, &Vec::new(), &mut rng), Moves::Up);
}

#[test]
fn probes_tell_what_a_move_leads_to() {
    let mut rng = StdRng::seed_from_u64(4);
    let game = SnakeBoard::from_draws(0, 0, 1, 0);
    assert!(!game.probe(Probe::Survives, Moves::Up, &mut rng));
    assert!(!game.probe(Probe::Survives, Moves::Left, &mut rng));
    assert!(game.probe(Probe::Survives, Moves::Down, &mut rng));
    assert!(game.probe(Probe::Survives, Moves::Right, &mut rng));
    assert!(game.probe(Probe::Scores, Moves::Right, &mut rng));
    assert!(!game.probe(Probe::Scores, Moves::Down, &mut rng));
    assert!(!game.probe(Probe::Scores, Moves::Up, &mut rng));
    // Probing leaves the game as it was.
    assert_eq!(game.snake_head, (0, 0));
    assert_eq!(game.points, 0);
    assert!(game.still_playing);
}

#[test]
fn find_first_takes_the_first_that_passes() {
    let mut rng = StdRng::seed_from_u64(4);
    let game = SnakeBoard::from_draws(0, 0, 1, 0);
    let order = vec![Moves::Up, Moves::Left, Moves::Down, Moves::Right];
    assert_eq!(game.find_first(Probe::Survives, &order, &mut rng), Some(Moves::Down));
    assert_eq!(game.find_first(Probe::Scores, &order, &mut rng), Some(Moves::Right));
    let fatal = vec![Moves::Up, Moves::Left];
    assert_eq!(game.find_first(Probe::Survives, &fatal, &mut rng), None);
    assert_eq!(game.find_first(Probe::Scores, &Vec::new(), &mut rng), None);
}

#[test]
fn survival_greedy_avoids_the_wall() {
    let mut rng = StdRng::seed_from_u64(4);
    let game = SnakeBoard::from_draws(0, 0, 5, 5);
    let order = vec![Moves::Up, Moves::Left, Moves::Right, Moves::Down];
    assert_eq!(game.choose_action(Policy::SurvivalGreedy, &order, &mut rng), Moves::Right);
    let fatal = vec![Moves::Left, Moves::Up];
    assert_eq!(game.choose_action(Policy::SurvivalGreedy, &fatal, &mut rng), Moves::Left);
}

#[test]
fn apple_then_survival_prefers_the_apple() {
    let mut rng = StdRng::seed_from_u64(4);
    let game = SnakeBoard::from_draws(0, 0, 1, 0);
    let order = vec![Moves::Up, Moves::Down, Moves::Right, Moves::Left];
    assert_eq!(game.choose_action(Policy::AppleThenSurvival, &order, &mut rng), Moves::Right);
    let no_apple = vec![Moves::Up, Moves::Down, Moves::Left];
    assert_eq!(game.choose_action(Policy::AppleThenSurvival, &no_apple, &mut rng), Moves::Down);
    let fatal = vec![Moves::Up, Moves::Left];
    assert_eq!(game.choose_action(Policy::AppleThenSurvival, &fatal, &mut rng), Moves::Up);
}

#[test]
fn episodes_obey_the_rules() {
    for policy in POLICIES {
        for seed in 0..30 {
            let mut rng = StdRng::seed_from_u64(seed);
            let (states, actions) = generate_episode(policy, &mut rng, 300);
            assert!(!states.is_empty());
            assert!(states.len() <= 300);
            check_episode(&states, &actions);
        }
    }
}

#[test]
fn episodes_pick_legal_moves() {
    for policy in [
        Policy::Random,
        Policy::SurvivalGreedy,
        Policy::AppleThenSurvival,
        Policy::GoalDirected,
    ] {
        for seed in 0..30 {
            let mut rng = StdRng::seed_from_u64(seed);
            let (states, actions) = generate_episode(policy, &mut rng, 200);
            for (state, action) in states.iter().zip(actions.iter()) {
                assert!(state.get_actions().contains(action));
                if let Some(facing) = state.facing {
                    assert_ne!(*action, facing.opposite());
                }
            }
        }
    }
}

#[test]
fn episodes_end_with_a_fatal_move_or_at_the_limit() {
    for policy in POLICIES {
        for seed in 0..30 {
            let mut rng = StdRng::seed_from_u64(seed);
            let (states, actions) = generate_episode(policy, &mut rng, 120);
            if states.len() < 120 {
                let last = states.last().unwrap();
                assert!(!keeps_going(last, *actions.last().unwrap()));
            }
            for i in 0..states.len() - 1 {
                assert!(keeps_going(&states[i], actions[i]));
            }
        }
    }
}

#[test]
fn no_moves_allowed_gives_an_empty_episode() {
    let mut rng = StdRng::seed_from_u64(8);
    let (states, actions) = generate_episode(Policy::Random, &mut rng, 0);
    assert!(states.is_empty());
    assert!(actions.is_empty());
    let (states, actions, last) = run_episode(Policy::Random, &mut rng, 0);
    assert!(states.is_empty());
    assert!(actions.is_empty());
    assert!(last.still_playing);
    assert_eq!(last.points, 0);
}

#[test]
fn episodes_repeat_for_the_same_seed() {
    for policy in POLICIES {
        let mut one = StdRng::seed_from_u64(21);
        let mut two = StdRng::seed_from_u64(21);
        let (states_a, actions_a) = generate_episode(policy, &mut one, 100);
        let (states_b, actions_b) = generate_episode(policy, &mut two, 100);
        assert_eq!(actions_a, actions_b);
        assert_eq!(states_a.len(), states_b.len());
        for (a, b) in states_a.iter().zip(states_b.iter()) {
            assert_eq!(a.board, b.board);
            assert_eq!(a.apple, b.apple);
        }
    }
}

#[test]
fn going_up_takes_at_most_one_move_per_row() {
    for seed in 0..40 {
        let mut rng = StdRng::seed_from_u64(seed);
        let (states, actions) = play_game_up(&mut rng, 1000);
        assert!(states.len() <= BOARD_SIZE);
        assert_eq!(states.len(), states[0].snake_head.1 + 1);
        assert!(actions.iter().all(|a| *a == Moves::Up));
        check_episode(&states, &actions);
    }
}

#[test]
fn survival_greedy_survives_while_it_can() {
    for seed in 0..30 {
        let mut rng = StdRng::seed_from_u64(seed);
        let (states, actions) = play_game_smart(&mut rng, 200);
        check_episode(&states, &actions);
        for (state, action) in states.iter().zip(actions.iter()) {
            let could = state.get_actions().iter().any(|m| keeps_going(state, *m));
            assert_eq!(keeps_going(state, *action), could);
        }
    }
}

#[test]
fn apple_then_survival_eats_when_it_can() {
    let mut eaten = 0;
    for seed in 0..30 {
        let mut rng = StdRng::seed_from_u64(seed);
        let (states, actions) = play_game_well(&mut rng, 200);
        check_episode(&states, &actions);
        for (state, action) in states.iter().zip(actions.iter()) {
            let legal = state.get_actions();
            let can_eat = legal.iter().any(|m| lands_on_apple(state, *m));
            if can_eat {
                assert!(lands_on_apple(state, *action));
                eaten += 1;
            } else {
                let could = legal.iter().any(|m| keeps_going(state, *m));
                assert_eq!(keeps_going(state, *action), could);
            }
        }
    }
    assert!(eaten > 0);
}

#[test]
fn goal_directed_games_head_for_the_apple() {
    let mut scored = 0;
    for seed in 0..30 {
        let mut rng = StdRng::seed_from_u64(seed);
        let (states, actions) = play_game_towards(&mut rng, 200);
        check_episode(&states, &actions);
        for (state, action) in states.iter().zip(actions.iter()) {
            let wanted = state.toward_apple();
            if state.get_actions().contains(&wanted) {
                assert_eq!(*action, wanted);
            }
        }
        scored += states.last().unwrap().points;
    }
    assert!(scored > 0);
}

#[test]
fn random_games_vary() {
    let mut first_moves = Vec::new();
    for seed in 0..40 {
        let mut rng = StdRng::seed_from_u64(seed);
        let (states, actions) = play_game_random(&mut rng, 100);
        check_episode(&states, &actions);
        if !first_moves.contains(&actions[0]) {
            first_moves.push(actions[0]);
        }
    }
    assert_eq!(first_moves.len(), 4);
}

#[test]
fn one_game_with_its_last_state() {
    for seed in 0..30 {
        let mut rng = StdRng::seed_from_u64(seed);
        let states = play_one_game(&mut rng, 50);
        assert!(!states.is_empty());
        assert!(states.len() <= 51);
        let (last, recorded) = states.split_last().unwrap();
        for state in recorded {
            assert!(state.still_playing);
        }
        if states.len() < 51 {
            assert!(!last.still_playing);
        }
        if let Some(before) = recorded.last() {
            assert!(last.points >= before.points);
            assert!(last.facing.is_some());
        }
    }
}

#[test]
fn one_game_by_a_drawn_policy() {
    for seed in 0..30 {
        let mut rng = StdRng::seed_from_u64(seed);
        let (states, actions) = SnakeBoard::play_one_game(&mut rng, 150);
        assert!(!states.is_empty());
        check_episode(&states, &actions);
        for (state, action) in states.iter().zip(actions.iter()) {
            assert!(state.get_actions().contains(action));
        }
    }
}

#[test]
fn arranging_follows_the_draws() {
    let moves = vec![Moves::Down, Moves::Up, Moves::Left, Moves::Right];
    assert_eq!(
        arranged(moves.clone(), &vec![0, 0, 0]),
        vec![Moves::Up, Moves::Left, Moves::Right, Moves::Down]
    );
    assert_eq!(
        arranged(moves.clone(), &vec![1, 1, 0]),
        vec![Moves::Left, Moves::Down, Moves::Right, Moves::Up]
    );
    assert_eq!(arranged(moves.clone(), &vec![3, 2, 1]), moves);
    assert_eq!(
        arranged(vec![Moves::Up, Moves::Left, Moves::Right], &vec![0, 1]),
        vec![Moves::Right, Moves::Left, Moves::Up]
    );
    assert_eq!(arranged(vec![Moves::Left], &Vec::new()), vec![Moves::Left]);
    assert_eq!(arranged(Vec::new(), &Vec::new()), Vec::new());
}

#[test]
fn every_order_of_three_moves_can_be_drawn() {
    let moves = vec![Moves::Up, Moves::Left, Moves::Right];
    let mut orders = Vec::new();
    for first in 0..3 {
        for second in 0..2 {
            let order = arranged(moves.clone(), &vec![first, second]);
            assert!(!orders.contains(&order));
            orders.push(order);
        }
    }
    assert_eq!(orders.len(), 6);
}
