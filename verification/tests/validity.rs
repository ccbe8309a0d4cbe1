use rand::rngs::StdRng;
use rand::SeedableRng;
use snake_engine::data::{generate_episode, run_episode, Policy};
use snake_engine::snake::{Cell, Moves, SnakeBoard, BOARD_SIZE, FINAL_SCORE};

fn blank() -> [[Cell; BOARD_SIZE]; BOARD_SIZE] {
    [[Cell::Empty; BOARD_SIZE]; BOARD_SIZE]
}

/// Tail (1,1), head (2,1), apple (3,1), written out by hand.
fn hand_made() -> SnakeBoard {
    let mut board = blank();
    board[1][1] = Cell::Snake(Some(Moves::Right));
    board[1][2] = Cell::Snake(None);
    board[1][3] = Cell::Apple;
    SnakeBoard {
        board,
        points: 1,
        facing: Some(Moves::Right),
        snake_head: (2, 1),
        snake_tail: (1, 1),
        apple: (3, 1),
        still_playing: true,
    }
}

#[test]
fn openings_are_well_formed() {
    for x in 0..BOARD_SIZE {
        for y in 0..BOARD_SIZE {
            assert!(SnakeBoard::from_draws(x, y, y, x).is_well_formed());
        }
    }
    for seed in 0..30 {
        let mut rng = StdRng::seed_from_u64(seed);
        assert!(SnakeBoard::new_random(&mut rng).is_well_formed());
    }
}

#[test]
fn a_board_written_out_by_hand_is_well_formed() {
    let game = hand_made();
    assert!(game.is_well_formed());
    let mut built = SnakeBoard::from_draws(1, 1, 2, 1);
    built.make_move_with(Moves::Right, (3, 1));
    assert_eq!(built.board, game.board);
    assert_eq!(built.points, game.points);
    assert_eq!(built.facing, game.facing);
    assert_eq!(built.snake_head, game.snake_head);
    assert_eq!(built.snake_tail, game.snake_tail);
    assert_eq!(built.apple, game.apple);
    assert_eq!(built.still_playing, game.still_playing);
}

#[test]
fn the_score_must_match_the_length() {
    let mut game = hand_made();
    game.points = 0;
    assert!(!game.is_well_formed());
    game.points = 2;
    assert!(!game.is_well_formed());
    game.points = usize::MAX;
    assert!(!game.is_well_formed());
    game.points = FINAL_SCORE;
    assert!(!game.is_well_formed());
}

#[test]
fn head_tail_and_apple_must_be_where_the_board_shows_them() {
    let mut game = hand_made();
    game.snake_head = (1, 1);
    assert!(!game.is_well_formed());
    let mut game = hand_made();
    game.snake_tail = (2, 1);
    assert!(!game.is_well_formed());
    let mut game = hand_made();
    game.apple = (4, 4);
    assert!(!game.is_well_formed());
    let mut game = hand_made();
    game.apple = (2, 1);
    assert!(!game.is_well_formed());
    let mut game = hand_made();
    game.snake_head = (8, 1);
    assert!(!game.is_well_formed());
    let mut game = hand_made();
    game.snake_tail = (1, 8);
    assert!(!game.is_well_formed());
    let mut game = hand_made();
    game.apple = (9, 9);
    assert!(!game.is_well_formed());
}

#[test]
fn stray_squares_are_not_allowed() {
    let mut game = hand_made();
    game.board[6][6] = Cell::Apple;
    assert!(!game.is_well_formed());
    let mut game = hand_made();
    game.board[6][6] = Cell::Snake(None);
    assert!(!game.is_well_formed());
    let mut game = hand_made();
    game.board[6][6] = Cell::Snake(Some(Moves::Up));
    assert!(!game.is_well_formed());
    let mut game = hand_made();
    game.board[1][3] = Cell::Empty;
    assert!(!game.is_well_formed());
}

#[test]
fn recorded_directions_must_lead_to_the_head() {
    let mut game = hand_made();
    game.board[1][1] = Cell::Snake(Some(Moves::Left));
    assert!(!game.is_well_formed());
    let mut game = hand_made();
    game.board[1][1] = Cell::Snake(Some(Moves::Down));
    assert!(!game.is_well_formed());
    let mut game = hand_made();
    game.board[1][1] = Cell::Snake(None);
    assert!(!game.is_well_formed());
    let mut game = hand_made();
    game.board[1][2] = Cell::Snake(Some(Moves::Right));
    assert!(!game.is_well_formed());
}

#[test]
fn a_snake_biting_its_tail_is_not_well_formed() {
    // Directions that run in a circle and never reach a head.
    let mut board = blank();
    board[0][0] = Cell::Snake(Some(Moves::Right));
    board[0][1] = Cell::Snake(Some(Moves::Down));
    board[1][1] = Cell::Snake(Some(Moves::Left));
    board[1][0] = Cell::Snake(Some(Moves::Up));
    board[5][5] = Cell::Apple;
    let game = SnakeBoard {
        board,
        points: 4,
        facing: Some(Moves::Up),
        snake_head: (0, 0),
        snake_tail: (0, 0),
        apple: (5, 5),
        still_playing: true,
    };
    assert!(!game.is_well_formed());
}

#[test]
fn a_finished_game_records_the_fatal_move_on_the_head() {
    let mut game = hand_made();
    game.still_playing = false;
    assert!(!game.is_well_formed());
    game.board[1][2] = Cell::Snake(Some(Moves::Right));
    assert!(game.is_well_formed());
    game.facing = Some(Moves::Up);
    assert!(!game.is_well_formed());
}

#[test]
fn moves_keep_the_board_well_formed() {
    let all = [Moves::Up, Moves::Down, Moves::Left, Moves::Right];
    for seed in 0..40 {
        let mut rng = StdRng::seed_from_u64(seed);
        let mut game = SnakeBoard::new_random(&mut rng);
        let mut step = 0;
        while game.still_playing && step < 200 {
            let action = all[(seed as usize + 3 * step) % 4];
            game.make_move(action, &mut rng);
            assert!(game.is_well_formed());
            step += 1;
        }
    }
}

#[test]
fn recorded_states_are_well_formed() {
    for policy in [
        Policy::Random,
        Policy::FixedUp,
        Policy::SurvivalGreedy,
        Policy::AppleThenSurvival,
        Policy::GoalDirected,
    ] {
        for seed in 0..20 {
            let mut rng = StdRng::seed_from_u64(seed);
            let (states, _) = generate_episode(policy, &mut rng, 200);
            for state in states {
                assert!(state.is_well_formed());
            }
            let (_, _, last) = run_episode(policy, &mut rng, 200);
            assert!(last.is_well_formed());
        }
    }
}

#[test]
fn long_games_grow_long_snakes() {
    let mut best = 0;
    for seed in 0..20 {
        let mut rng = StdRng::seed_from_u64(seed);
        let (_, _, last) = run_episode(Policy::AppleThenSurvival, &mut rng, 5000);
        assert!(last.is_well_formed());
        if last.points > best {
            best = last.points;
        }
    }
    assert!(best >= 3);
}
