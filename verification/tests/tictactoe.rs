use mcts::game::{play_out, Outcome, Rules};
use mcts::policy::{Ucb, ROOT_SCALE};
use mcts::search::Mcts;
use mcts::tictactoe::TicTacToe;

/// The policy of the library with its tables of roots filled for up to a
/// thousand visits.
fn ucb() -> &'static Ucb {
    let log_roots = (0..=1000u32)
        .map(|visits| ((visits as f64).ln_1p().sqrt() * ROOT_SCALE as f64).round() as u32)
        .collect();
    let inverse_roots = (0..=1000u32)
        .map(|visits| match visits {
            0 => 0,
            _ => (ROOT_SCALE as f64 / (visits as f64).sqrt()).round() as u32,
        })
        .collect();
    Box::leak(Box::new(Ucb::new(log_roots, inverse_roots)))
}

/// Searches for `player` on a board on which that player has the marks
/// `first` and `second` of a row and the other player two marks of the
/// column through the third place of that row, so that taking that place
/// is the only move that does not lose; checks that the move found wins.
fn finds_the_winning_move(
    first: (usize, usize),
    second: (usize, usize),
    others: [(usize, usize); 2],
) {
    for player in [1i8, -1i8] {
        let game = TicTacToe::init();
        let state = game.create_state(vec![
            (first.0, first.1, player),
            (second.0, second.1, player),
            (others[0].0, others[0].1, -player),
            (others[1].0, others[1].1, -player),
        ]);
        let root = game.as_seen_by(&state, player);
        let mut tree = Mcts::new(&game, ucb(), root, 1000, 1_414_214).ok().unwrap();
        let best_action = *tree.search().unwrap();
        let state = game.apply_move(&state, player, best_action);
        assert!(game.check_win(&state, player));
    }
}

#[test]
fn the_first_place_of_the_top_row_wins() {
    finds_the_winning_move((0, 1), (0, 2), [(1, 0), (2, 0)]);
}

#[test]
fn the_second_place_of_the_top_row_wins() {
    finds_the_winning_move((0, 0), (0, 2), [(1, 1), (2, 1)]);
}

#[test]
fn the_third_place_of_the_top_row_wins() {
    finds_the_winning_move((0, 0), (0, 1), [(1, 2), (2, 2)]);
}

#[test]
fn the_first_place_of_the_middle_row_wins() {
    finds_the_winning_move((1, 1), (1, 2), [(0, 0), (2, 0)]);
}

#[test]
fn the_second_place_of_the_middle_row_wins() {
    finds_the_winning_move((1, 0), (1, 2), [(0, 1), (2, 1)]);
}

#[test]
fn the_third_place_of_the_middle_row_wins() {
    finds_the_winning_move((1, 0), (1, 1), [(0, 2), (2, 2)]);
}

#[test]
fn the_first_place_of_the_bottom_row_wins() {
    finds_the_winning_move((2, 1), (2, 2), [(0, 0), (1, 0)]);
}

#[test]
fn the_second_place_of_the_bottom_row_wins() {
    finds_the_winning_move((2, 0), (2, 2), [(0, 1), (1, 1)]);
}

#[test]
fn the_third_place_of_the_bottom_row_wins() {
    finds_the_winning_move((2, 0), (2, 1), [(0, 2), (1, 2)]);
}

#[test]
fn the_game_has_three_rows_and_three_columns() {
    let game = TicTacToe::init();
    assert_eq!(game.row_count, 3);
    assert_eq!(game.column_count, 3);
}

#[test]
fn the_first_board_is_empty() {
    let game = TicTacToe::init();
    let state = game.get_initial_state();
    assert_eq!(state.rows(), vec![vec![0, 0, 0], vec![0, 0, 0], vec![0, 0, 0]]);
}

#[test]
fn a_grid_has_the_shape_that_the_game_names() {
    let game = TicTacToe { row_count: 2, column_count: 4 };
    let state = game.get_initial_state();
    assert_eq!(state.rows(), vec![vec![0, 0, 0, 0], vec![0, 0, 0, 0]]);
    assert_eq!(game.get_legal_moves(&state).len(), 8);
}

#[test]
fn a_move_marks_one_place_of_a_copy() {
    let game = TicTacToe::init();
    let state = game.get_initial_state();
    let next = game.apply_move(&state, -1, (1, 2));
    assert_eq!(next.rows(), vec![vec![0, 0, 0], vec![0, 0, -1], vec![0, 0, 0]]);
    assert_eq!(state.rows(), vec![vec![0, 0, 0], vec![0, 0, 0], vec![0, 0, 0]]);
    let then = game.get_next_state(&next, &(2, 0), 1);
    assert_eq!(then.rows(), vec![vec![0, 0, 0], vec![0, 0, -1], vec![1, 0, 0]]);
}

#[test]
fn a_state_is_made_mark_by_mark() {
    let game = TicTacToe::init();
    let state = game.create_state(vec![(0, 0, 1), (2, 1, -1), (0, 0, -1)]);
    assert_eq!(state.rows(), vec![vec![-1, 0, 0], vec![0, 0, 0], vec![0, -1, 0]]);
    assert_eq!(game.create_state(vec![]).rows(), game.get_initial_state().rows());
}

#[test]
fn three_in_a_row_win() {
    let game = TicTacToe::init();
    for row in 0..3 {
        let state = game.create_state(vec![(row, 0, 1), (row, 1, 1), (row, 2, 1)]);
        assert!(game.check_win(&state, 1));
        assert!(!game.check_win(&state, -1));
    }
}

#[test]
fn three_in_a_column_win() {
    let game = TicTacToe::init();
    for column in 0..3 {
        let state = game.create_state(vec![(0, column, -1), (1, column, -1), (2, column, -1)]);
        assert!(game.check_win(&state, -1));
        assert!(!game.check_win(&state, 1));
    }
}

#[test]
fn three_on_a_diagonal_win() {
    let game = TicTacToe::init();
    let falling = game.create_state(vec![(0, 0, 1), (1, 1, 1), (2, 2, 1)]);
    assert!(game.check_win(&falling, 1));
    let rising = game.create_state(vec![(0, 2, -1), (1, 1, -1), (2, 0, -1)]);
    assert!(game.check_win(&rising, -1));
    assert!(!game.check_win(&rising, 1));
}

#[test]
fn two_marks_and_a_gap_do_not_win() {
    let game = TicTacToe::init();
    let state = game.create_state(vec![(0, 0, 1), (0, 1, 1), (0, 2, -1), (1, 1, 1)]);
    assert!(!game.check_win(&state, 1));
    assert!(!game.check_win(&state, -1));
    assert!(!game.check_win(&game.get_initial_state(), 1));
}

#[test]
fn the_empty_places_come_row_by_row() {
    let game = TicTacToe::init();
    let state = game.create_state(vec![(0, 1, 1), (1, 0, -1), (1, 1, 1), (2, 2, -1)]);
    assert_eq!(game.get_legal_moves(&state), vec![(0, 0), (0, 2), (1, 2), (2, 0), (2, 1)]);
    assert_eq!(game.get_legal_moves(&game.get_initial_state()).len(), 9);
}

#[test]
fn a_board_stands_as_won_drawn_or_open() {
    let game = TicTacToe::init();
    let won = game.create_state(vec![(0, 0, 1), (1, 1, 1), (2, 2, 1), (0, 1, -1), (0, 2, -1)]);
    assert_eq!(game.get_value_and_terminated(&won, 1), Outcome::Decisive);
    assert_eq!(game.get_value_and_terminated(&won, -1), Outcome::Ongoing);
    let full = game.create_state(vec![
        (0, 0, 1),
        (0, 1, -1),
        (0, 2, 1),
        (1, 0, 1),
        (1, 1, -1),
        (1, 2, -1),
        (2, 0, -1),
        (2, 1, 1),
        (2, 2, 1),
    ]);
    assert_eq!(game.get_value_and_terminated(&full, 1), Outcome::Drawn);
    assert_eq!(game.get_value_and_terminated(&full, -1), Outcome::Drawn);
    assert_eq!(game.get_value_and_terminated(&game.get_initial_state(), 1), Outcome::Ongoing);
}

#[test]
fn a_turned_board_has_the_marks_exchanged() {
    let game = TicTacToe::init();
    let state = game.create_state(vec![(0, 0, 1), (1, 2, -1)]);
    let turned = game.change_perspective(&state);
    assert_eq!(turned.rows(), vec![vec![-1, 0, 0], vec![0, 0, 1], vec![0, 0, 0]]);
    assert_eq!(game.change_perspective(&turned).rows(), state.rows());
    assert_eq!(game.as_seen_by(&state, 1).rows(), state.rows());
    assert_eq!(game.as_seen_by(&state, -1).rows(), turned.rows());
}

#[test]
fn a_turned_board_stands_for_the_other_player_as_the_board_for_the_first() {
    let game = TicTacToe::init();
    let state = game.create_state(vec![(0, 0, 1), (1, 1, 1), (2, 2, 1), (0, 1, -1), (0, 2, -1)]);
    let turned = game.change_perspective(&state);
    for player in [1i8, -1i8] {
        assert_eq!(
            game.get_value_and_terminated(&turned, -player),
            game.get_value_and_terminated(&state, player)
        );
    }
    assert_eq!(game.get_legal_moves(&turned), game.get_legal_moves(&state));
}

#[test]
fn the_rules_hand_the_board_to_the_other_side() {
    let game = TicTacToe::init();
    let start = game.get_initial_state();
    let next = game.apply(&start, &(1, 1));
    assert_eq!(next.rows(), vec![vec![0, 0, 0], vec![0, -1, 0], vec![0, 0, 0]]);
    assert_eq!(game.legal_actions(&next).len(), 8);
    assert_eq!(game.evaluate(&next), Outcome::Ongoing);
}

#[test]
fn the_rules_give_no_move_once_the_game_is_decided() {
    let game = TicTacToe::init();
    let lost = game.create_state(vec![(0, 0, -1), (1, 1, -1), (2, 2, -1), (0, 1, 1)]);
    assert_eq!(game.evaluate(&lost), Outcome::Decisive);
    assert!(game.legal_actions(&lost).is_empty());
    assert_eq!(game.get_legal_moves(&lost).len(), 5);
    let won = game.change_perspective(&lost);
    assert_eq!(game.evaluate(&won), Outcome::Ongoing);
}

#[test]
fn a_copy_of_a_grid_has_its_cells_and_a_life_of_its_own() {
    let game = TicTacToe::init();
    let state = game.create_state(vec![(0, 0, 1), (1, 2, -1)]);
    let copy = state.clone();
    assert_eq!(copy, state);
    let changed = game.apply_move(&copy, 1, (2, 2));
    assert_ne!(changed, state);
    assert_eq!(copy, state);
    assert_eq!(changed.rows()[2][2], 1);
}

#[test]
fn a_line_of_first_places_is_won_by_the_player_who_begins() {
    let game = TicTacToe::init();
    let start = game.get_initial_state();
    assert_eq!(play_out(&game, &start, &vec![0; 9], 0), Some(2));
    assert_eq!(play_out(&game, &start, &vec![0; 7], 0), Some(2));
    let second = game.apply(&start, &(0, 0));
    assert_eq!(play_out(&game, &second, &vec![0; 9], 0), Some(-2));
}

#[test]
fn a_line_that_is_cut_short_is_worth_nothing_yet() {
    let game = TicTacToe::init();
    let start = game.get_initial_state();
    assert_eq!(play_out(&game, &start, &vec![0; 6], 0), None);
    assert_eq!(play_out(&game, &start, &vec![], 0), None);
    assert_eq!(play_out(&game, &start, &vec![0; 9], 3), None);
}

#[test]
fn a_line_that_fills_the_board_without_a_winner_is_a_draw() {
    let game = TicTacToe::init();
    let start = game.get_initial_state();
    // The places taken are (0,0) (0,1) (0,2) (1,1) (1,0) (1,2) (2,1) (2,0) (2,2).
    assert_eq!(play_out(&game, &start, &vec![0, 0, 0, 1, 0, 0, 1, 0, 0], 0), Some(1));
    // A pick is counted round the list of moves: 9 names the first of nine.
    assert_eq!(play_out(&game, &start, &vec![9, 8, 7, 7, 5, 4, 4, 2, 1], 0), Some(1));
}

#[test]
fn a_finished_game_is_worth_what_the_rules_say() {
    let game = TicTacToe::init();
    let lost = game.create_state(vec![(0, 0, -1), (1, 1, -1), (2, 2, -1), (0, 1, 1)]);
    assert_eq!(play_out(&game, &lost, &vec![], 0), Some(-2));
    assert_eq!(play_out(&game, &lost, &vec![3, 1], 0), Some(-2));
}

#[test]
fn a_board_is_a_grid_of_three_by_three_marks() {
    let game = TicTacToe::init();
    assert!(game.is_state(&game.get_initial_state()));
    assert!(game.is_state(&game.create_state(vec![(0, 0, 1), (2, 2, -1)])));
    assert!(!game.is_state(&game.create_state(vec![(0, 0, 2)])));
    assert!(!game.is_state(&game.create_state(vec![(1, 2, -2)])));
    let wide = TicTacToe { row_count: 3, column_count: 4 };
    assert!(!game.is_state(&wide.get_initial_state()));
    let tall = TicTacToe { row_count: 4, column_count: 3 };
    assert!(!game.is_state(&tall.get_initial_state()));
}
