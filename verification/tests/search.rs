use mcts::game::Rules;
use mcts::grid::Grid;
use mcts::policy::{TreePolicy, Ucb, ROOT_SCALE};
use mcts::search::{ConfigError, Mcts};
use mcts::tictactoe::TicTacToe;

/// The policy of the library with its tables of roots filled for up to a
/// thousand visits.
fn ucb() -> &'static Ucb {
    let log_roots = (0..=1000u32)
        .map(|visits| ((visits as f64).ln_1p().sqrt() * ROOT_SCALE as f64).round() as u32)
        .collect();
    let inverse_roots = (0..=1000u32)
        .map(|visits| match visits {
            0 => 0,
            _ => (ROOT_SCALE as f64 / (visits as f64).sqrt()).round() as u32,
        })
        .collect();
    Box::leak(Box::new(Ucb::new(log_roots, inverse_roots)))
}

/// A board on which the side to move, whose marks are 1, has one place
/// left and draws by taking it.
fn last_place_draws(game: &TicTacToe) -> Grid {
    game.create_state(vec![
        (0, 0, 1),
        (0, 1, -1),
        (0, 2, 1),
        (1, 0, 1),
        (1, 1, -1),
        (1, 2, -1),
        (2, 0, -1),
        (2, 1, 1),
    ])
}

/// A board on which the side to move has one place left and wins by
/// taking it.
fn last_place_wins(game: &TicTacToe) -> Grid {
    game.create_state(vec![
        (0, 0, 1),
        (0, 1, -1),
        (0, 2, -1),
        (1, 0, -1),
        (1, 1, 1),
        (1, 2, 1),
        (2, 0, 1),
        (2, 1, -1),
    ])
}

/// A board on which the side to move must take the corner at the bottom
/// right, and draws by it; the other place loses.
fn block_or_lose(game: &TicTacToe) -> Grid {
    game.create_state(vec![
        (0, 0, -1),
        (0, 1, 1),
        (0, 2, 1),
        (1, 0, 1),
        (1, 1, -1),
        (1, 2, -1),
        (2, 1, 1),
    ])
}

#[test]
fn a_zero_budget_is_refused() {
    let game = TicTacToe::init();
    let root = game.get_initial_state();
    let made = Mcts::new(&game, ucb(), root, 0, 1_414_214);
    assert!(matches!(made, Err(ConfigError::ZeroBudget)));
}

#[test]
fn a_zero_budget_is_named_before_a_zero_constant() {
    let game = TicTacToe::init();
    let root = game.get_initial_state();
    let made = Mcts::new(&game, ucb(), root, 0, 0);
    assert!(matches!(made, Err(ConfigError::ZeroBudget)));
}

#[test]
fn a_zero_exploration_constant_is_refused() {
    let game = TicTacToe::init();
    let root = game.get_initial_state();
    let made = Mcts::new(&game, ucb(), root, 10, 0);
    assert!(matches!(made, Err(ConfigError::ZeroExploration)));
}

#[test]
fn a_new_search_holds_the_root_alone() {
    let game = TicTacToe::init();
    let root = game.get_initial_state();
    let search = Mcts::new(&game, ucb(), root, 10, 1_414_214).ok().unwrap();
    assert_eq!(search.node_count(), 1);
    assert_eq!(search.playouts(), 0);
    let node = search.node(0);
    assert_eq!(node.visit_count, 0);
    assert_eq!(node.value_sum, 0);
    assert_eq!(node.parent, None);
    assert_eq!(node.action_taken, None);
    assert_eq!(node.children, Vec::<usize>::new());
    assert_eq!(node.untried_actions.len(), 9);
    assert!(!node.is_fully_expanded());
    assert!(!node.is_inner());
    assert_eq!(search.get_best_action(), None);
}

#[test]
fn the_root_is_visited_once_by_every_playout() {
    let game = TicTacToe::init();
    let root = game.get_initial_state();
    let mut search = Mcts::new(&game, ucb(), root, 300, 1_414_214).ok().unwrap();
    assert!(search.search().is_some());
    assert_eq!(search.playouts(), 300);
    assert_eq!(search.node(0).visit_count, 300);
}

#[test]
fn a_playout_adds_at_most_one_node() {
    let game = TicTacToe::init();
    let root = game.get_initial_state();
    let mut search = Mcts::new(&game, ucb(), root, 300, 1_414_214).ok().unwrap();
    search.search();
    assert!(search.node_count() <= 301);
    assert!(search.node_count() >= 10);
}

#[test]
fn the_visits_of_a_node_are_those_of_its_children_and_its_own() {
    let game = TicTacToe::init();
    let root = game.get_initial_state();
    let mut search = Mcts::new(&game, ucb(), root, 400, 1_414_214).ok().unwrap();
    search.search();
    for index in 0..search.node_count() {
        let node = search.node(index);
        if node.children.is_empty() && node.untried_actions.is_empty() {
            continue;
        }
        let below: u32 = node.children.iter().map(|&child| search.node(child).visit_count).sum();
        let own = if index == 0 { 0 } else { 1 };
        assert_eq!(node.visit_count, own + below);
    }
}

#[test]
fn the_arena_is_a_tree_in_order_of_making() {
    let game = TicTacToe::init();
    let root = game.get_initial_state();
    let mut search = Mcts::new(&game, ucb(), root, 200, 1_414_214).ok().unwrap();
    search.search();
    assert_eq!(search.node(0).parent, None);
    for index in 1..search.node_count() {
        let node = search.node(index);
        let parent = node.parent.unwrap();
        assert!(parent < index);
        assert!(search.node(parent).children.contains(&index));
        assert!(node.visit_count >= 1);
        assert!(node.visit_count <= search.node(parent).visit_count);
        assert!(node.value_sum.abs() <= 2 * node.visit_count as i64);
        let action = node.action_taken.unwrap();
        assert!(game.legal_actions(&search.node(parent).position).contains(&action));
        let next = game.apply(&search.node(parent).position, &action);
        assert_eq!(next, node.position);
    }
}

#[test]
fn a_node_at_the_end_of_the_game_holds_the_same_worth_for_every_visit() {
    let game = TicTacToe::init();
    let root = game.create_state(vec![(0, 0, 1), (0, 1, 1), (1, 0, -1), (1, 1, -1), (2, 2, 1)]);
    let mut search = Mcts::new(&game, ucb(), root, 600, 1_414_214).ok().unwrap();
    search.search();
    let mut ended = 0;
    for index in 0..search.node_count() {
        let node = search.node(index);
        let outcome = game.evaluate(&node.position);
        if outcome.is_terminal() {
            ended += 1;
            assert!(node.children.is_empty());
            assert!(node.untried_actions.is_empty());
            assert_eq!(node.value_sum, -(outcome.value() as i64) * node.visit_count as i64);
        }
    }
    assert!(ended > 0);
}

#[test]
fn a_draw_counts_one_half_point_against_the_side_to_move() {
    let game = TicTacToe::init();
    let mut search = Mcts::new(&game, ucb(), last_place_draws(&game), 3, 1_414_214).ok().unwrap();
    let best = search.search().copied();
    assert_eq!(best, Some((2, 2)));
    assert_eq!(search.node_count(), 2);
    let root = search.node(0);
    assert_eq!(root.children, vec![1]);
    assert!(root.untried_actions.is_empty());
    assert!(root.is_fully_expanded());
    assert!(root.is_inner());
    assert_eq!(root.visit_count, 3);
    assert_eq!(root.value_sum, 3);
    let child = search.node(1);
    assert_eq!(child.parent, Some(0));
    assert_eq!(child.action_taken, Some((2, 2)));
    assert_eq!(child.visit_count, 3);
    assert_eq!(child.value_sum, -3);
    assert!(child.is_fully_expanded());
    assert!(!child.is_inner());
}

#[test]
fn a_win_counts_two_half_points_against_the_side_to_move() {
    let game = TicTacToe::init();
    let mut search = Mcts::new(&game, ucb(), last_place_wins(&game), 4, 1_414_214).ok().unwrap();
    let best = search.search().copied();
    assert_eq!(best, Some((2, 2)));
    assert_eq!(search.node_count(), 2);
    assert_eq!(search.node(0).visit_count, 4);
    assert_eq!(search.node(0).value_sum, 8);
    assert_eq!(search.node(1).visit_count, 4);
    assert_eq!(search.node(1).value_sum, -8);
}

#[test]
fn a_search_that_has_used_its_budget_runs_no_more_playouts() {
    let game = TicTacToe::init();
    let mut search = Mcts::new(&game, ucb(), last_place_wins(&game), 4, 1_414_214).ok().unwrap();
    search.search();
    let again = search.search().copied();
    assert_eq!(again, Some((2, 2)));
    assert_eq!(search.playouts(), 4);
    assert_eq!(search.node(0).visit_count, 4);
}

#[test]
fn a_win_in_one_is_found() {
    let game = TicTacToe::init();
    for _ in 0..20 {
        let root = game.create_state(vec![(0, 0, 1), (0, 1, 1), (1, 2, -1), (2, 2, -1)]);
        let mut search = Mcts::new(&game, ucb(), root, 500, 1_414_214).ok().unwrap();
        let best = search.search().copied();
        assert_eq!(best, Some((0, 2)));
    }
}

#[test]
fn a_draw_is_preferred_to_a_loss() {
    let game = TicTacToe::init();
    for _ in 0..20 {
        let mut search = Mcts::new(&game, ucb(), block_or_lose(&game), 500, 1_414_214).ok().unwrap();
        let best = search.search().copied();
        assert_eq!(best, Some((2, 2)));
        let root = search.node(0);
        let drawing = search.node(root.children.iter().copied().find(|&c| search.node(c).action_taken == Some((2, 2))).unwrap());
        let losing = search.node(root.children.iter().copied().find(|&c| search.node(c).action_taken == Some((2, 0))).unwrap());
        assert!(drawing.visit_count > losing.visit_count);
        assert_eq!(drawing.value_sum, drawing.visit_count as i64);
        assert_eq!(losing.value_sum, 2 * losing.visit_count as i64);
    }
}

#[test]
fn a_finished_game_has_no_move() {
    let game = TicTacToe::init();
    let lost = game.create_state(vec![(0, 0, -1), (0, 1, -1), (0, 2, -1), (1, 0, 1), (1, 1, 1)]);
    let mut search = Mcts::new(&game, ucb(), lost, 100, 1_414_214).ok().unwrap();
    assert_eq!(search.search(), None);
    assert_eq!(search.node_count(), 1);
    assert_eq!(search.playouts(), 0);
    assert_eq!(search.node(0).visit_count, 0);
    assert!(search.node(0).untried_actions.is_empty());
}

#[test]
fn a_full_board_has_no_move() {
    let game = TicTacToe::init();
    let full = game.apply_move(&last_place_draws(&game), 1, (2, 2));
    let mut search = Mcts::new(&game, ucb(), full, 100, 1_414_214).ok().unwrap();
    assert_eq!(search.search(), None);
    assert_eq!(search.get_best_action(), None);
}

#[test]
fn the_move_reported_is_that_of_the_first_most_visited_child() {
    let game = TicTacToe::init();
    let root = game.get_initial_state();
    let mut search = Mcts::new(&game, ucb(), root, 400, 1_414_214).ok().unwrap();
    let best = search.search().copied();
    let root = search.node(0);
    let mut most = 0;
    let mut expected = None;
    for &child in &root.children {
        if search.node(child).visit_count > most {
            most = search.node(child).visit_count;
            expected = search.node(child).action_taken;
        }
    }
    assert_eq!(best, expected);
    assert_eq!(search.get_best_action().copied(), expected);
}

#[test]
fn the_search_does_not_know_the_players_apart() {
    let game = TicTacToe::init();
    let board = game.create_state(vec![(0, 1, 1), (0, 2, 1), (1, 0, -1), (2, 0, -1)]);
    let mirrored = game.change_perspective(&board);
    let seen = game.as_seen_by(&board, 1);
    let seen_mirrored = game.as_seen_by(&mirrored, -1);
    assert_eq!(seen.rows(), seen_mirrored.rows());
    let mut first = Mcts::new(&game, ucb(), seen, 500, 1_414_214).ok().unwrap();
    let mut second = Mcts::new(&game, ucb(), seen_mirrored, 500, 1_414_214).ok().unwrap();
    assert_eq!(first.search().copied(), Some((0, 0)));
    assert_eq!(second.search().copied(), Some((0, 0)));
}

#[test]
fn of_two_children_with_equal_visits_the_better_scores_higher() {
    assert!(ucb().score(1_414_214, 10, 4, -2) > ucb().score(1_414_214, 10, 4, 3));
    assert!(ucb().score(1_414_214, 1000, 1000, -1) > ucb().score(1_414_214, 1000, 1000, 0));
    assert!(ucb().score(1, 7, 3, 5) > ucb().score(1, 7, 3, 6));
}

#[test]
fn of_two_children_with_equal_averages_the_less_visited_scores_higher() {
    assert!(ucb().score(1_414_214, 10, 2, 2) > ucb().score(1_414_214, 10, 4, 4));
    assert!(ucb().score(1_414_214, 900, 300, -100) > ucb().score(1_414_214, 900, 600, -200));
}

#[test]
fn the_bound_is_the_average_seen_by_the_parent_plus_the_exploration_term() {
    assert_eq!(ucb().log_roots[10], 101483);
    assert_eq!(ucb().inverse_roots[4], 32768);
    assert_eq!(ucb().score(1_414_214, 10, 4, -4), 12884901888 + 9405640170);
    let points = ucb().score(1_414_214, 10, 4, -4) as f64 / 8589934592.0 - 1.0;
    let expected = 0.5 + 2.0f64.sqrt() * (11.0f64.ln() / 4.0).sqrt();
    assert!((points - expected).abs() < 1e-4);
}

#[test]
fn a_table_that_ends_early_gives_no_exploration_term() {
    let short = Ucb::new(vec![0, 54563], vec![0, 65536]);
    assert_eq!(short.score(1_000_000, 1, 1, 0), 8589934592 + 7151681536);
    assert_eq!(short.score(1_000_000, 5, 1, 0), 8589934592);
    assert_eq!(short.score(1_000_000, 5, 3, 6), 0);
}

#[test]
fn the_first_playout_adds_a_child_of_the_root() {
    let game = TicTacToe::init();
    let root = game.get_initial_state();
    let mut search = Mcts::new(&game, ucb(), root, 1, 1_414_214).ok().unwrap();
    let best = search.search().copied();
    assert_eq!(search.node_count(), 2);
    assert_eq!(search.playouts(), 1);
    let root = search.node(0);
    let child = search.node(1);
    assert_eq!(root.children, vec![1]);
    assert_eq!(root.untried_actions.len(), 8);
    assert_eq!(child.parent, Some(0));
    assert_eq!(child.action_taken, best);
    assert!(!root.untried_actions.contains(&best.unwrap()));
    assert_eq!(child.untried_actions.len(), 8);
    assert_eq!(child.visit_count, 1);
    assert_eq!(root.visit_count, 1);
    assert_eq!(root.value_sum, -child.value_sum);
    assert!(child.value_sum.abs() <= 2);
}

#[test]
fn every_move_of_the_root_is_tried_before_any_is_tried_again() {
    let game = TicTacToe::init();
    let root = game.get_initial_state();
    let mut search = Mcts::new(&game, ucb(), root, 9, 1_414_214).ok().unwrap();
    search.search();
    assert_eq!(search.node_count(), 10);
    let root = search.node(0);
    assert!(root.untried_actions.is_empty());
    assert_eq!(root.children, (1..10).collect::<Vec<usize>>());
    let mut moves: Vec<(usize, usize)> =
        root.children.iter().map(|&child| search.node(child).action_taken.unwrap()).collect();
    moves.sort();
    assert_eq!(moves, game.get_legal_moves(&root.position));
    for index in 1..10 {
        assert_eq!(search.node(index).visit_count, 1);
        assert_eq!(search.node(index).parent, Some(0));
    }
}

#[test]
fn the_walk_goes_down_to_the_end_of_the_game_where_nothing_is_left_to_try() {
    let game = TicTacToe::init();
    let mut search = Mcts::new(&game, ucb(), last_place_draws(&game), 3, 1_414_214).ok().unwrap();
    assert_eq!(search.select(), 0);
    search.search();
    assert_eq!(search.select(), 1);
    assert_eq!(search.child_scores(0), vec![ucb().score(1_414_214, 3, 3, -3)]);
    assert!(search.child_scores(1).is_empty());
}

#[test]
fn the_walk_takes_the_child_with_the_largest_score_and_the_first_of_equal_ones() {
    let game = TicTacToe::init();
    let root = game.get_initial_state();
    let mut search = Mcts::new(&game, ucb(), root, 200, 1_414_214).ok().unwrap();
    search.search();
    let leaf = search.select();
    assert!(!search.node(leaf).is_inner());
    let mut below = leaf;
    while let Some(above) = search.node(below).parent {
        let node = search.node(above);
        assert!(node.is_inner());
        let scores = search.child_scores(above);
        let taken = node.children.iter().position(|&child| child == below).unwrap();
        assert!(scores.iter().all(|&score| score <= scores[taken]));
        assert!(scores[..taken].iter().all(|&score| score < scores[taken]));
        for (k, &child) in node.children.iter().enumerate() {
            let child = search.node(child);
            let expected =
                ucb().score(1_414_214, node.visit_count, child.visit_count, child.value_sum);
            assert_eq!(scores[k], expected);
        }
        below = above;
    }
    assert_eq!(below, 0);
}
