use mcts::game::{judge, seen_from, Outcome};
use mcts::node::Node;
use mcts::policy::first_maximum;
use mcts::search::ConfigError;

#[test]
fn the_largest_value_is_found() {
    assert_eq!(first_maximum(&vec![3, 9, -4, 8]), 1);
    assert_eq!(first_maximum(&vec![-7]), 0);
    assert_eq!(first_maximum(&vec![1, 2, 3]), 2);
}

#[test]
fn the_first_of_equal_values_is_taken() {
    assert_eq!(first_maximum(&vec![5, 7, 7, 1, 7]), 1);
    assert_eq!(first_maximum(&vec![0, 0, 0]), 0);
    assert_eq!(first_maximum(&vec![i64::MIN, i64::MIN]), 0);
}

#[test]
fn an_outcome_weighs_its_half_points() {
    assert_eq!(Outcome::Ongoing.value(), 0);
    assert_eq!(Outcome::Drawn.value(), 1);
    assert_eq!(Outcome::Decisive.value(), 2);
    assert!(!Outcome::Ongoing.is_terminal());
    assert!(Outcome::Drawn.is_terminal());
    assert!(Outcome::Decisive.is_terminal());
}

#[test]
fn an_ending_is_worth_the_opposite_one_move_earlier() {
    assert_eq!(seen_from(Outcome::Decisive, false), -2);
    assert_eq!(seen_from(Outcome::Decisive, true), 2);
    assert_eq!(seen_from(Outcome::Drawn, false), -1);
    assert_eq!(seen_from(Outcome::Drawn, true), 1);
    assert_eq!(seen_from(Outcome::Ongoing, false), 0);
    assert_eq!(seen_from(Outcome::Ongoing, true), 0);
}

#[test]
fn a_game_is_judged_by_its_winner_and_its_moves() {
    assert_eq!(judge(true, 0), Outcome::Decisive);
    assert_eq!(judge(true, 5), Outcome::Decisive);
    assert_eq!(judge(false, 0), Outcome::Drawn);
    assert_eq!(judge(false, 1), Outcome::Ongoing);
}

#[test]
fn a_new_node_has_no_visit_and_no_child() {
    let node = Node::new("position", vec!['a', 'b'], Some('c'), Some(7));
    assert_eq!(node.position, "position");
    assert_eq!(node.untried_actions, vec!['a', 'b']);
    assert_eq!(node.action_taken, Some('c'));
    assert_eq!(node.parent, Some(7));
    assert!(node.children.is_empty());
    assert_eq!(node.visit_count, 0);
    assert_eq!(node.value_sum, 0);
    assert!(!node.is_fully_expanded());
    assert!(!node.is_inner());
}

#[test]
fn a_node_without_untried_moves_is_fully_expanded() {
    let mut node = Node::new((), Vec::<u8>::new(), None, None);
    assert!(node.is_fully_expanded());
    assert!(!node.is_inner());
    node.children.push(1);
    assert!(node.is_fully_expanded());
    assert!(node.is_inner());
}

#[test]
fn a_configuration_error_says_what_is_wrong() {
    assert_eq!(
        ConfigError::ZeroBudget.message(),
        "the search budget must allow at least one playout"
    );
    assert_eq!(
        ConfigError::ZeroExploration.message(),
        "the exploration constant must be positive"
    );
}
