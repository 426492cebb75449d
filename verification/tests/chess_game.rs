use chess::{ChessMove, Color, Game, GameResult, Square};
use mcts::chess_game::ChessGame;
use mcts::game::Outcome;
use std::str::FromStr;

#[test]
fn white_moves_first() {
    let game = ChessGame::new(Game::new()).unwrap();
    assert_eq!(game.get_turn(), Color::White);
    assert_eq!(game.get_legal_moves().len(), 20);
    assert_eq!(game.get_value_and_terminated(), Outcome::Ongoing);
}

#[test]
fn a_move_passes_the_turn() {
    let game = ChessGame::new(Game::new()).unwrap();
    let next = game.apply_move_and_clone(ChessMove::new(Square::E2, Square::E4, None));
    assert_eq!(next.get_turn(), Color::Black);
    assert_eq!(game.get_turn(), Color::White);
    assert_eq!(next.game().actions().len(), 1);
    assert_eq!(game.game().actions().len(), 0);
}

#[test]
fn a_move_against_the_rules_changes_nothing() {
    let game = ChessGame::new(Game::new()).unwrap();
    let next = game.apply_move_and_clone(ChessMove::new(Square::E2, Square::E5, None));
    assert_eq!(next.get_turn(), Color::White);
    assert_eq!(next.game().actions().len(), 0);
}

#[test]
fn the_legal_moves_are_those_of_the_position_reached() {
    let game = ChessGame::new(Game::new()).unwrap();
    let next = game.apply_move_and_clone(ChessMove::new(Square::E2, Square::E4, None));
    let replies: Vec<ChessMove> = next.get_legal_moves().collect();
    assert_eq!(replies.len(), 20);
    assert!(replies.contains(&ChessMove::new(Square::E7, Square::E5, None)));
    assert!(!replies.contains(&ChessMove::new(Square::E2, Square::E4, None)));
}

#[test]
fn a_mate_is_decisive() {
    let mut game = ChessGame::new(Game::new()).unwrap();
    for (from, to) in [
        (Square::F2, Square::F3),
        (Square::E7, Square::E5),
        (Square::G2, Square::G4),
        (Square::D8, Square::H4),
    ] {
        game = game.apply_move_and_clone(ChessMove::new(from, to, None));
    }
    assert_eq!(game.get_value_and_terminated(), Outcome::Decisive);
    assert_eq!(game.get_legal_moves().len(), 0);
}

#[test]
fn a_stalemate_is_drawn() {
    let game = ChessGame::new(Game::from_str("7k/5Q2/6K1/8/8/8/8/8 b - - 0 1").unwrap()).unwrap();
    assert_eq!(game.get_turn(), Color::Black);
    assert_eq!(game.get_value_and_terminated(), Outcome::Drawn);
}

#[test]
fn a_result_is_decisive_drawn_or_none() {
    assert_eq!(ChessGame::classify(None), Outcome::Ongoing);
    assert_eq!(ChessGame::classify(Some(GameResult::WhiteCheckmates)), Outcome::Decisive);
    assert_eq!(ChessGame::classify(Some(GameResult::BlackCheckmates)), Outcome::Decisive);
    assert_eq!(ChessGame::classify(Some(GameResult::WhiteResigns)), Outcome::Decisive);
    assert_eq!(ChessGame::classify(Some(GameResult::BlackResigns)), Outcome::Decisive);
    assert_eq!(ChessGame::classify(Some(GameResult::Stalemate)), Outcome::Drawn);
    assert_eq!(ChessGame::classify(Some(GameResult::DrawAccepted)), Outcome::Drawn);
    assert_eq!(ChessGame::classify(Some(GameResult::DrawDeclared)), Outcome::Drawn);
}

#[test]
fn a_resignation_is_decisive() {
    let mut game = Game::new();
    game.resign(Color::White);
    assert_eq!(ChessGame::new(game).unwrap().get_value_and_terminated(), Outcome::Decisive);
}

#[test]
fn the_board_is_written_in_forsyth_edwards_notation() {
    let game = ChessGame::new(Game::new()).unwrap();
    assert_eq!(game.state_text(), "rnbqkbnr/pppppppp/8/8/8/8/PPPPPPPP/RNBQKBNR w KQkq - 0 1");
    let next = game.apply_move_and_clone(ChessMove::new(Square::E2, Square::E4, None));
    assert_eq!(next.state_text(), "rnbqkbnr/pppppppp/8/8/4P3/8/PPPP1PPP/RNBQKBNR b KQkq - 0 1");
}

#[test]
fn a_game_with_more_men_than_the_moves_are_listed_for_is_refused() {
    let crowded = Game::from_str("k7/8/8/8/NNNN4/NNNNNNNN/NNNNNNNN/7K w - - 0 1").unwrap();
    assert!(ChessGame::new(crowded).is_none());
    let crowded = Game::from_str("k7/nnnnnnnn/nnnnnnnn/8/8/8/8/7K w - - 0 1").unwrap();
    assert!(ChessGame::new(crowded).is_none());
}

#[test]
fn a_game_with_sixteen_men_a_side_is_taken() {
    let full = Game::from_str("k7/nnnnnnnn/nnnnnnn1/8/8/1NNNNNNN/NNNNNNNN/7K w - - 0 1").unwrap();
    let game = ChessGame::new(full).unwrap();
    assert_eq!(game.get_value_and_terminated(), Outcome::Ongoing);
    assert!(game.get_legal_moves().len() > 0);
}

#[test]
fn a_copy_of_a_game_is_a_game_of_its_own() {
    let game = ChessGame::new(Game::new()).unwrap();
    let copy = game.clone();
    let next = copy.apply_move_and_clone(ChessMove::new(Square::E2, Square::E4, None));
    assert_eq!(copy.game().actions().len(), 0);
    assert_eq!(next.game().actions().len(), 1);
    assert_eq!(copy.state_text(), game.state_text());
}
