//! A chess game as the `chess` crate keeps it, with what a search asks of
//! it: whose turn it is, which moves are legal, what a move leads to and
//! how the game stands.
//!
//! The game, its boards and its moves are values of the outside crate that
//! are carried through here as they are. What the outside functions
//! return is named, not computed: the contracts below say which function
//! was asked about which value.

use crate::game::Outcome;
use chess::{Board, ChessMove, Color, GameResult, MoveGen};
use vstd::prelude::*;

verus! {

/// A game of the `chess` crate: a starting board and the actions taken
/// since.
#[verifier::external_type_specification]
#[verifier::external_body]
pub struct ExGame(chess::Game);

/// A board of the `chess` crate.
#[verifier::external_type_specification]
#[verifier::external_body]
pub struct ExBoard(Board);

/// A move of the `chess` crate.
#[verifier::external_type_specification]
#[verifier::external_body]
pub struct ExChessMove(ChessMove);

/// The move generator of the `chess` crate, which hands out the legal
/// moves of the board that it was made for.
#[verifier::external_type_specification]
#[verifier::external_body]
pub struct ExMoveGen(MoveGen);

/// The two sides of the `chess` crate, `White` and `Black`.
#[verifier::external_type_specification]
pub struct ExColor(Color);

/// The ways in which a game of the `chess` crate can have ended.
#[verifier::external_type_specification]
pub struct ExGameResult(GameResult);

/// The side that `Game::side_to_move` reports for a game.
pub uninterp spec fn side_to_move(game: chess::Game) -> Color;

/// The result that `Game::result` reports for a game; none while the
/// game goes on.
pub uninterp spec fn result_of(game: chess::Game) -> Option<GameResult>;

/// The board that `Game::current_position` reports for a game.
pub uninterp spec fn position_of(game: chess::Game) -> Board;

/// The game as `Game::make_move` leaves it when it is asked to make a
/// move.
pub uninterp spec fn after_move(game: chess::Game, chess_move: ChessMove) -> chess::Game;

/// The generator that `MoveGen::new_legal` makes for a board.
pub uninterp spec fn legal_moves(board: Board) -> MoveGen;

/// The number of men of one colour on a board.
pub uninterp spec fn men(board: Board, color: Color) -> nat;

/// The most men of one colour for which the crate lists moves. Its list
/// of moves has eighteen places: one for each man that can move, and two
/// more for captures in passing.
pub open spec fn most_men() -> nat {
    16
}

/// Whether neither side has more men on a board than the crate lists moves
/// for.
pub open spec fn fits(board: Board) -> bool {
    men(board, Color::White) <= most_men() && men(board, Color::Black) <= most_men()
}

/// The text that a board is written as when it is formatted for display:
/// its position in Forsyth-Edwards notation.
pub uninterp spec fn board_text(board: Board) -> Seq<char>;

/// `Game::side_to_move` counts the moves made since the starting board
/// and tells whose turn it is; the answer is a function of the game.
pub assume_specification[ chess::Game::side_to_move ](game: &chess::Game) -> (color: Color)
    ensures
        color == side_to_move(*game),
;

/// `Game::result` tells how the game has ended, from the board reached
/// and the last action taken; the answer is a function of the game. It
/// lists the moves of the side to move on that board, into a list that it
/// does not guard against more men than it has places for; `requires`
/// leaves such boards out.
pub assume_specification[ chess::Game::result ](game: &chess::Game) -> (result: Option<
    GameResult,
>)
    requires
        fits(position_of(*game)),
    ensures
        result == result_of(*game),
;

/// `Game::current_position` replays the moves made on the starting board;
/// the board reached is a function of the game.
pub assume_specification[ chess::Game::current_position ](game: &chess::Game) -> (board: Board)
    ensures
        board == position_of(*game),
;

/// `Game::make_move` records the move if the game goes on and the move is
/// legal on the board reached, and tells whether it did; otherwise it
/// leaves the game as it was. The game that it leaves is a function of
/// the game and the move. It asks for the result and lists the moves on
/// the board reached, so `requires` leaves out what `Game::result` leaves
/// out. Nothing is claimed of the men on the board after the move.
pub assume_specification[ chess::Game::make_move ](
    game: &mut chess::Game,
    chess_move: ChessMove,
) -> (made: bool)
    requires
        fits(position_of(*old(game))),
    ensures
        *final(game) == after_move(*old(game), chess_move),
        !made ==> *final(game) == *old(game),
;

/// The `clone` that the crate derives for its game copies the starting
/// board and the actions.
pub assume_specification[ <chess::Game as Clone>::clone ](game: &chess::Game) -> (copy:
    chess::Game)
    ensures
        copy == *game,
;

/// `MoveGen::new_legal` lists the legal moves of a board in a new
/// generator, which is a function of the board. The list has a place for
/// each man of the side to move that can move and for two captures in
/// passing, and is written without a test of its length; `requires`
/// leaves out the boards with more men than that.
pub assume_specification[ MoveGen::new_legal ](board: &Board) -> (moves: MoveGen)
    requires
        fits(*board),
    ensures
        moves == legal_moves(*board),
;

/// Counts the men of one colour with `Board::color_combined`, which gives
/// the squares that the colour holds, and `BitBoard::popcnt`, which counts
/// them.
#[verifier::external_body]
fn board_men(board: &Board, color: Color) -> (count: u32)
    ensures
        count == men(*board, color),
{
    board.color_combined(color).popcnt()
}

/// Writes a board with `format!`, that is with the board's `Display`,
/// which writes the pieces, the side to move, the castling rights and the
/// en passant square in Forsyth-Edwards notation. The text is a function
/// of the board.
#[verifier::external_body]
fn board_to_text(board: &Board) -> (text: String)
    ensures
        text@ == board_text(*board),
{
    format!("{}", board)
}

/// A chess game that a search can ask about: one on whose board neither
/// side has more men than the `chess` crate lists moves for.
#[derive(Debug)]
pub struct ChessGame {
    game: chess::Game,
}

impl Clone for ChessGame {
    /// A game of its own with the same board and the same actions.
    fn clone(&self) -> (copy: Self)
        ensures
            copy.spec_game() == self.spec_game(),
    {
        proof {
            use_type_invariant(self);
        }
        Self { game: self.game.clone() }
    }
}

impl ChessGame {
    #[verifier::type_invariant]
    spec fn fitting(self) -> bool {
        fits(position_of(self.game))
    }

    /// The game of the outside crate.
    pub closed spec fn spec_game(self) -> chess::Game {
        self.game
    }

    /// Whether a game can be asked about.
    fn game_fits(game: &chess::Game) -> (fitting: bool)
        ensures
            fitting == fits(position_of(*game)),
    {
        let board = game.current_position();
        board_men(&board, Color::White) <= 16 && board_men(&board, Color::Black) <= 16
    }

    /// Takes a game in, unless a side has more men on its board than the
    /// outside crate lists moves for.
    pub fn new(game: chess::Game) -> (made: Option<Self>)
        ensures
            made is Some <==> fits(position_of(game)),
            made matches Some(taken) ==> taken.spec_game() == game,
    {
        if Self::game_fits(&game) {
            Some(Self { game })
        } else {
            None
        }
    }

    /// The game of the outside crate.
    pub fn game(&self) -> (game: &chess::Game)
        ensures
            *game == self.spec_game(),
            fits(position_of(*game)),
    {
        proof {
            use_type_invariant(self);
        }
        &self.game
    }

    /// The side whose turn it is.
    pub fn get_turn(&self) -> (color: Color)
        ensures
            color == side_to_move(self.spec_game()),
    {
        self.game.side_to_move()
    }

    /// The game after `chess_move`, as a game of its own; this one stays
    /// as it is. A move that cannot be made leaves a copy of this game,
    /// and so does a move after which a side would have more men on the
    /// board than the outside crate lists moves for.
    pub fn apply_move_and_clone(&self, chess_move: ChessMove) -> (next: Self)
        ensures
            next.spec_game() == if fits(position_of(after_move(self.spec_game(), chess_move))) {
                after_move(self.spec_game(), chess_move)
            } else {
                self.spec_game()
            },
    {
        proof {
            use_type_invariant(self);
        }
        let mut new_game = self.game.clone();
        new_game.make_move(chess_move);
        if Self::game_fits(&new_game) {
            Self { game: new_game }
        } else {
            Self { game: self.game.clone() }
        }
    }

    /// The legal moves on the board that the game has reached.
    pub fn get_legal_moves(&self) -> (moves: MoveGen)
        ensures
            moves == legal_moves(position_of(self.spec_game())),
    {
        proof {
            use_type_invariant(self);
        }
        MoveGen::new_legal(&self.game.current_position())
    }

    /// The board that the game has reached, as text.
    pub fn state_text(&self) -> (text: String)
        ensures
            text@ == board_text(position_of(self.spec_game())),
    {
        board_to_text(&self.game.current_position())
    }

    /// How a game with the given result stands: decided after a mate or a
    /// resignation, drawn after any other ending, open without a result.
    pub open spec fn outcome_of(result: Option<GameResult>) -> Outcome {
        match result {
            Some(GameResult::WhiteCheckmates)
            | Some(GameResult::BlackCheckmates)
            | Some(GameResult::WhiteResigns)
            | Some(GameResult::BlackResigns) => Outcome::Decisive,
            Some(_) => Outcome::Drawn,
            None => Outcome::Ongoing,
        }
    }

    /// Tells how a game with the given result stands.
    pub fn classify(result: Option<GameResult>) -> (outcome: Outcome)
        ensures
            outcome == Self::outcome_of(result),
    {
        match result {
            Some(outcome) => match outcome {
                GameResult::WhiteCheckmates
                | GameResult::BlackCheckmates
                | GameResult::WhiteResigns
                | GameResult::BlackResigns => Outcome::Decisive,
                _ => Outcome::Drawn,
            },
            None => Outcome::Ongoing,
        }
    }

    /// How the game stands.
    pub fn get_value_and_terminated(&self) -> (outcome: Outcome)
        ensures
            outcome == Self::outcome_of(result_of(self.spec_game())),
    {
        proof {
            use_type_invariant(self);
        }
        Self::classify(self.game.result())
    }
}

} // verus!
