//! Whole games of tic-tac-toe, played by the search.

use crate::game::Outcome;
use crate::grid::{blank, grid_cells, placed, Grid};
use crate::policy::TreePolicy;
use crate::search::Mcts;
use crate::tictactoe::{blanks, empties, is_board, seen_by, verdict, TicTacToe};
use crate::tictactoe::{lemma_blanks_are_empties, lemma_empties, lemma_marked};
use crate::tictactoe::{lemma_turned_cells, lemma_turned_empties, lemma_turned_line};
use vstd::prelude::*;

verus! {

/// The number of playouts that the search runs for a move.
pub const SEARCHES: u32 = 1000;

/// The exploration constant of the search in millionths: the square root
/// of two.
pub const EXPLORATION: u32 = 1_414_214;

/// Whether `next` is `prev` with one mark of `player` more, on a place
/// that was empty.
pub open spec fn is_move(prev: Seq<Seq<i8>>, next: Seq<Seq<i8>>, player: i8) -> bool {
    exists|action: (usize, usize)|
        {
            &&& action.0 < 3
            &&& action.1 < 3
            &&& prev[action.0 as int][action.1 as int] == 0
            &&& next == #[trigger] placed(prev, action.0 as int, action.1 as int, player)
        }
}

/// The player who makes move number `k` of a game that player 1 begins;
/// the first move has number 1.
pub open spec fn mover(k: int) -> i8 {
    if k % 2 == 1 {
        1i8
    } else {
        -1i8
    }
}

/// Whether `player` cannot move on a board, because the other player has
/// won or no place is left.
pub open spec fn is_over_for(cells: Seq<Seq<i8>>, player: i8) -> bool {
    verdict(cells, (-player) as i8).is_terminal()
}

/// Lets the search choose a move for `mcts_player` on `state` and makes
/// it. Where the game is over for that player, there is no move to make.
pub fn mcts_turn<P: TreePolicy>(game: &TicTacToe, policy: &P, state: &Grid, mcts_player: i8) -> (next:
    Option<Grid>)
    requires
        is_board(grid_cells(*state)),
        mcts_player == 1 || mcts_player == -1,
    ensures
        next is None <==> is_over_for(grid_cells(*state), mcts_player),
        next matches Some(grid) ==> is_move(grid_cells(*state), grid_cells(grid), mcts_player),
{
    let ghost cells = grid_cells(*state);
    let root = game.as_seen_by(state, mcts_player);
    proof {
        lemma_turned_cells(cells);
        lemma_turned_empties(cells);
        lemma_turned_line(cells, 3 * mcts_player);
        lemma_empties(grid_cells(root));
    }
    let mut search = Mcts::new(game, policy, root, SEARCHES, EXPLORATION).unwrap();
    let action = match search.search() {
        None => {
            return None;
        },
        Some(best) => *best,
    };
    proof {
        let seen = seen_by(cells, mcts_player);
        assert(empties(seen).contains(action));
        assert(cells[action.0 as int][action.1 as int] == 0);
    }
    Some(game.apply_move(state, mcts_player, action))
}

/// What one round of a game between a player and the search has led to.
pub struct Round {
    /// The board after the move of the player.
    pub after_player: Grid,
    /// The board after the reply of the search; none where the move of the
    /// player has ended the game.
    pub after_search: Option<Grid>,
    /// Whether the game has ended.
    pub over: bool,
}

/// The board on which a player who has chosen `chosen_player` makes its
/// first move: the empty board for player 1, who begins, and the board
/// after the first move of the search for the other player.
pub fn first_board<P: TreePolicy>(game: &TicTacToe, policy: &P, chosen_player: i8) -> (state: Grid)
    requires
        game.row_count == 3,
        game.column_count == 3,
        chosen_player == 1 || chosen_player == -1,
    ensures
        chosen_player == 1 ==> grid_cells(state) == blank(3, 3),
        chosen_player == -1 ==> is_move(blank(3, 3), grid_cells(state), 1),
{
    let state = game.get_initial_state();
    if chosen_player == -1 {
        proof {
            lemma_opening();
        }
        mcts_turn(game, policy, &state, 1).unwrap()
    } else {
        state
    }
}

/// Plays one round: puts the mark of the player at `action`, and lets the
/// search reply unless the game has ended by that. The mark is placed
/// whether or not the place was empty.
pub fn play_round<P: TreePolicy>(
    game: &TicTacToe,
    policy: &P,
    state: &Grid,
    chosen_player: i8,
    action: (usize, usize),
) -> (round: Round)
    requires
        is_board(grid_cells(*state)),
        chosen_player == 1 || chosen_player == -1,
        action.0 < 3,
        action.1 < 3,
    ensures
        grid_cells(round.after_player) == placed(
            grid_cells(*state),
            action.0 as int,
            action.1 as int,
            chosen_player,
        ),
        round.after_search is None <==> verdict(
            grid_cells(round.after_player),
            chosen_player,
        ).is_terminal(),
        round.after_search matches Some(grid) ==> is_move(
            grid_cells(round.after_player),
            grid_cells(grid),
            (-chosen_player) as i8,
        ),
        round.over <==> (round.after_search matches Some(grid) ==> verdict(
            grid_cells(grid),
            (-chosen_player) as i8,
        ).is_terminal()),
{
    let after_player = game.apply_move(state, chosen_player, action);
    assert(is_board(grid_cells(after_player)));
    if game.get_value_and_terminated(&after_player, chosen_player).is_terminal() {
        return Round { after_player, after_search: None, over: true };
    }
    let mcts_player = -chosen_player;
    let after_search = mcts_turn(game, policy, &after_player, mcts_player).unwrap();
    proof {
        lemma_after_move(grid_cells(after_player), grid_cells(after_search), mcts_player);
    }
    let over = game.get_value_and_terminated(&after_search, mcts_player).is_terminal();
    Round { after_player, after_search: Some(after_search), over }
}

/// The boards that a list of grids holds.
pub open spec fn boards(states: Seq<Grid>) -> Seq<Seq<Seq<i8>>> {
    Seq::new(states.len(), |k: int| grid_cells(states[k]))
}

/// Whether a list of boards is the record of a game that player 1 began
/// on the empty board and that had not ended before its last board: each
/// board comes from the one before it by a move of the player whose turn
/// it was.
pub open spec fn is_record(record: Seq<Seq<Seq<i8>>>) -> bool {
    &&& record.len() >= 1
    &&& record[0] == blank(3, 3)
    &&& forall|k: int|
        1 <= k < record.len() ==> is_move(record[k - 1], record[k], #[trigger] mover(k))
    &&& forall|k: int|
        1 <= k < record.len() - 1 ==> verdict(#[trigger] record[k], mover(k)) == Outcome::Ongoing
}

/// A record of an open game grows by a move of the player whose turn it
/// is.
proof fn lemma_record_grows(record: Seq<Seq<Seq<i8>>>, next: Seq<Seq<i8>>)
    requires
        is_record(record),
        is_move(record.last(), next, mover(record.len() as int)),
        record.len() >= 2 ==> verdict(record.last(), mover(record.len() - 1)) == Outcome::Ongoing,
    ensures
        is_record(record.push(next)),
{
    let grown = record.push(next);
    assert forall|k: int| 1 <= k < grown.len() implies is_move(
        grown[k - 1],
        grown[k],
        #[trigger] mover(k),
    ) by {}
    assert forall|k: int| 1 <= k < grown.len() - 1 implies verdict(
        #[trigger] grown[k],
        mover(k),
    ) == Outcome::Ongoing by {}
}

/// A move leaves a board with one empty place less.
proof fn lemma_after_move(prev: Seq<Seq<i8>>, next: Seq<Seq<i8>>, player: i8)
    requires
        is_board(prev),
        is_move(prev, next, player),
        player == 1 || player == -1,
    ensures
        is_board(next),
        blanks(next) + 1 == blanks(prev),
{
    let action = choose|action: (usize, usize)|
        {
            &&& action.0 < 3
            &&& action.1 < 3
            &&& prev[action.0 as int][action.1 as int] == 0
            &&& next == #[trigger] placed(prev, action.0 as int, action.1 as int, player)
        };
    lemma_marked(prev, action, player);
}

/// The empty board is a board on which the game is open.
proof fn lemma_opening()
    ensures
        is_board(blank(3, 3)),
        blanks(blank(3, 3)) == 9,
        !is_over_for(blank(3, 3), 1),
        is_record(seq![blank(3, 3)]),
{
    let cells = blank(3, 3);
    lemma_blanks_are_empties(cells);
}

/// The players move in turn.
proof fn lemma_mover_alternates(k: int)
    ensures
        mover(k) == 1 || mover(k) == -1,
        mover(k + 1) == -mover(k),
{
}

/// Makes the move of the search for `player` and tells whether it has
/// ended the game.
fn play_once<P: TreePolicy>(game: &TicTacToe, policy: &P, state: &Grid, player: i8) -> (played: (
    Grid,
    bool,
))
    requires
        is_board(grid_cells(*state)),
        player == 1 || player == -1,
        !is_over_for(grid_cells(*state), player),
    ensures
        is_move(grid_cells(*state), grid_cells(played.0), player),
        is_board(grid_cells(played.0)),
        blanks(grid_cells(played.0)) + 1 == blanks(grid_cells(*state)),
        played.1 == verdict(grid_cells(played.0), player).is_terminal(),
        !played.1 ==> !is_over_for(grid_cells(played.0), (-player) as i8),
{
    let next = mcts_turn(game, policy, state, player).unwrap();
    proof {
        lemma_after_move(grid_cells(*state), grid_cells(next), player);
    }
    let over = game.get_value_and_terminated(&next, player).is_terminal();
    (next, over)
}

/// Plays one game in which the search moves for both players, player 1
/// first, and gives the boards of the game in order: the empty board, then
/// the board after each move. The game ends with the first board on which
/// the player who moved has won or no place is left.
pub fn self_play<P: TreePolicy>(policy: &P) -> (states: Vec<Grid>)
    ensures
        2 <= states.len() <= 10,
        is_record(boards(states@)),
        verdict(boards(states@).last(), mover(states.len() - 1)).is_terminal(),
{
    let game = TicTacToe::init();
    let mut state = game.get_initial_state();
    let mut player: i8 = 1;
    let mut states: Vec<Grid> = Vec::new();
    states.push(state.clone());
    proof {
        lemma_opening();
    }
    loop
        invariant_except_break
            !is_over_for(grid_cells(state), player),
            player == mover(states.len() as int),
            states.len() >= 2 ==> verdict(boards(states@).last(), mover(states.len() - 1))
                == Outcome::Ongoing,
        invariant
            is_board(grid_cells(state)),
            1 <= states.len() <= 10,
            blanks(grid_cells(state)) + states.len() == 10,
            boards(states@).last() == grid_cells(state),
            is_record(boards(states@)),
        ensures
            states.len() >= 2,
            verdict(boards(states@).last(), mover(states.len() - 1)).is_terminal(),
        decreases blanks(grid_cells(state)),
    {
        let ghost record = boards(states@);
        proof {
            lemma_mover_alternates(states.len() as int);
        }
        let (next, over) = play_once(&game, policy, &state, player);
        proof {
            lemma_record_grows(record, grid_cells(next));
        }
        states.push(next.clone());
        state = next;
        if over {
            break ;
        }
        player = -player;
    }
    states
}

} // verus!
