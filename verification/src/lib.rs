//! Monte Carlo tree search for two-player games in which the players move
//! in turn, nothing is hidden and nothing is left to chance.
//!
//! The search knows a game through the trait `game::Rules` alone. It keeps
//! its tree in an arena (`node`, `arena`), grows it by playouts (`search`)
//! and chooses among the children of a node by the scores of a `policy`,
//! which is the upper confidence bound unless another is given. Values are
//! whole numbers of half points, and every value is that of the side to
//! move at the node that holds it.
//!
//! `tictactoe` gives the rules of tic-tac-toe on a `grid`, `play_interface`
//! whole games of it, and `text` what a player at a terminal reads and
//! types. `chess_game` shows a chess game of the `chess` crate as a search
//! would ask about it.
//!
//! Three things are called and not proved: the random draw of `rand` in
//! `random`, the arrays of `ndarray` in `grid`, and the games of `chess` in
//! `chess_game`. Each of these items says in its documentation what is
//! claimed of the outside function. The logarithm and the roots of the
//! upper confidence bound are not computed here either: the policy reads
//! them from tables that its maker fills, and is proved for whatever the
//! tables hold.

pub mod arena;
pub mod chess_game;
pub mod game;
pub mod grid;
pub mod node;
pub mod play_interface;
pub mod policy;
pub mod random;
pub mod search;
pub mod text;
pub mod tictactoe;
