//! The rules of a game as the search sees them, and what an ending is
//! worth to each side.

use vstd::prelude::*;

verus! {

/// How a game stands in a position.
///
/// Values are counted in half points, so that a draw needs no fraction:
/// a decided game weighs two half points and a draw one.
#[derive(Clone, Copy, Debug, PartialEq, Eq, Structural)]
pub enum Outcome {
    /// Play goes on.
    Ongoing,
    /// The game has ended without a winner.
    Drawn,
    /// The game has ended with a winner. Under `Rules` the winner is the
    /// side that just moved, so the side to move has lost.
    Decisive,
}

impl Outcome {
    /// The weight of the outcome in half points.
    pub open spec fn spec_value(self) -> u8 {
        match self {
            Outcome::Ongoing => 0,
            Outcome::Drawn => 1,
            Outcome::Decisive => 2,
        }
    }

    /// Whether the game has ended.
    pub open spec fn spec_is_terminal(self) -> bool {
        self != Outcome::Ongoing
    }

    /// The weight of the outcome in half points.
    #[verifier::when_used_as_spec(spec_value)]
    pub fn value(self) -> (v: u8)
        ensures
            v == self.spec_value(),
    {
        match self {
            Outcome::Ongoing => 0,
            Outcome::Drawn => 1,
            Outcome::Decisive => 2,
        }
    }

    /// Whether the game has ended.
    #[verifier::when_used_as_spec(spec_is_terminal)]
    pub fn is_terminal(self) -> (t: bool)
        ensures
            t == self.spec_is_terminal(),
    {
        match self {
            Outcome::Ongoing => false,
            _ => true,
        }
    }
}

/// How a game stands of which two things are known: whether the side that
/// just moved has won it, and how many moves are left to the side to move.
pub open spec fn judged(decided: bool, moves_left: nat) -> Outcome {
    if decided {
        Outcome::Decisive
    } else if moves_left == 0 {
        Outcome::Drawn
    } else {
        Outcome::Ongoing
    }
}

/// Tells how a game stands: decided where the side that just moved has
/// won, drawn where it has not and no move is left, open otherwise.
pub fn judge(decided: bool, moves_left: usize) -> (outcome: Outcome)
    ensures
        outcome == judged(decided, moves_left as nat),
{
    if decided {
        Outcome::Decisive
    } else if moves_left == 0 {
        Outcome::Drawn
    } else {
        Outcome::Ongoing
    }
}

/// The rules of a deterministic two-player game of perfect information in
/// which the players move in turn.
///
/// A position is always seen from the side that is about to move in it, so
/// the search never asks which player that is.
pub trait Rules {
    /// A state of the game, seen from the side to move.
    type Position;

    /// A move that can be made in some position.
    type Action;

    /// Whether a position is one that the rules can be asked about.
    spec fn valid(&self, pos: &Self::Position) -> bool;

    /// The moves that the side to move may make, in the order in which
    /// they are enumerated.
    spec fn legal(&self, pos: &Self::Position) -> Seq<Self::Action>;

    /// How a position stands.
    spec fn outcome(&self, pos: &Self::Position) -> Outcome;

    /// Whether `next` is the position that `action` leads to from `pos`,
    /// seen from the side that moves next.
    spec fn follows(
        &self,
        pos: &Self::Position,
        action: Self::Action,
        next: &Self::Position,
    ) -> bool;

    /// An upper bound on the number of moves that can still be made.
    spec fn horizon(&self, pos: &Self::Position) -> nat;

    /// No move remains exactly when the game has ended, and no move is
    /// enumerated twice.
    proof fn lemma_moves_until_terminal(&self, pos: &Self::Position)
        requires
            self.valid(pos),
        ensures
            self.legal(pos).len() == 0 <==> self.outcome(pos).is_terminal(),
            self.legal(pos).no_duplicates(),
    ;

    /// A legal move leads to a valid position that is closer to the end of
    /// the game.
    proof fn lemma_successor(
        &self,
        pos: &Self::Position,
        action: Self::Action,
        next: &Self::Position,
    )
        requires
            self.valid(pos),
            self.legal(pos).contains(action),
            self.follows(pos, action, next),
        ensures
            self.valid(next),
            self.horizon(next) < self.horizon(pos),
    ;

    /// Enumerates the legal moves of a position.
    fn legal_actions(&self, pos: &Self::Position) -> (actions: Vec<Self::Action>)
        requires
            self.valid(pos),
        ensures
            actions@ == self.legal(pos),
    ;

    /// Makes a legal move and turns the result to the side that moves next.
    fn apply(&self, pos: &Self::Position, action: &Self::Action) -> (next: Self::Position)
        requires
            self.valid(pos),
            self.legal(pos).contains(*action),
        ensures
            self.follows(pos, *action, &next),
    ;

    /// Tells whether the game has ended in a position, and how.
    fn evaluate(&self, pos: &Self::Position) -> (outcome: Outcome)
        requires
            self.valid(pos),
        ensures
            outcome == self.outcome(pos),
    ;
}

/// The worth of a finished game to the side that would move next in it, in
/// half points: the weight of the outcome counts against that side.
pub open spec fn standing(outcome: Outcome) -> int {
    -(outcome.spec_value() as int)
}

/// Whether some line of legal moves from `pos` ends the game with worth
/// `value` to the side to move at `pos`.
///
/// Each move hands the turn to the other side, to which the same ending is
/// worth the opposite.
pub open spec fn line_value<G: Rules>(game: &G, pos: G::Position, value: int) -> bool
    decreases game.horizon(&pos),
{
    if game.outcome(&pos).is_terminal() {
        value == standing(game.outcome(&pos))
    } else {
        exists|action: G::Action, next: G::Position|
            game.legal(&pos).contains(action) && #[trigger] game.follows(&pos, action, &next)
                && game.horizon(&next) < game.horizon(&pos) && line_value(game, next, -value)
    }
}

/// The worth of a finished game to a side that stands a number of moves
/// before its end, in half points: `standing` for an even number of moves,
/// its opposite for an odd one.
pub open spec fn seen_from_spec(outcome: Outcome, odd: bool) -> int {
    if odd {
        -standing(outcome)
    } else {
        standing(outcome)
    }
}

/// Computes the worth of a finished game to a side that stands a number of
/// moves before its end; `odd` tells whether that number is odd.
pub fn seen_from(outcome: Outcome, odd: bool) -> (value: i64)
    ensures
        value == seen_from_spec(outcome, odd),
        -2 <= value <= 2,
{
    let weight: i64 = match outcome {
        Outcome::Ongoing => 0,
        Outcome::Drawn => 1,
        Outcome::Decisive => 2,
    };
    if odd {
        weight
    } else {
        -weight
    }
}

/// The move that a pick names among the legal moves: the one at the place
/// of the pick, counted round the list.
pub open spec fn picked<A>(moves: Seq<A>, pick: usize) -> A {
    moves[pick as int % moves.len() as int]
}

/// Whether `worth` is what the line of play from `pos` is worth to the
/// side to move there, where each turn takes the move that the next of
/// `picks`, from the place `from` on, names: the worth of the ending, as
/// that side sees it, or nothing if the picks run out before the game
/// ends.
pub open spec fn played_out<G: Rules>(
    game: &G,
    pos: G::Position,
    picks: Seq<usize>,
    from: int,
    worth: Option<int>,
) -> bool
    decreases picks.len() - from,
{
    if game.outcome(&pos).is_terminal() {
        worth == Some(standing(game.outcome(&pos)))
    } else if from < 0 || from >= picks.len() {
        worth is None
    } else {
        exists|next: G::Position| #[trigger]
            game.follows(&pos, picked(game.legal(&pos), picks[from]), &next) && played_out(
                game,
                next,
                picks,
                from + 1,
                match worth {
                    Some(value) => Some(-value),
                    None => None,
                },
            )
    }
}

/// Plays the game out from `pos` by the moves that `picks` names, from
/// the place `from` on, and tells what the ending is worth to the side to
/// move at `pos`; nothing if the picks run out before the game ends.
pub fn play_out<G: Rules>(game: &G, pos: &G::Position, picks: &Vec<usize>, from: usize) -> (worth:
    Option<i64>)
    requires
        game.valid(pos),
    ensures
        played_out(
            game,
            *pos,
            picks@,
            from as int,
            match worth {
                Some(value) => Some(value as int),
                None => None,
            },
        ),
        worth matches Some(value) ==> -2 <= value <= 2 && line_value(game, *pos, value as int),
    decreases picks.len() - from,
{
    let outcome = game.evaluate(pos);
    if outcome.is_terminal() {
        return Some(seen_from(outcome, false));
    }
    if from >= picks.len() {
        return None;
    }
    proof {
        game.lemma_moves_until_terminal(pos);
    }
    let moves = game.legal_actions(pos);
    let action = &moves[picks[from] % moves.len()];
    let next = game.apply(pos, action);
    proof {
        game.lemma_successor(pos, *action, &next);
    }
    let rest = play_out(game, &next, picks, from + 1);
    let worth = match rest {
        Some(value) => Some(-value),
        None => None,
    };
    proof {
        let seen: Option<int> = match worth {
            Some(value) => Some(value as int),
            None => None,
        };
        let turned: Option<int> = match seen {
            Some(value) => Some(-value),
            None => None,
        };
        assert(*action == picked(game.legal(pos), picks@[from as int]));
        assert(game.follows(pos, picked(game.legal(pos), picks@[from as int]), &next));
        assert(played_out(game, next, picks@, from + 1, turned));
    }
    worth
}

} // verus!
