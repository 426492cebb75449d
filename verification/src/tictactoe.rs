//! The rules of tic-tac-toe on a grid of three by three cells.
//!
//! A cell holds 1 for a mark of one player, -1 for a mark of the other and
//! 0 while it is empty.

use crate::game::{judge, judged, Outcome, Rules};
use crate::grid::{blank, column, grid_cells, negated, placed, rectangular, small, total};
use crate::grid::{turnable, Grid};
use crate::grid::{grid_negated, grid_rows, grid_set, grid_sum_axis, grid_zeros};
use vstd::prelude::*;

verus! {

/// The game of tic-tac-toe. Its grids have `row_count` rows and
/// `column_count` columns; the game is played on three of each.
#[derive(Debug)]
pub struct TicTacToe {
    pub row_count: usize,
    pub column_count: usize,
}

/// Whether `cells` is a board of three by three cells that hold marks or
/// nothing.
pub open spec fn is_board(cells: Seq<Seq<i8>>) -> bool {
    rectangular(cells, 3, 3) && small(cells)
}

/// Whether the cells of some row, column or diagonal of a board add up to
/// `target`.
pub open spec fn has_line(cells: Seq<Seq<i8>>, target: int) -> bool {
    ||| cells[0][0] + cells[0][1] + cells[0][2] == target
    ||| cells[1][0] + cells[1][1] + cells[1][2] == target
    ||| cells[2][0] + cells[2][1] + cells[2][2] == target
    ||| cells[0][0] + cells[1][0] + cells[2][0] == target
    ||| cells[0][1] + cells[1][1] + cells[2][1] == target
    ||| cells[0][2] + cells[1][2] + cells[2][2] == target
    ||| cells[0][0] + cells[1][1] + cells[2][2] == target
    ||| cells[0][2] + cells[1][1] + cells[2][0] == target
}

/// The empty places among the first `upto` cells of row `r`, from left to
/// right.
pub open spec fn row_empties(row: Seq<i8>, r: usize, upto: int) -> Seq<(usize, usize)>
    decreases upto,
{
    if upto <= 0 {
        Seq::empty()
    } else if row[upto - 1] == 0 {
        row_empties(row, r, upto - 1).push((r, (upto - 1) as usize))
    } else {
        row_empties(row, r, upto - 1)
    }
}

/// The empty places in the first `upto` rows, row by row.
pub open spec fn empties_upto(cells: Seq<Seq<i8>>, upto: int) -> Seq<(usize, usize)>
    decreases upto,
{
    if upto <= 0 {
        Seq::empty()
    } else {
        empties_upto(cells, upto - 1) + row_empties(
            cells[upto - 1],
            (upto - 1) as usize,
            cells[upto - 1].len() as int,
        )
    }
}

/// The empty places of a grid as `(row, column)`, row by row and from left
/// to right.
pub open spec fn empties(cells: Seq<Seq<i8>>) -> Seq<(usize, usize)> {
    empties_upto(cells, cells.len() as int)
}

/// How a board stands once `player` has moved: decided if the player has
/// three marks in a line, drawn if no place is left, open otherwise.
pub open spec fn verdict(cells: Seq<Seq<i8>>, player: i8) -> Outcome {
    judged(has_line(cells, 3 * player), empties(cells).len())
}

/// `cells` after the marks of `moves` have been placed one after the
/// other; a move is `(row, column, mark)`.
pub open spec fn placed_all(cells: Seq<Seq<i8>>, moves: Seq<(usize, usize, i8)>) -> Seq<Seq<i8>>
    decreases moves.len(),
{
    if moves.len() == 0 {
        cells
    } else {
        placed(
            placed_all(cells, moves.drop_last()),
            moves.last().0 as int,
            moves.last().1 as int,
            moves.last().2,
        )
    }
}

/// The sum of a lane of three cells.
proof fn lemma_total_of_three(lane: Seq<i8>)
    requires
        lane.len() == 3,
    ensures
        total(lane) == lane[0] + lane[1] + lane[2],
{
    let two = lane.drop_last();
    let one = two.drop_last();
    assert(total(one.drop_last()) == 0);
    assert(total(two) == total(one) + two.last());
}

/// Whether `target` is among `values`.
fn holds(values: &Vec<i8>, target: i8) -> (found: bool)
    ensures
        found == values@.contains(target),
{
    let mut i: usize = 0;
    while i < values.len()
        invariant
            i <= values.len(),
            forall|k: int| 0 <= k < i ==> values@[k] != target,
        decreases values.len() - i,
    {
        if values[i] == target {
            return true;
        }
        i += 1;
    }
    false
}

impl TicTacToe {
    /// The game on three rows and three columns.
    pub fn init() -> (game: TicTacToe)
        ensures
            game.row_count == 3,
            game.column_count == 3,
    {
        TicTacToe { row_count: 3, column_count: 3 }
    }

    /// The grid with every place empty.
    pub fn get_initial_state(&self) -> (state: Grid)
        requires
            self.row_count <= isize::MAX,
            self.column_count <= isize::MAX,
            self.row_count * self.column_count <= isize::MAX,
        ensures
            grid_cells(state) == blank(self.row_count as nat, self.column_count as nat),
    {
        grid_zeros(self.row_count, self.column_count)
    }

    /// The grid with the mark of `player` at `action`, which is `(row,
    /// column)`; the given grid stays as it is.
    pub fn apply_move(&self, state: &Grid, player: i8, action: (usize, usize)) -> (next: Grid)
        requires
            action.0 < grid_cells(*state).len(),
            action.1 < grid_cells(*state)[action.0 as int].len(),
        ensures
            grid_cells(next) == placed(
                grid_cells(*state),
                action.0 as int,
                action.1 as int,
                player,
            ),
    {
        let mut next_state = state.clone();
        let row = action.0;
        let column = action.1;
        grid_set(&mut next_state, row, column, player);
        next_state
    }

    /// The same as `apply_move`.
    pub fn get_next_state(&self, state: &Grid, action: &(usize, usize), player: i8) -> (next: Grid)
        requires
            action.0 < grid_cells(*state).len(),
            action.1 < grid_cells(*state)[action.0 as int].len(),
        ensures
            grid_cells(next) == placed(
                grid_cells(*state),
                action.0 as int,
                action.1 as int,
                player,
            ),
    {
        self.apply_move(state, player, *action)
    }

    /// The grid seen from the other side: every mark becomes the other
    /// player's.
    pub fn change_perspective(&self, state: &Grid) -> (turned: Grid)
        requires
            turnable(grid_cells(*state)),
        ensures
            grid_cells(turned) == negated(grid_cells(*state)),
    {
        grid_negated(state)
    }

    /// The empty grid with the given marks placed on it, one after the
    /// other; a later mark replaces an earlier one at the same place.
    pub fn create_state(&self, player_coordinates: Vec<(usize, usize, i8)>) -> (state: Grid)
        requires
            self.row_count <= isize::MAX,
            self.column_count <= isize::MAX,
            self.row_count * self.column_count <= isize::MAX,
            forall|k: int|
                0 <= k < player_coordinates.len() ==> (#[trigger] player_coordinates[k]).0
                    < self.row_count && player_coordinates[k].1 < self.column_count,
        ensures
            grid_cells(state) == placed_all(
                blank(self.row_count as nat, self.column_count as nat),
                player_coordinates@,
            ),
    {
        let mut state = self.get_initial_state();
        let mut k: usize = 0;
        while k < player_coordinates.len()
            invariant
                k <= player_coordinates.len(),
                rectangular(grid_cells(state), self.row_count as nat, self.column_count as nat),
                grid_cells(state) == placed_all(
                    blank(self.row_count as nat, self.column_count as nat),
                    player_coordinates@.take(k as int),
                ),
                forall|k: int|
                    0 <= k < player_coordinates.len() ==> (#[trigger] player_coordinates[k]).0
                        < self.row_count && player_coordinates[k].1 < self.column_count,
            decreases player_coordinates.len() - k,
        {
            let coordinate_player = player_coordinates[k];
            let row = coordinate_player.0;
            let column = coordinate_player.1;
            proof {
                let done = player_coordinates@.take(k as int);
                let more = player_coordinates@.take(k + 1);
                assert(more.drop_last() =~= done);
            }
            state = self.apply_move(&state, coordinate_player.2, (row, column));
            k += 1;
        }
        assert(player_coordinates@.take(k as int) =~= player_coordinates@);
        state
    }

    /// Whether `player` has three marks in a row, a column or a diagonal.
    pub fn check_win(&self, state: &Grid, player: i8) -> (won: bool)
        requires
            is_board(grid_cells(*state)),
            -42 <= player <= 42,
        ensures
            won == has_line(grid_cells(*state), 3 * player),
    {
        let ghost cells = grid_cells(*state);
        let summed_columns = grid_sum_axis(state, 0);
        let summed_rows = grid_sum_axis(state, 1);
        let target = player * 3;
        let win_on_any_column = holds(&summed_columns, target);
        let win_on_any_row = holds(&summed_rows, target);
        let rows = grid_rows(state);
        let diagonal_summed = rows[0][0] + rows[1][1] + rows[2][2];
        let diagonal_inversed_summed = rows[0][2] + rows[1][1] + rows[2][0];
        let diagonal_win = diagonal_summed == target;
        let diagonal_inversed_win = diagonal_inversed_summed == target;
        proof {
            lemma_total_of_three(cells[0]);
            lemma_total_of_three(cells[1]);
            lemma_total_of_three(cells[2]);
            lemma_total_of_three(column(cells, 0));
            lemma_total_of_three(column(cells, 1));
            lemma_total_of_three(column(cells, 2));
            assert(summed_columns@[0] == total(column(cells, 0)));
            assert(summed_columns@[1] == total(column(cells, 1)));
            assert(summed_columns@[2] == total(column(cells, 2)));
            assert(summed_rows@[0] == total(cells[0]));
            assert(summed_rows@[1] == total(cells[1]));
            assert(summed_rows@[2] == total(cells[2]));
        }
        win_on_any_column || win_on_any_row || diagonal_win || diagonal_inversed_win
    }

    /// The empty places as `(row, column)`, row by row and from left to
    /// right.
    pub fn get_legal_moves(&self, state: &Grid) -> (moves: Vec<(usize, usize)>)
        ensures
            moves@ == empties(grid_cells(*state)),
    {
        let ghost cells = grid_cells(*state);
        let rows = grid_rows(state);
        let mut moves: Vec<(usize, usize)> = Vec::new();
        let mut r: usize = 0;
        while r < rows.len()
            invariant
                r <= rows.len(),
                rows@.len() == cells.len(),
                forall|i: int| 0 <= i < rows@.len() ==> (#[trigger] rows@[i])@ == cells[i],
                moves@ == empties_upto(cells, r as int),
            decreases rows.len() - r,
        {
            let row = &rows[r];
            let ghost before = moves@;
            let mut c: usize = 0;
            while c < row.len()
                invariant
                    c <= row.len(),
                    row@ == cells[r as int],
                    moves@ == before + row_empties(cells[r as int], r, c as int),
                decreases row.len() - c,
            {
                if row[c] == 0 {
                    moves.push((r, c));
                }
                c += 1;
            }
            r += 1;
        }
        moves
    }

    /// Whether a grid is a board of the game: three rows of three cells
    /// that hold marks or nothing.
    pub fn is_state(&self, state: &Grid) -> (board: bool)
        ensures
            board == is_board(grid_cells(*state)),
    {
        let ghost cells = grid_cells(*state);
        let rows = grid_rows(state);
        if rows.len() != 3 {
            return false;
        }
        let mut i: usize = 0;
        while i < 3
            invariant
                i <= 3,
                cells == grid_cells(*state),
                rows@.len() == 3,
                cells.len() == 3,
                forall|r: int| 0 <= r < 3 ==> (#[trigger] rows@[r])@ == cells[r],
                forall|r: int, c: int|
                    0 <= r < i && 0 <= c < 3 ==> cells[r].len() == 3 && -1 <= #[trigger] cells[r][c]
                        <= 1,
                forall|r: int| 0 <= r < i ==> (#[trigger] cells[r]).len() == 3,
            decreases 3 - i,
        {
            let row = &rows[i];
            if row.len() != 3 {
                assert(cells[i as int].len() != 3);
                return false;
            }
            let mut j: usize = 0;
            while j < 3
                invariant
                    j <= 3,
                    i < 3,
                    cells == grid_cells(*state),
                    cells.len() == 3,
                    row@ == cells[i as int],
                    row@.len() == 3,
                    forall|c: int| 0 <= c < j ==> -1 <= #[trigger] cells[i as int][c] <= 1,
                decreases 3 - j,
            {
                if row[j] < -1 || row[j] > 1 {
                    assert(!(-1 <= cells[i as int][j as int] <= 1));
                    return false;
                }
                j += 1;
            }
            i += 1;
        }
        true
    }

    /// The board as `player` sees it, with its own marks as 1: the
    /// position from which a search for that player starts.
    pub fn as_seen_by(&self, state: &Grid, player: i8) -> (seen: Grid)
        requires
            turnable(grid_cells(*state)),
        ensures
            grid_cells(seen) == seen_by(grid_cells(*state), player),
    {
        if player == 1 {
            state.clone()
        } else {
            self.change_perspective(state)
        }
    }

    /// How the game stands once `player` has moved.
    pub fn get_value_and_terminated(&self, state: &Grid, player: i8) -> (outcome: Outcome)
        requires
            is_board(grid_cells(*state)),
            -42 <= player <= 42,
        ensures
            outcome == verdict(grid_cells(*state), player),
    {
        judge(self.check_win(state, player), self.get_legal_moves(state).len())
    }
}

/// One if the place in row `i` and column `j` is empty, zero if it is
/// not.
pub open spec fn blank_at(cells: Seq<Seq<i8>>, i: int, j: int) -> nat {
    if cells[i][j] == 0 {
        1
    } else {
        0
    }
}

/// The number of empty places of a board.
pub open spec fn blanks(cells: Seq<Seq<i8>>) -> nat {
    blank_at(cells, 0, 0) + blank_at(cells, 0, 1) + blank_at(cells, 0, 2) + blank_at(cells, 1, 0)
        + blank_at(cells, 1, 1) + blank_at(cells, 1, 2) + blank_at(cells, 2, 0) + blank_at(
        cells,
        2,
        1,
    ) + blank_at(cells, 2, 2)
}

/// The board as the side to move sees it after it has put its mark at
/// `action`: the marks of the side to move are 1, so the mark is placed as
/// 1 and the board is then turned to the other side.
pub open spec fn moved(cells: Seq<Seq<i8>>, action: (usize, usize)) -> Seq<Seq<i8>> {
    negated(placed(cells, action.0 as int, action.1 as int, 1))
}

/// The board as `player` sees it, with its own marks as 1: the board
/// itself for player 1, the turned board for the other player.
pub open spec fn seen_by(cells: Seq<Seq<i8>>, player: i8) -> Seq<Seq<i8>> {
    if player == 1 {
        cells
    } else {
        negated(cells)
    }
}

/// What is among the empty places of the start of a row.
proof fn lemma_row_empties(row: Seq<i8>, r: usize, upto: int)
    requires
        0 <= upto <= row.len() <= usize::MAX,
    ensures
        forall|p: (usize, usize)| #[trigger]
            row_empties(row, r, upto).contains(p) <==> p.0 == r && p.1 < upto && row[p.1 as int]
                == 0,
        row_empties(row, r, upto).no_duplicates(),
    decreases upto,
{
    if upto > 0 {
        lemma_row_empties(row, r, upto - 1);
        let rest = row_empties(row, r, upto - 1);
        let place = (r, (upto - 1) as usize);
        if row[upto - 1] == 0 {
            assert(!rest.contains(place));
            assert forall|p: (usize, usize)| #[trigger]
                rest.push(place).contains(p) <==> p.0 == r && p.1 < upto && row[p.1 as int]
                    == 0 by {
                if p == place {
                    assert(rest.push(place)[rest.len() as int] == p);
                } else if rest.contains(p) {
                    let k = choose|k: int| 0 <= k < rest.len() && rest[k] == p;
                    assert(rest.push(place)[k] == p);
                }
            }
        }
    }
}

/// What is among the empty places of the first rows.
proof fn lemma_empties_upto(cells: Seq<Seq<i8>>, upto: int)
    requires
        0 <= upto <= cells.len() <= usize::MAX,
        forall|i: int| 0 <= i < cells.len() ==> (#[trigger] cells[i]).len() <= usize::MAX,
    ensures
        forall|p: (usize, usize)| #[trigger]
            empties_upto(cells, upto).contains(p) <==> p.0 < upto && p.1 < cells[p.0 as int].len()
                && cells[p.0 as int][p.1 as int] == 0,
        empties_upto(cells, upto).no_duplicates(),
    decreases upto,
{
    if upto > 0 {
        lemma_empties_upto(cells, upto - 1);
        let r = (upto - 1) as usize;
        let row = cells[upto - 1];
        lemma_row_empties(row, r, row.len() as int);
        let above = empties_upto(cells, upto - 1);
        let here = row_empties(row, r, row.len() as int);
        assert forall|i: int, j: int| 0 <= i < above.len() && 0 <= j < here.len() implies above[i]
            != here[j] by {
            assert(above.contains(above[i]));
            assert(here.contains(here[j]));
        }
        vstd::seq_lib::lemma_no_dup_in_concat(above, here);
        assert forall|p: (usize, usize)| #[trigger]
            (above + here).contains(p) <==> p.0 < upto && p.1 < cells[p.0 as int].len()
                && cells[p.0 as int][p.1 as int] == 0 by {
            if above.contains(p) {
                let k = choose|k: int| 0 <= k < above.len() && above[k] == p;
                assert((above + here)[k] == p);
            }
            if here.contains(p) {
                let k = choose|k: int| 0 <= k < here.len() && here[k] == p;
                assert((above + here)[above.len() + k] == p);
            }
        }
    }
}

/// The empty places of a grid are the places that hold zero, each once.
pub proof fn lemma_empties(cells: Seq<Seq<i8>>)
    requires
        cells.len() <= usize::MAX,
        forall|i: int| 0 <= i < cells.len() ==> (#[trigger] cells[i]).len() <= usize::MAX,
    ensures
        forall|p: (usize, usize)| #[trigger]
            empties(cells).contains(p) <==> p.0 < cells.len() && p.1 < cells[p.0 as int].len()
                && cells[p.0 as int][p.1 as int] == 0,
        empties(cells).no_duplicates(),
{
    lemma_empties_upto(cells, cells.len() as int);
}

/// A board that has an empty place has a place in `empties`.
pub proof fn lemma_blanks_are_empties(cells: Seq<Seq<i8>>)
    requires
        is_board(cells),
    ensures
        blanks(cells) == 0 <==> empties(cells).len() == 0,
{
    lemma_empties(cells);
    let found = empties(cells);
    if found.len() > 0 {
        assert(found.contains(found[0]));
    }
    assert forall|i: usize, j: usize| i < 3 && j < 3 && cells[i as int][j as int] == 0 implies found.len()
        > 0 by {
        assert(found.contains((i, j)));
    }
}

/// A mark on an empty place leaves a board with one empty place less.
pub proof fn lemma_marked(cells: Seq<Seq<i8>>, action: (usize, usize), player: i8)
    requires
        is_board(cells),
        action.0 < 3,
        action.1 < 3,
        cells[action.0 as int][action.1 as int] == 0,
        player == 1 || player == -1,
    ensures
        is_board(placed(cells, action.0 as int, action.1 as int, player)),
        blanks(placed(cells, action.0 as int, action.1 as int, player)) + 1 == blanks(cells),
{
    let next = placed(cells, action.0 as int, action.1 as int, player);
    assert forall|i: int, j: int| 0 <= i < 3 && 0 <= j < 3 implies #[trigger] blank_at(next, i, j)
        == if i == action.0 && j == action.1 {
        0
    } else {
        blank_at(cells, i, j)
    } by {}
    assert(blank_at(cells, action.0 as int, action.1 as int) == 1);
}

/// A row has the same empty places seen from either side.
proof fn lemma_turned_row(cells: Seq<Seq<i8>>, i: int, upto: int)
    requires
        small(cells),
        0 <= i < cells.len(),
        0 <= upto <= cells[i].len(),
    ensures
        row_empties(negated(cells)[i], i as usize, upto) == row_empties(cells[i], i as usize, upto),
    decreases upto,
{
    if upto > 0 {
        lemma_turned_row(cells, i, upto - 1);
    }
}

/// The first rows have the same empty places seen from either side.
proof fn lemma_turned_rows(cells: Seq<Seq<i8>>, upto: int)
    requires
        small(cells),
        0 <= upto <= cells.len(),
    ensures
        empties_upto(negated(cells), upto) == empties_upto(cells, upto),
    decreases upto,
{
    if upto > 0 {
        lemma_turned_rows(cells, upto - 1);
        lemma_turned_row(cells, upto - 1, cells[upto - 1].len() as int);
    }
}

/// A board seen from the other side is a board on which every mark has
/// become the other player's.
pub proof fn lemma_turned_cells(cells: Seq<Seq<i8>>)
    requires
        is_board(cells),
    ensures
        is_board(negated(cells)),
        forall|i: int, j: int|
            0 <= i < 3 && 0 <= j < 3 ==> #[trigger] negated(cells)[i][j] == -cells[i][j],
{
}

/// A board that is turned twice is the board itself.
pub proof fn lemma_turned_twice(cells: Seq<Seq<i8>>)
    requires
        is_board(cells),
    ensures
        negated(negated(cells)) == cells,
{
    let turned = negated(cells);
    lemma_turned_cells(cells);
    lemma_turned_cells(turned);
    assert forall|i: int| 0 <= i < 3 implies #[trigger] negated(turned)[i] =~= cells[i] by {}
    assert(negated(turned) =~= cells);
}

/// A line of one side is a line of the other side on the turned board.
pub proof fn lemma_turned_line(cells: Seq<Seq<i8>>, target: int)
    requires
        is_board(cells),
    ensures
        has_line(negated(cells), -target) == has_line(cells, target),
{
    lemma_turned_cells(cells);
}

/// A board has the same empty places seen from either side.
pub proof fn lemma_turned_empties(cells: Seq<Seq<i8>>)
    requires
        is_board(cells),
    ensures
        empties(negated(cells)) == empties(cells),
        blanks(negated(cells)) == blanks(cells),
{
    lemma_turned_cells(cells);
    lemma_turned_rows(cells, 3);
}

/// The side to move's own mark on an empty place leaves, seen from the
/// other side, a board with one empty place less.
pub proof fn lemma_moved(cells: Seq<Seq<i8>>, action: (usize, usize))
    requires
        is_board(cells),
        action.0 < 3,
        action.1 < 3,
        cells[action.0 as int][action.1 as int] == 0,
    ensures
        is_board(moved(cells, action)),
        blanks(moved(cells, action)) + 1 == blanks(cells),
{
    lemma_marked(cells, action, 1);
    lemma_turned_cells(placed(cells, action.0 as int, action.1 as int, 1));
    lemma_turned_empties(placed(cells, action.0 as int, action.1 as int, 1));
}

/// The game does not know its players apart: a board with `player` to
/// move is to the search what the board with the marks exchanged is with
/// the other player to move, and the two stand alike once their players
/// have moved.
pub proof fn lemma_perspective_symmetry(cells: Seq<Seq<i8>>, player: i8)
    requires
        is_board(cells),
        player == 1 || player == -1,
    ensures
        seen_by(negated(cells), (-player) as i8) == seen_by(cells, player),
        verdict(negated(cells), (-player) as i8) == verdict(cells, player),
        empties(negated(cells)) == empties(cells),
{
    lemma_turned_twice(cells);
    lemma_turned_empties(cells);
    lemma_turned_line(cells, 3 * player);
}

impl Rules for TicTacToe {
    type Position = Grid;

    type Action = (usize, usize);

    open spec fn valid(&self, pos: &Grid) -> bool {
        is_board(grid_cells(*pos))
    }

    open spec fn legal(&self, pos: &Grid) -> Seq<(usize, usize)> {
        if has_line(grid_cells(*pos), -3) {
            Seq::empty()
        } else {
            empties(grid_cells(*pos))
        }
    }

    open spec fn outcome(&self, pos: &Grid) -> Outcome {
        verdict(grid_cells(*pos), -1i8)
    }

    open spec fn follows(&self, pos: &Grid, action: (usize, usize), next: &Grid) -> bool {
        grid_cells(*next) == moved(grid_cells(*pos), action)
    }

    open spec fn horizon(&self, pos: &Grid) -> nat {
        blanks(grid_cells(*pos))
    }

    proof fn lemma_moves_until_terminal(&self, pos: &Grid) {
        lemma_empties(grid_cells(*pos));
    }

    proof fn lemma_successor(&self, pos: &Grid, action: (usize, usize), next: &Grid) {
        lemma_empties(grid_cells(*pos));
        lemma_moved(grid_cells(*pos), action);
    }

    fn legal_actions(&self, pos: &Grid) -> (actions: Vec<(usize, usize)>) {
        if self.check_win(pos, -1) {
            Vec::new()
        } else {
            self.get_legal_moves(pos)
        }
    }

    fn apply(&self, pos: &Grid, action: &(usize, usize)) -> (next: Grid) {
        proof {
            lemma_empties(grid_cells(*pos));
        }
        let marked = self.apply_move(pos, 1, *action);
        self.change_perspective(&marked)
    }

    fn evaluate(&self, pos: &Grid) -> (outcome: Outcome) {
        self.get_value_and_terminated(pos, -1)
    }
}

} // verus!
