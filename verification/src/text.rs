//! What a player reads and types: boards as text, and the lines that name
//! a player or a place.

use crate::grid::{grid_cells, Grid};
use vstd::prelude::*;
use vstd::string::*;

verus! {

/// The sign that stands for a cell: `X` for a mark of player 1, `O` for a
/// mark of the other player, `-` for an empty place.
pub open spec fn sign(cell: i8) -> char {
    if cell > 0 {
        'X'
    } else if cell < 0 {
        'O'
    } else {
        '-'
    }
}

/// The signs of the first `upto` cells of a row, two blanks between each
/// two.
pub open spec fn row_signs(row: Seq<i8>, upto: int) -> Seq<char>
    decreases upto,
{
    if upto <= 0 {
        Seq::empty()
    } else if upto == 1 {
        seq![sign(row[0])]
    } else {
        row_signs(row, upto - 1) + seq![' ', ' ', sign(row[upto - 1])]
    }
}

/// The lines of the first `upto` rows, each ended by a line feed.
pub open spec fn rows_text(cells: Seq<Seq<i8>>, upto: int) -> Seq<char>
    decreases upto,
{
    if upto <= 0 {
        Seq::empty()
    } else {
        rows_text(cells, upto - 1) + row_signs(cells[upto - 1], cells[upto - 1].len() as int)
            + seq!['\n']
    }
}

/// A board as text: an empty line, a line for each row, an empty line.
pub open spec fn board_text(cells: Seq<Seq<i8>>) -> Seq<char> {
    seq!['\n'] + rows_text(cells, cells.len() as int) + seq!['\n']
}

/// Writes a board as text.
pub fn render(state: &Grid) -> (text: Vec<char>)
    ensures
        text@ == board_text(grid_cells(*state)),
{
    let ghost cells = grid_cells(*state);
    let rows = state.rows();
    let mut text: Vec<char> = Vec::new();
    text.push('\n');
    let mut i: usize = 0;
    while i < rows.len()
        invariant
            i <= rows.len(),
            rows@.len() == cells.len(),
            forall|r: int| 0 <= r < rows@.len() ==> (#[trigger] rows@[r])@ == cells[r],
            text@ == seq!['\n'] + rows_text(cells, i as int),
        decreases rows.len() - i,
    {
        let row = &rows[i];
        let ghost before = text@;
        let mut j: usize = 0;
        while j < row.len()
            invariant
                j <= row.len(),
                row@ == cells[i as int],
                text@ == before + row_signs(cells[i as int], j as int),
            decreases row.len() - j,
        {
            let cell = row[j];
            if j > 0 {
                text.push(' ');
                text.push(' ');
            }
            if cell > 0 {
                text.push('X');
            } else if cell < 0 {
                text.push('O');
            } else {
                text.push('-');
            }
            j += 1;
        }
        text.push('\n');
        i += 1;
    }
    text.push('\n');
    text
}

/// Whether a character is white space, as Unicode has it.
pub open spec fn is_space(c: char) -> bool {
    let code = c as u32;
    ||| 0x09 <= code <= 0x0d
    ||| code == 0x20
    ||| code == 0x85
    ||| code == 0xa0
    ||| code == 0x1680
    ||| 0x2000 <= code <= 0x200a
    ||| code == 0x2028
    ||| code == 0x2029
    ||| code == 0x202f
    ||| code == 0x205f
    ||| code == 0x3000
}

/// Tells whether a character is white space.
pub fn is_white_space(c: char) -> (space: bool)
    ensures
        space == is_space(c),
{
    let code = c as u32;
    (0x09 <= code && code <= 0x0d) || code == 0x20 || code == 0x85 || code == 0xa0 || code
        == 0x1680 || (0x2000 <= code && code <= 0x200a) || code == 0x2028 || code == 0x2029 || code
        == 0x202f || code == 0x205f || code == 0x3000
}

/// Whether a text is the letter `letter` with nothing but white space
/// before and after it.
pub open spec fn names(text: Seq<char>, letter: char) -> bool {
    exists|at: int|
        {
            &&& 0 <= at < text.len()
            &&& #[trigger] text[at] == letter
            &&& forall|k: int| 0 <= k < text.len() && k != at ==> is_space(#[trigger] text[k])
        }
}

/// The player that a text names: 1 for `x`, -1 for `o`, in either case
/// and with white space around it or without; 0 for any other text.
pub open spec fn player_named(text: Seq<char>) -> i8 {
    if names(text, 'x') || names(text, 'X') {
        1i8
    } else if names(text, 'o') || names(text, 'O') {
        -1i8
    } else {
        0i8
    }
}

/// Reads the player that a line names.
pub fn parse_player(input: &str) -> (player: i8)
    ensures
        player == player_named(input@),
{
    let ghost text = input@;
    let len = input.unicode_len();
    let mut start: usize = 0;
    while start < len && is_white_space(input.get_char(start))
        invariant
            len == text.len(),
            text == input@,
            start <= len,
            forall|k: int| 0 <= k < start ==> is_space(#[trigger] text[k]),
        decreases len - start,
    {
        start += 1;
    }
    let mut end: usize = len;
    while end > start && is_white_space(input.get_char(end - 1))
        invariant
            len == text.len(),
            text == input@,
            start <= end <= len,
            forall|k: int| end <= k < len ==> is_space(#[trigger] text[k]),
        decreases end,
    {
        end -= 1;
    }
    if end - start != 1 {
        proof {
            assert forall|letter: char| !is_space(letter) implies !names(text, letter) by {
                if names(text, letter) {
                    let at = choose|at: int|
                        {
                            &&& 0 <= at < text.len()
                            &&& #[trigger] text[at] == letter
                            &&& forall|k: int|
                                0 <= k < text.len() && k != at ==> is_space(#[trigger] text[k])
                        };
                    assert(start <= at < end);
                    assert(!is_space(text[start as int]));
                    assert(!is_space(text[end - 1]));
                }
            }
        }
        return 0;
    }
    let letter = input.get_char(start);
    proof {
        assert(!is_space(letter));
        assert forall|k: int| 0 <= k < text.len() && k != start implies is_space(
            #[trigger] text[k],
        ) by {}
        assert(names(text, letter));
        assert forall|other: char| other != letter && !is_space(other) implies !names(
            text,
            other,
        ) by {
            if names(text, other) {
                let at = choose|at: int|
                    {
                        &&& 0 <= at < text.len()
                        &&& #[trigger] text[at] == other
                        &&& forall|k: int|
                            0 <= k < text.len() && k != at ==> is_space(#[trigger] text[k])
                    };
                assert(at == start);
            }
        }
    }
    if letter == 'x' || letter == 'X' {
        1
    } else if letter == 'o' || letter == 'O' {
        -1
    } else {
        0
    }
}

/// The number that a digit of a place stands for, if it is one of `0`,
/// `1` and `2`.
pub open spec fn digit(c: char) -> Option<usize> {
    if c == '0' {
        Some(0usize)
    } else if c == '1' {
        Some(1usize)
    } else if c == '2' {
        Some(2usize)
    } else {
        None
    }
}

/// The place that a text names: the row and then the column, each as one
/// digit from 0 to 2 and with nothing else in the text.
pub open spec fn place_named(text: Seq<char>) -> Option<(usize, usize)> {
    if text.len() == 2 && digit(text[0]) is Some && digit(text[1]) is Some {
        Some((digit(text[0])->0, digit(text[1])->0))
    } else {
        None
    }
}

/// Reads one digit of a place.
fn parse_digit(c: char) -> (number: Option<usize>)
    ensures
        number == digit(c),
{
    if c == '0' {
        Some(0)
    } else if c == '1' {
        Some(1)
    } else if c == '2' {
        Some(2)
    } else {
        None
    }
}

/// Reads the place that a line names.
pub fn parse_move(input: &str) -> (place: Option<(usize, usize)>)
    ensures
        place == place_named(input@),
{
    if input.unicode_len() != 2 {
        return None;
    }
    match (parse_digit(input.get_char(0)), parse_digit(input.get_char(1))) {
        (Some(row), Some(column)) => Some((row, column)),
        _ => None,
    }
}

/// A line without its end: without one line feed at its end, and then
/// without one carriage return at its end.
pub open spec fn chomped(line: Seq<char>) -> Seq<char> {
    let fed = if line.len() > 0 && line.last() == '\n' {
        line.drop_last()
    } else {
        line
    };
    if fed.len() > 0 && fed.last() == '\r' {
        fed.drop_last()
    } else {
        fed
    }
}

/// Takes the end off a line that was read.
pub fn chomp(line: &str) -> (text: &str)
    ensures
        text@ == chomped(line@),
{
    let len = line.unicode_len();
    let mut end = len;
    if end > 0 && line.get_char(end - 1) == '\n' {
        end -= 1;
    }
    if end > 0 && line.get_char(end - 1) == '\r' {
        end -= 1;
    }
    let text = line.substring_char(0, end);
    assert(text@ =~= chomped(line@));
    text
}

} // verus!
