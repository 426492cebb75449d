use mcts::text::{chomp, is_white_space, parse_move, parse_player, render};
use mcts::tictactoe::TicTacToe;

#[test]
fn a_board_is_written_row_by_row() {
    let game = TicTacToe::init();
    let state = game.create_state(vec![(0, 0, 1), (1, 1, -1), (2, 2, 1)]);
    let text: String = render(&state).into_iter().collect();
    assert_eq!(text, "\nX  -  -\n-  O  -\n-  -  X\n\n");
}

#[test]
fn an_empty_board_is_written_with_dashes() {
    let game = TicTacToe::init();
    let text: String = render(&game.get_initial_state()).into_iter().collect();
    assert_eq!(text, "\n-  -  -\n-  -  -\n-  -  -\n\n");
}

#[test]
fn a_player_is_named_by_its_letter() {
    assert_eq!(parse_player("x"), 1);
    assert_eq!(parse_player("X"), 1);
    assert_eq!(parse_player("o"), -1);
    assert_eq!(parse_player("O"), -1);
}

#[test]
fn white_space_around_the_letter_is_passed_over() {
    assert_eq!(parse_player("  x"), 1);
    assert_eq!(parse_player("O \t"), -1);
    assert_eq!(parse_player(" \u{a0}X\u{3000}\r\n"), 1);
}

#[test]
fn another_text_names_no_player() {
    assert_eq!(parse_player(""), 0);
    assert_eq!(parse_player("   "), 0);
    assert_eq!(parse_player("xx"), 0);
    assert_eq!(parse_player("x o"), 0);
    assert_eq!(parse_player("y"), 0);
    assert_eq!(parse_player("0"), 0);
}

#[test]
fn a_place_is_named_by_two_digits() {
    assert_eq!(parse_move("00"), Some((0, 0)));
    assert_eq!(parse_move("01"), Some((0, 1)));
    assert_eq!(parse_move("21"), Some((2, 1)));
    assert_eq!(parse_move("22"), Some((2, 2)));
}

#[test]
fn another_text_names_no_place() {
    assert_eq!(parse_move(""), None);
    assert_eq!(parse_move("0"), None);
    assert_eq!(parse_move("03"), None);
    assert_eq!(parse_move("30"), None);
    assert_eq!(parse_move("012"), None);
    assert_eq!(parse_move("0 1"), None);
    assert_eq!(parse_move("ab"), None);
    assert_eq!(parse_move("\u{661}\u{662}"), None);
}

#[test]
fn a_line_loses_its_end() {
    assert_eq!(chomp("01\n"), "01");
    assert_eq!(chomp("01\r\n"), "01");
    assert_eq!(chomp("01\r"), "01");
    assert_eq!(chomp("01"), "01");
    assert_eq!(chomp(""), "");
    assert_eq!(chomp("\n"), "");
}

#[test]
fn a_line_loses_one_end_only() {
    assert_eq!(chomp("x\n\n"), "x\n");
    assert_eq!(chomp("x\n\r"), "x\n");
    assert_eq!(chomp("x\r\r\n"), "x\r");
}

#[test]
fn white_space_is_what_unicode_calls_so() {
    for c in ['\t', '\n', '\u{b}', '\u{c}', '\r', ' ', '\u{85}', '\u{a0}', '\u{1680}', '\u{2000}', '\u{200a}', '\u{2028}', '\u{2029}', '\u{202f}', '\u{205f}', '\u{3000}'] {
        assert!(is_white_space(c));
    }
    for c in ['x', '0', '\u{8}', '\u{e}', '\u{200b}', '\u{feff}', '\u{1f}'] {
        assert!(!is_white_space(c));
    }
    for code in 0..0x11_0000u32 {
        if let Some(c) = char::from_u32(code) {
            assert_eq!(is_white_space(c), c.is_whitespace());
        }
    }
}

#[test]
fn a_grid_of_another_shape_is_written_as_it_is() {
    let game = TicTacToe { row_count: 2, column_count: 4 };
    let state = game.create_state(vec![(0, 3, -1), (1, 0, 1)]);
    let text: String = render(&state).into_iter().collect();
    assert_eq!(text, "\n-  -  -  O\nX  -  -  -\n\n");
    let single = TicTacToe { row_count: 1, column_count: 1 };
    let text: String = render(&single.get_initial_state()).into_iter().collect();
    assert_eq!(text, "\n-\n\n");
}
