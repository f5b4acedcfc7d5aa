use minesweeper_solver::tui::{
    parse_decimal_word, split_words, white_space, GameStatus, LineOutcome, TuiMinesweeperGame,
};

#[test]
fn parses_a_click() {
    let g = TuiMinesweeperGame::new(5, 5, 3);
    assert_eq!(g.parse_input("c 1 2"), Some(('c', 1, 2)));
    assert_eq!(g.parse_input("  flag\t+3   40 "), Some(('f', 3, 40)));
}

#[test]
fn rejects_malformed_commands() {
    let g = TuiMinesweeperGame::new(5, 5, 3);
    assert_eq!(g.parse_input(""), None);
    assert_eq!(g.parse_input("c 1"), None);
    assert_eq!(g.parse_input("c 1 2 3"), None);
    assert_eq!(g.parse_input("c x 2"), None);
    assert_eq!(g.parse_input("c 1 -2"), None);
    assert_eq!(g.parse_input("c + 2"), None);
    assert_eq!(g.parse_input("c 1 99999999999999999999999"), None);
}

#[test]
fn numbers_read_like_std() {
    for word in ["0", "17", "+5", "007", "+", "", "-1", "1a", "18446744073709551615", "18446744073709551616"] {
        let chars: Vec<char> = word.chars().collect();
        assert_eq!(parse_decimal_word(&chars), word.parse::<usize>().ok(), "{}", word);
    }
}

#[test]
fn words_split_like_std() {
    for line in ["a b", "  a\u{3000}bc \n d ", "", "   ", "x\u{85}y\u{a0}z"] {
        let ours: Vec<String> = split_words(line).into_iter().map(|w| w.into_iter().collect()).collect();
        let theirs: Vec<String> = line.split_whitespace().map(|w| w.to_string()).collect();
        assert_eq!(ours, theirs);
    }
}

#[test]
fn white_space_agrees_with_std() {
    for c in ['\u{0}', 'a', ' ', '\t', '\n', '\u{b}', '\u{c}', '\r', '\u{85}', '\u{a0}', '\u{1680}', '\u{180e}', '\u{2000}', '\u{200a}', '\u{200b}', '\u{2028}', '\u{2029}', '\u{202f}', '\u{205f}', '\u{3000}', '\u{feff}'] {
        assert_eq!(white_space(c), c.is_whitespace(), "{:?}", c);
    }
}

#[test]
fn actions_click_and_flag() {
    let mut g = TuiMinesweeperGame::new(4, 4, 15);
    assert!(g.handle_action('f', 5));
    assert_eq!(g.status(), GameStatus::Created);
    assert!(!g.handle_action('x', 5));
    assert!(g.handle_action('c', 0));
    assert_eq!(g.status(), GameStatus::Playing);
    g.check_win();
    assert_eq!(g.status(), GameStatus::Won);
    assert!(g.is_over());
}

#[test]
fn a_mine_loses_without_showing_the_others() {
    let mut g = TuiMinesweeperGame::new(2, 2, 3);
    g.handle_click(0);
    assert!(!g.is_over());
    g.handle_click(3);
    assert_eq!(g.status(), GameStatus::Lost);
    assert!(g.is_over());
    assert_eq!(g.board().to_string(), "3 ■ \n■ ■ \n");
}

#[test]
fn lines_of_play() {
    let mut g = TuiMinesweeperGame::new(3, 3, 8);
    assert_eq!(g.play_line("q"), LineOutcome::Quit);
    assert_eq!(g.play_line("hello"), LineOutcome::Invalid);
    assert_eq!(g.play_line("c 3 2"), LineOutcome::OffBoard);
    assert_eq!(g.play_line("c 0 18446744073709551615"), LineOutcome::OffBoard);
    assert_eq!(g.play_line("z 7 7"), LineOutcome::UnknownAction('z'));
    assert_eq!(g.status(), GameStatus::Created);
    assert_eq!(g.play_line("f 0 0"), LineOutcome::Played);
    assert_eq!(g.play_line("c 1 1"), LineOutcome::Played);
    assert_eq!(g.status(), GameStatus::Won);
    assert_eq!(g.board().to_string(), "🚩■ ■ \n■ 8 ■ \n■ ■ ■ \n");
}
