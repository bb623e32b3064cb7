use tictactoe::ui::UI;

#[test]
fn parse_move_reads_two_numbers() {
    let ui = UI::new();
    assert_eq!(ui.parse_move("1 2"), Some((1, 2)));
    assert_eq!(ui.parse_move("  3\t4\n"), Some((3, 4)));
    assert_eq!(ui.parse_move("+5 06"), Some((5, 6)));
}

#[test]
fn parse_move_rejects_other_input() {
    let ui = UI::default();
    assert_eq!(ui.parse_move(""), None);
    assert_eq!(ui.parse_move("1"), None);
    assert_eq!(ui.parse_move("1 2 3"), None);
    assert_eq!(ui.parse_move("a 2"), None);
    assert_eq!(ui.parse_move("-1 2"), None);
    assert_eq!(ui.parse_move("+ 2"), None);
    assert_eq!(ui.parse_move("99999999999999999999999 1"), None);
}
