use socketing::tictactoe::{check_for_win, mark_for_turn, parse_move, place_mark, MARK_O, MARK_X};

#[test]
fn empty_board_has_no_winner() {
    let game: [[u8; 3]; 3] = [[b'.'; 3]; 3];
    assert_eq!(check_for_win(&game), None);
}

#[test]
fn full_row_of_x_wins() {
    let game: [[u8; 3]; 3] = [[b'.', b'o', b'.'], [b'x', b'x', b'x'], [b'o', b'.', b'o']];
    assert_eq!(check_for_win(&game), Some(b'x'));
}

#[test]
fn full_row_of_o_wins() {
    let game: [[u8; 3]; 3] = [[b'x', b'.', b'x'], [b'.', b'x', b'.'], [b'o', b'o', b'o']];
    assert_eq!(check_for_win(&game), Some(b'o'));
}

#[test]
fn first_full_row_decides() {
    let game: [[u8; 3]; 3] = [[b'o', b'o', b'o'], [b'.', b'.', b'.'], [b'x', b'x', b'x']];
    assert_eq!(check_for_win(&game), Some(b'o'));
}

#[test]
fn columns_and_diagonals_are_not_counted() {
    let column: [[u8; 3]; 3] = [[b'x', b'.', b'.'], [b'x', b'o', b'.'], [b'x', b'.', b'o']];
    assert_eq!(check_for_win(&column), None);
    let diagonal: [[u8; 3]; 3] = [[b'o', b'x', b'.'], [b'x', b'o', b'.'], [b'.', b'x', b'o']];
    assert_eq!(check_for_win(&diagonal), None);
}

#[test]
fn mixed_row_does_not_win() {
    let game: [[u8; 3]; 2] = [[b'x', b'x', b'o'], [b'o', b'o', b'x']];
    assert_eq!(check_for_win(&game), None);
}

#[test]
fn marks_alternate_by_turn() {
    assert_eq!(mark_for_turn(0), MARK_X);
    assert_eq!(mark_for_turn(1), MARK_O);
    assert_eq!(mark_for_turn(2), MARK_X);
    assert_eq!(mark_for_turn(7), MARK_O);
    assert_eq!(MARK_X, b'x');
    assert_eq!(MARK_O, b'o');
}

#[test]
fn placing_overwrites_one_cell() {
    let mut game: [[u8; 3]; 3] = [[b'.'; 3]; 3];
    place_mark(&mut game, 1, 2, 0);
    assert_eq!(game, [[b'.', b'.', b'.'], [b'.', b'.', b'x'], [b'.', b'.', b'.']]);
    place_mark(&mut game, 1, 2, 1);
    assert_eq!(game[1][2], b'o');
}

#[test]
fn a_game_is_won_along_a_row() {
    let mut game: [[u8; 3]; 3] = [[b'.'; 3]; 3];
    let moves = ["1 1\n", "2 1\n", "1 2\n", "2 2\n", "1 3\n"];
    let mut turn: u64 = 0;
    let mut winner = None;
    for line in moves {
        let (r, c) = parse_move(line).unwrap();
        place_mark(&mut game, r, c, turn);
        winner = check_for_win(&game);
        turn += 1;
    }
    assert_eq!(winner, Some(b'x'));
}

#[test]
fn moves_are_parsed_from_one_based_coordinates() {
    assert_eq!(parse_move("1 2\n"), Some((0, 1)));
    assert_eq!(parse_move("  3 3  \r\n"), Some((2, 2)));
    assert_eq!(parse_move("+1 2"), Some((0, 1)));
    assert_eq!(parse_move("001 3"), Some((0, 2)));
    assert_eq!(parse_move("1 2 3"), Some((0, 1)));
    assert_eq!(parse_move("\u{a0}2 1\u{3000}"), Some((1, 0)));
}

#[test]
fn bad_moves_are_refused() {
    assert_eq!(parse_move("0 1"), None);
    assert_eq!(parse_move("4 1"), None);
    assert_eq!(parse_move("1"), None);
    assert_eq!(parse_move("1  2"), None);
    assert_eq!(parse_move("1\t2"), None);
    assert_eq!(parse_move("a b"), None);
    assert_eq!(parse_move("-1 2"), None);
    assert_eq!(parse_move("+ 2"), None);
    assert_eq!(parse_move("99999999999999999999999 1"), None);
    assert_eq!(parse_move(""), None);
}
