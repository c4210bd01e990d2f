use go_engine::board::{Board, Move, Position, Stone};
use go_engine::text::{format_board, parse_move};

#[test]
fn parse_pass_any_case_and_padding() {
    assert_eq!(parse_move("pass".to_string()), Ok(Move::Pass));
    assert_eq!(parse_move("PASS".to_string()), Ok(Move::Pass));
    assert_eq!(parse_move("Pass".to_string()), Ok(Move::Pass));
    assert_eq!(parse_move("  pass \n".to_string()), Ok(Move::Pass));
}

#[test]
fn parse_column_and_row() {
    assert_eq!(
        parse_move("a 1".to_string()),
        Ok(Move::Placement(Position { x: 0, y: 0 }))
    );
    assert_eq!(
        parse_move("A 1".to_string()),
        Ok(Move::Placement(Position { x: 0, y: 0 }))
    );
    assert_eq!(
        parse_move("j 10".to_string()),
        Ok(Move::Placement(Position { x: 9, y: 9 }))
    );
    assert_eq!(
        parse_move("s 19\n".to_string()),
        Ok(Move::Placement(Position { x: 18, y: 18 }))
    );
    // letters and rows beyond the grid still parse; the engine rejects
    // the placement itself as outside the board
    assert_eq!(
        parse_move("z 26".to_string()),
        Ok(Move::Placement(Position { x: 25, y: 25 }))
    );
}

#[test]
fn parse_rejects_malformed_input() {
    assert_eq!(parse_move("".to_string()), Err(()));
    assert_eq!(parse_move("   ".to_string()), Err(()));
    assert_eq!(parse_move("a".to_string()), Err(()));
    assert_eq!(parse_move("a  3".to_string()), Err(()));
    assert_eq!(parse_move("a 0".to_string()), Err(()));
    assert_eq!(parse_move("a 27".to_string()), Err(()));
    assert_eq!(parse_move("a 03".to_string()), Err(()));
    assert_eq!(parse_move("3 a".to_string()), Err(()));
    assert_eq!(parse_move("ab 3".to_string()), Err(()));
    assert_eq!(parse_move("a 3 b".to_string()), Err(()));
    assert_eq!(parse_move("passs".to_string()), Err(()));
}

#[test]
fn format_empty_board() {
    let mut expected = String::new();
    for y in 0..19 {
        for _ in 0..19 {
            expected.push_str(" .");
        }
        expected.push_str(&format!("{}\n", y + 1));
    }
    for x in 0..19u8 {
        expected.push(' ');
        expected.push((b'A' + x) as char);
    }
    assert_eq!(format_board(&Board::empty()), expected);
}

#[test]
fn format_shows_stones() {
    let b = Board::empty()
        .put(Position { x: 0, y: 0 }, Stone::Black)
        .unwrap()
        .put(Position { x: 1, y: 0 }, Stone::White)
        .unwrap();
    let s = format_board(&b);
    assert!(s.starts_with(" * o ."));
    // distinct boards render distinctly
    assert_ne!(s, format_board(&Board::empty()));
}
