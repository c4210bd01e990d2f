use go_engine::board::{IllegalMove, Move, Position, Stone};
use go_engine::game::Game;

fn place(x: usize, y: usize) -> Move {
    Move::Placement(Position { x, y })
}

#[test]
fn new_game_state() {
    let g = Game::new();
    assert_eq!(g.current_player(), Stone::Black);
    assert!(!g.has_finished());
    let b = g.current_board();
    assert_eq!(b.get(Position { x: 9, y: 9 }), None);
}

#[test]
fn placement_outside_board_rejected() {
    let mut g = Game::new();
    assert!(matches!(g.make_move(place(19, 5)), Err(IllegalMove::OutsideBoard)));
    assert!(matches!(g.make_move(place(5, 19)), Err(IllegalMove::OutsideBoard)));
    // history untouched: still Black to play on an empty board
    assert_eq!(g.current_player(), Stone::Black);
    assert_eq!(g.current_board().get(Position { x: 0, y: 0 }), None);
}

#[test]
fn occupied_cell_rejected() {
    let mut g = Game::new();
    g.make_move(place(3, 3)).unwrap();
    assert!(matches!(g.make_move(place(3, 3)), Err(IllegalMove::Occupied)));
    // the black stone is still there and it is still White's turn
    assert_eq!(g.current_board().get(Position { x: 3, y: 3 }), Some(Stone::Black));
    assert_eq!(g.current_player(), Stone::White);
}

#[test]
fn one_pass_does_not_finish_two_do() {
    let mut g = Game::new();
    assert!(!g.has_finished());
    g.make_move(Move::Pass).unwrap();
    assert!(!g.has_finished());
    g.make_move(Move::Pass).unwrap();
    assert!(g.has_finished());
}

#[test]
fn passes_split_by_a_placement_do_not_finish() {
    let mut g = Game::new();
    g.make_move(Move::Pass).unwrap();
    g.make_move(place(3, 3)).unwrap();
    assert!(!g.has_finished());
    g.make_move(Move::Pass).unwrap();
    assert!(!g.has_finished());
    g.make_move(Move::Pass).unwrap();
    assert!(g.has_finished());
}

#[test]
fn players_alternate_whatever_the_moves() {
    let mut g = Game::new();
    assert_eq!(g.current_player(), Stone::Black);
    g.make_move(place(0, 0)).unwrap();
    assert_eq!(g.current_player(), Stone::White);
    g.make_move(Move::Pass).unwrap();
    assert_eq!(g.current_player(), Stone::Black);
    g.make_move(Move::Pass).unwrap();
    assert_eq!(g.current_player(), Stone::White);
    g.make_move(place(5, 5)).unwrap();
    assert_eq!(g.current_player(), Stone::Black);
    g.make_move(place(6, 6)).unwrap();
    assert_eq!(g.current_player(), Stone::White);
}

#[test]
fn pass_keeps_the_board() {
    let mut g = Game::new();
    g.make_move(place(4, 4)).unwrap();
    g.make_move(Move::Pass).unwrap();
    assert_eq!(g.current_board().get(Position { x: 4, y: 4 }), Some(Stone::Black));
}

#[test]
fn suicide_through_game_rejected() {
    let mut g = Game::new();
    g.make_move(place(1, 0)).unwrap(); // black
    g.make_move(place(9, 9)).unwrap(); // white elsewhere
    g.make_move(place(0, 1)).unwrap(); // black
    // white plays into the corner: surrounded, nothing captured
    assert!(matches!(g.make_move(place(0, 0)), Err(IllegalMove::Suicidal)));
    assert_eq!(g.current_board().get(Position { x: 0, y: 0 }), None);
    assert_eq!(g.current_player(), Stone::White);
}

#[test]
fn capture_through_game() {
    let mut g = Game::new();
    g.make_move(place(1, 0)).unwrap(); // black
    g.make_move(place(0, 0)).unwrap(); // white into the corner
    g.make_move(place(0, 1)).unwrap(); // black takes the last liberty
    let b = g.current_board();
    assert_eq!(b.get(Position { x: 0, y: 0 }), None);
    assert_eq!(b.get(Position { x: 1, y: 0 }), Some(Stone::Black));
    assert_eq!(b.get(Position { x: 0, y: 1 }), Some(Stone::Black));
}

#[test]
fn ko_recapture_rejected_until_the_board_differs() {
    let mut g = Game::new();
    g.make_move(place(1, 2)).unwrap(); // black
    g.make_move(place(4, 2)).unwrap(); // white
    g.make_move(place(2, 1)).unwrap(); // black
    g.make_move(place(3, 1)).unwrap(); // white
    g.make_move(place(2, 3)).unwrap(); // black
    g.make_move(place(3, 3)).unwrap(); // white
    g.make_move(Move::Pass).unwrap(); // black
    g.make_move(place(2, 2)).unwrap(); // white fills the ko shape
    // black captures the white stone at (2, 2)
    g.make_move(place(3, 2)).unwrap();
    assert_eq!(g.current_board().get(Position { x: 2, y: 2 }), None);
    assert_eq!(g.current_board().get(Position { x: 3, y: 2 }), Some(Stone::Black));
    // an immediate recapture would restore the earlier board: rejected
    assert!(matches!(g.make_move(place(2, 2)), Err(IllegalMove::Ko)));
    assert_eq!(g.current_board().get(Position { x: 3, y: 2 }), Some(Stone::Black));
    assert_eq!(g.current_player(), Stone::White);
    // after an intervening move elsewhere the recapture is legal
    g.make_move(place(9, 9)).unwrap(); // white
    g.make_move(Move::Pass).unwrap(); // black
    g.make_move(place(2, 2)).unwrap(); // white recaptures now
    let b = g.current_board();
    assert_eq!(b.get(Position { x: 3, y: 2 }), None);
    assert_eq!(b.get(Position { x: 2, y: 2 }), Some(Stone::White));
}

#[test]
fn capture_enables_escape_through_game() {
    let mut g = Game::new();
    g.make_move(place(1, 2)).unwrap(); // black
    g.make_move(place(4, 2)).unwrap(); // white
    g.make_move(place(2, 1)).unwrap(); // black
    g.make_move(place(3, 1)).unwrap(); // white
    g.make_move(place(2, 3)).unwrap(); // black
    g.make_move(place(3, 3)).unwrap(); // white
    g.make_move(Move::Pass).unwrap(); // black
    g.make_move(place(2, 2)).unwrap(); // white
    // every neighbour of (3, 2) is white, yet the move is legal: it
    // captures the white stone at (2, 2) first
    assert!(g.make_move(place(3, 2)).is_ok());
    assert_eq!(g.current_board().get(Position { x: 2, y: 2 }), None);
}

#[test]
fn play_goes_on_after_two_passes_unless_the_caller_stops() {
    let mut g = Game::new();
    g.make_move(Move::Pass).unwrap();
    g.make_move(Move::Pass).unwrap();
    assert!(g.has_finished());
    // the engine leaves stopping to the caller
    assert!(g.make_move(place(0, 0)).is_ok());
    assert!(!g.has_finished());
}
