use go_engine::board::{Board, IllegalMove, Position, Stone};

fn pos(x: usize, y: usize) -> Position {
    Position { x, y }
}

#[test]
fn empty_board_has_no_stones() {
    let b = Board::empty();
    assert_eq!(b.get(pos(0, 0)), None);
    assert_eq!(b.get(pos(18, 18)), None);
    assert_eq!(b.get(pos(9, 9)), None);
}

#[test]
fn is_valid_position_bounds() {
    let b = Board::empty();
    assert!(b.is_valid_position(pos(0, 0)));
    assert!(b.is_valid_position(pos(18, 18)));
    assert!(!b.is_valid_position(pos(19, 0)));
    assert!(!b.is_valid_position(pos(0, 19)));
    assert!(!b.is_valid_position(pos(25, 25)));
}

#[test]
fn get_outside_board_is_none() {
    let b = Board::empty();
    assert_eq!(b.get(pos(19, 3)), None);
    assert_eq!(b.get(pos(3, 19)), None);
}

#[test]
fn put_outside_board_rejected() {
    let b = Board::empty();
    assert!(matches!(b.put(pos(19, 0), Stone::Black), Err(IllegalMove::OutsideBoard)));
    assert!(matches!(b.put(pos(0, 19), Stone::White), Err(IllegalMove::OutsideBoard)));
    assert!(matches!(b.put(pos(100, 100), Stone::Black), Err(IllegalMove::OutsideBoard)));
}

#[test]
fn put_places_a_stone() {
    let b = Board::empty();
    let b2 = b.put(pos(3, 3), Stone::Black).unwrap();
    assert_eq!(b2.get(pos(3, 3)), Some(Stone::Black));
    assert_eq!(b2.get(pos(3, 4)), None);
    // the original board is an unchanged value
    assert_eq!(b.get(pos(3, 3)), None);
}

#[test]
fn put_occupied_rejected() {
    let b = Board::empty().put(pos(3, 3), Stone::Black).unwrap();
    assert!(matches!(b.put(pos(3, 3), Stone::White), Err(IllegalMove::Occupied)));
    assert!(matches!(b.put(pos(3, 3), Stone::Black), Err(IllegalMove::Occupied)));
    // the board still holds the first stone
    assert_eq!(b.get(pos(3, 3)), Some(Stone::Black));
}

#[test]
fn neighbour_counts() {
    let b = Board::empty();
    assert_eq!(b.get_neighbours(pos(0, 0)).len(), 2);
    assert_eq!(b.get_neighbours(pos(18, 18)).len(), 2);
    assert_eq!(b.get_neighbours(pos(0, 9)).len(), 3);
    assert_eq!(b.get_neighbours(pos(9, 9)).len(), 4);
    assert_eq!(b.get_neighbours(pos(19, 9)).len(), 0);
}

#[test]
fn neighbours_do_not_wrap() {
    let b = Board::empty();
    let ns = b.get_neighbours(pos(0, 0));
    for n in &ns {
        assert!(n.x < 19 && n.y < 19);
        assert!((n.x == 1 && n.y == 0) || (n.x == 0 && n.y == 1));
    }
}

#[test]
fn group_of_connected_stones() {
    let mut b = Board::empty();
    b = b.put(pos(5, 5), Stone::Black).unwrap();
    b = b.put(pos(5, 6), Stone::Black).unwrap();
    b = b.put(pos(6, 5), Stone::Black).unwrap();
    b = b.put(pos(10, 10), Stone::Black).unwrap();
    let g = b.get_group(pos(5, 5));
    assert_eq!(g.len(), 3);
    assert!(g.contains(&pos(5, 5)));
    assert!(g.contains(&pos(5, 6)));
    assert!(g.contains(&pos(6, 5)));
    assert!(!g.contains(&pos(10, 10)));
}

#[test]
fn liberties_of_corner_stone() {
    let b = Board::empty().put(pos(0, 0), Stone::Black).unwrap();
    let libs = b.get_liberties(pos(0, 0));
    assert_eq!(libs.len(), 2);
    let g = b.get_group(pos(0, 0));
    let glibs = b.get_group_liberties(&g);
    assert_eq!(glibs.len(), 2);
}

#[test]
fn group_liberties_are_a_union() {
    let mut b = Board::empty();
    b = b.put(pos(5, 5), Stone::Black).unwrap();
    b = b.put(pos(6, 5), Stone::Black).unwrap();
    let g = b.get_group(pos(5, 5));
    let glibs = b.get_group_liberties(&g);
    // two stones in a row in the middle: 6 distinct liberties
    assert_eq!(glibs.len(), 6);
}

#[test]
fn suicide_in_corner_rejected() {
    let mut b = Board::empty();
    b = b.put(pos(1, 0), Stone::Black).unwrap();
    b = b.put(pos(0, 1), Stone::Black).unwrap();
    assert!(matches!(b.put(pos(0, 0), Stone::White), Err(IllegalMove::Suicidal)));
    // nothing changed
    assert_eq!(b.get(pos(0, 0)), None);
    assert_eq!(b.get(pos(1, 0)), Some(Stone::Black));
    assert_eq!(b.get(pos(0, 1)), Some(Stone::Black));
}

#[test]
fn capture_in_corner() {
    let mut b = Board::empty();
    b = b.put(pos(0, 0), Stone::White).unwrap();
    b = b.put(pos(1, 0), Stone::Black).unwrap();
    b = b.put(pos(0, 1), Stone::Black).unwrap();
    // the white stone's last liberty was taken: it is gone
    assert_eq!(b.get(pos(0, 0)), None);
    assert_eq!(b.get(pos(1, 0)), Some(Stone::Black));
    assert_eq!(b.get(pos(0, 1)), Some(Stone::Black));
}

#[test]
fn capture_two_groups_at_once() {
    let mut b = Board::empty();
    b = b.put(pos(0, 0), Stone::White).unwrap();
    b = b.put(pos(0, 2), Stone::White).unwrap();
    b = b.put(pos(1, 0), Stone::Black).unwrap();
    b = b.put(pos(1, 2), Stone::Black).unwrap();
    b = b.put(pos(0, 3), Stone::Black).unwrap();
    // one placement takes the last liberty of both white stones
    b = b.put(pos(0, 1), Stone::Black).unwrap();
    assert_eq!(b.get(pos(0, 0)), None);
    assert_eq!(b.get(pos(0, 2)), None);
    assert_eq!(b.get(pos(0, 1)), Some(Stone::Black));
}

#[test]
fn capture_enables_otherwise_suicidal_placement() {
    let mut b = Board::empty();
    // black wall west of (3, 2), white wall east of (2, 2)
    b = b.put(pos(1, 2), Stone::Black).unwrap();
    b = b.put(pos(2, 1), Stone::Black).unwrap();
    b = b.put(pos(2, 3), Stone::Black).unwrap();
    b = b.put(pos(4, 2), Stone::White).unwrap();
    b = b.put(pos(3, 1), Stone::White).unwrap();
    b = b.put(pos(3, 3), Stone::White).unwrap();
    b = b.put(pos(2, 2), Stone::White).unwrap();
    // every neighbour of (3, 2) is white, but the placement captures
    // the white stone at (2, 2) first and so is legal
    let after = b.put(pos(3, 2), Stone::Black).unwrap();
    assert_eq!(after.get(pos(2, 2)), None);
    assert_eq!(after.get(pos(3, 2)), Some(Stone::Black));
}

#[test]
fn boards_compare_by_contents() {
    let a = Board::empty().put(pos(3, 3), Stone::Black).unwrap();
    let b = Board::empty().put(pos(3, 3), Stone::Black).unwrap();
    let c = Board::empty().put(pos(3, 4), Stone::Black).unwrap();
    assert!(a.equals(&b));
    assert!(!a.equals(&c));
    assert!(Board::empty().equals(&Board::empty()));
}

#[test]
fn matrix_mirrors_the_grid() {
    let b = Board::empty().put(pos(2, 7), Stone::White).unwrap();
    let m = b.matrix();
    assert_eq!(m.len(), 19);
    for row in &m {
        assert_eq!(row.len(), 19);
    }
    assert_eq!(m[7][2], Some(Stone::White));
    assert_eq!(m[2][7], None);
    assert_eq!(m[0][0], None);
}

#[test]
fn duplicate_copies_every_cell() {
    let b = Board::empty().put(pos(4, 9), Stone::Black).unwrap();
    let d = b.duplicate();
    assert!(b.equals(&d));
    assert_eq!(d.get(pos(4, 9)), Some(Stone::Black));
}

#[test]
fn opposite_colours() {
    assert_eq!(Stone::Black.opposite(), Stone::White);
    assert_eq!(Stone::White.opposite(), Stone::Black);
}
