use server::board::{AttackError, AttackOutcome, Board, Cell, PlacementError};
use server::ships::{Position, Ship, ShipType};

fn ship(x: u8, y: u8, is_vertical: bool, hp: u8) -> Ship {
    Ship { position: Position { x, y }, is_vertical, ship_type: ShipType::Small, hp }
}

fn cell(b: &Board, x: usize, y: usize) -> Cell {
    b.cells[x + 10 * y]
}

#[test]
fn place_valid_fleet_marks_ship_indices() {
    let mut b = Board::new();
    let fleet = vec![ship(0, 0, false, 3), ship(5, 5, true, 2)];
    assert_eq!(b.place(&fleet), Ok(()));
    assert_eq!(b.ships.len(), 2);
    assert_eq!(cell(&b, 0, 0), Cell::Occupied(0));
    assert_eq!(cell(&b, 1, 0), Cell::Occupied(0));
    assert_eq!(cell(&b, 2, 0), Cell::Occupied(0));
    assert_eq!(cell(&b, 3, 0), Cell::Empty);
    assert_eq!(cell(&b, 5, 5), Cell::Occupied(1));
    assert_eq!(cell(&b, 5, 6), Cell::Occupied(1));
    assert_eq!(cell(&b, 5, 7), Cell::Empty);
    let occupied = b.cells.iter().filter(|c| matches!(c, Cell::Occupied(_))).count();
    assert_eq!(occupied, 5);
}

#[test]
fn place_out_of_bounds_leaves_board_empty() {
    let mut b = Board::new();
    let fleet = vec![ship(0, 0, false, 1), ship(8, 0, false, 3)];
    assert_eq!(b.place(&fleet), Err(PlacementError::OutOfBounds(1)));
    assert!(b.ships.is_empty());
    assert!(b.cells.iter().all(|c| *c == Cell::Empty));
}

#[test]
fn place_overlap_leaves_board_empty() {
    let mut b = Board::new();
    let fleet = vec![ship(2, 2, false, 4), ship(3, 0, true, 4)];
    assert_eq!(b.place(&fleet), Err(PlacementError::Overlap(1)));
    assert!(b.ships.is_empty());
    assert!(b.cells.iter().all(|c| *c == Cell::Empty));
}

#[test]
fn place_zero_length_ship_is_out_of_bounds() {
    let mut b = Board::new();
    assert_eq!(b.place(&vec![ship(0, 0, false, 0)]), Err(PlacementError::OutOfBounds(0)));
}

#[test]
fn place_wrong_ship_count() {
    let mut b = Board::new();
    assert_eq!(b.place(&vec![]), Err(PlacementError::WrongShipCount));
    let many: Vec<Ship> = (0..11).map(|i| ship(0, i as u8 % 10, false, 1)).collect();
    assert_eq!(b.place(&many), Err(PlacementError::WrongShipCount));
}

#[test]
fn place_twice_is_refused() {
    let mut b = Board::new();
    assert_eq!(b.place(&vec![ship(0, 0, false, 1)]), Ok(()));
    assert_eq!(b.place(&vec![ship(4, 4, false, 1)]), Err(PlacementError::AlreadyPlaced));
    assert_eq!(cell(&b, 4, 4), Cell::Empty);
}

#[test]
fn place_full_width_ship_fits() {
    let mut b = Board::new();
    assert_eq!(b.place(&vec![ship(0, 9, false, 10)]), Ok(()));
    assert_eq!(cell(&b, 9, 9), Cell::Occupied(0));
}

#[test]
fn attack_miss_then_already_resolved() {
    let mut b = Board::new();
    b.place(&vec![ship(0, 0, false, 2)]).unwrap();
    assert_eq!(b.attack(5, 5), Ok(AttackOutcome::Miss));
    assert_eq!(cell(&b, 5, 5), Cell::Miss);
    let before = b.cells.clone();
    assert_eq!(b.attack(5, 5), Err(AttackError::AlreadyResolved));
    assert_eq!(b.cells, before);
}

#[test]
fn attack_hit_twice_is_already_resolved() {
    let mut b = Board::new();
    b.place(&vec![ship(0, 0, false, 2)]).unwrap();
    assert_eq!(b.attack(0, 0), Ok(AttackOutcome::Hit));
    let before = b.cells.clone();
    assert_eq!(b.attack(0, 0), Err(AttackError::AlreadyResolved));
    assert_eq!(b.cells, before);
}

#[test]
fn ship_sinks_exactly_at_its_length() {
    let mut b = Board::new();
    b.place(&vec![ship(2, 1, true, 3), ship(7, 7, false, 1)]).unwrap();
    assert_eq!(b.attack(2, 1), Ok(AttackOutcome::Hit));
    assert_eq!(cell(&b, 2, 1), Cell::Hit(0));
    assert_eq!(b.attack(2, 3), Ok(AttackOutcome::Hit));
    assert!(!b.cells.iter().any(|c| matches!(c, Cell::Sunk(_))));
    assert_eq!(b.attack(2, 2), Ok(AttackOutcome::Sunk(0)));
    assert_eq!(cell(&b, 2, 1), Cell::Sunk(0));
    assert_eq!(cell(&b, 2, 2), Cell::Sunk(0));
    assert_eq!(cell(&b, 2, 3), Cell::Sunk(0));
    assert!(!b.is_defeated());
    assert_eq!(b.attack(7, 7), Ok(AttackOutcome::Sunk(1)));
    assert!(b.is_defeated());
}

#[test]
fn attack_off_board_and_before_placement() {
    let mut b = Board::new();
    assert_eq!(b.attack(0, 0), Err(AttackError::WrongPhase));
    b.place(&vec![ship(0, 0, false, 1)]).unwrap();
    assert_eq!(b.attack(10, 0), Err(AttackError::OffBoard));
    assert_eq!(b.attack(0, 10), Err(AttackError::OffBoard));
}

#[test]
fn sunk_cell_cannot_be_shot_again() {
    let mut b = Board::new();
    b.place(&vec![ship(4, 4, false, 1), ship(0, 0, false, 1)]).unwrap();
    assert_eq!(b.attack(4, 4), Ok(AttackOutcome::Sunk(0)));
    assert_eq!(b.attack(4, 4), Err(AttackError::AlreadyResolved));
    assert_eq!(cell(&b, 4, 4), Cell::Sunk(0));
}

#[test]
fn to_string_draws_each_cell_state() {
    let mut b = Board::new();
    b.place(&vec![ship(0, 0, false, 2), ship(3, 0, false, 1), ship(0, 2, true, 1)]).unwrap();
    b.attack(9, 0).unwrap();
    b.attack(0, 0).unwrap();
    b.attack(3, 0).unwrap();
    let text = b.to_string();
    let rows: Vec<&str> = text.lines().collect();
    assert_eq!(rows.len(), 10);
    assert_eq!(rows[0], "+0-D-----x");
    assert_eq!(rows[1], "----------");
    assert_eq!(rows[2], "2---------");
    assert!(text.ends_with('\n'));
    assert_eq!(text.len(), 110);
}

#[test]
fn touching_ships_are_accepted() {
    let mut b = Board::new();
    assert_eq!(b.place(&vec![ship(0, 0, false, 3), ship(0, 1, false, 3), ship(3, 0, true, 2)]), Ok(()));
    assert_eq!(cell(&b, 0, 1), Cell::Occupied(1));
    assert_eq!(cell(&b, 3, 0), Cell::Occupied(2));
}
