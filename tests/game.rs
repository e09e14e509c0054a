use server::board::{AttackError, AttackOutcome, Cell, PlacementError};
use server::game::{Game, GameStatus, RoomError};
use server::ships::{Position, Ship, ShipType, Ships};

fn fleet_at(x: u8, y: u8) -> Ships {
    Ships {
        ships: vec![Ship { position: Position { x, y }, is_vertical: false, ship_type: ShipType::Medium, hp: 2 }],
    }
}

fn started(p1_first: bool) -> Game {
    let mut g = Game::create_with_turn(&"room".to_string(), &"a".to_string(), p1_first);
    g.join(&"b".to_string()).unwrap();
    g.add_ships(&fleet_at(0, 0), &"a".to_string()).unwrap();
    g.add_ships(&fleet_at(5, 5), &"b".to_string()).unwrap();
    g
}

#[test]
fn create_waits_for_second_player() {
    let g = Game::create(&"room".to_string(), &"a".to_string());
    assert_eq!(g.status, GameStatus::Waiting);
    assert_eq!(g.player1, "a");
    assert!(g.player2.is_none());
    assert!(g.p1_board.ships.is_empty() && g.p2_board.ships.is_empty());
}

#[test]
fn create_with_turn_keeps_coin() {
    assert!(Game::create_with_turn(&"r".to_string(), &"a".to_string(), true).is_p1_turn);
    assert!(!Game::create_with_turn(&"r".to_string(), &"a".to_string(), false).is_p1_turn);
}

#[test]
fn join_fills_seat_then_room_full() {
    let mut g = Game::create_with_turn(&"room".to_string(), &"a".to_string(), true);
    assert_eq!(g.join(&"a".to_string()), Err(RoomError::SelfJoin));
    assert_eq!(g.status, GameStatus::Waiting);
    assert_eq!(g.join(&"b".to_string()), Ok(()));
    assert_eq!(g.player2.as_deref(), Some("b"));
    assert_eq!(g.status, GameStatus::PlacingShips);
    assert_eq!(g.join(&"c".to_string()), Err(RoomError::RoomFull));
    assert_eq!(g.player2.as_deref(), Some("b"));
}

#[test]
fn placement_phase_and_seat_checks() {
    let mut g = Game::create_with_turn(&"room".to_string(), &"a".to_string(), true);
    assert_eq!(g.add_ships(&fleet_at(0, 0), &"a".to_string()), Err(PlacementError::WrongPhase));
    g.join(&"b".to_string()).unwrap();
    assert_eq!(g.add_ships(&fleet_at(0, 0), &"z".to_string()), Err(PlacementError::NotAPlayer));
    assert_eq!(g.add_ships(&fleet_at(0, 0), &"a".to_string()), Ok(()));
    assert_eq!(g.status, GameStatus::PlacingShips);
    assert_eq!(g.add_ships(&fleet_at(3, 3), &"a".to_string()), Err(PlacementError::AlreadyPlaced));
    assert_eq!(g.add_ships(&fleet_at(5, 5), &"b".to_string()), Ok(()));
    assert_eq!(g.status, GameStatus::Started);
    assert_eq!(g.add_ships(&fleet_at(5, 5), &"b".to_string()), Err(PlacementError::WrongPhase));
}

#[test]
fn attack_checks_phase_player_and_turn() {
    let mut g = Game::create_with_turn(&"room".to_string(), &"a".to_string(), true);
    assert_eq!(g.attack(&"a".to_string(), 0, 0).unwrap_err(), AttackError::WrongPhase);
    let mut g2 = started(true);
    assert_eq!(g2.attack(&"z".to_string(), 0, 0).unwrap_err(), AttackError::NotAPlayer);
    assert_eq!(g2.attack(&"b".to_string(), 0, 0).unwrap_err(), AttackError::NotYourTurn);
    let shot = g2.attack(&"a".to_string(), 9, 9).unwrap();
    assert_eq!(shot.outcome, AttackOutcome::Miss);
    assert_eq!((shot.x, shot.y), (9, 9));
    assert_eq!(g2.p2_board.cells[99], Cell::Miss);
    assert_eq!(g.status, GameStatus::Waiting);
}

#[test]
fn turns_alternate_from_coin_flip() {
    for p1_first in [true, false] {
        let mut g = started(p1_first);
        let (first, second) = if p1_first { ("a", "b") } else { ("b", "a") };
        assert!(g.attack(&first.to_string(), 9, 9).is_ok());
        assert_eq!(g.is_p1_turn, !p1_first);
        assert_eq!(g.attack(&first.to_string(), 9, 8).unwrap_err(), AttackError::NotYourTurn);
        assert!(g.random_attack(&second.to_string()).is_ok());
        assert_eq!(g.is_p1_turn, p1_first);
        assert!(g.attack(&first.to_string(), 9, 8).is_ok());
        assert_eq!(g.is_p1_turn, !p1_first);
    }
}

#[test]
fn refused_shot_keeps_turn() {
    let mut g = started(true);
    g.attack(&"a".to_string(), 9, 9).unwrap();
    g.attack(&"b".to_string(), 9, 9).unwrap();
    assert_eq!(g.attack(&"a".to_string(), 9, 9).unwrap_err(), AttackError::AlreadyResolved);
    assert!(g.is_p1_turn);
}

#[test]
fn sinking_last_ship_finishes_with_winner() {
    let mut g = started(true);
    assert_eq!(g.attack(&"a".to_string(), 5, 5).unwrap().outcome, AttackOutcome::Hit);
    g.attack(&"b".to_string(), 9, 9).unwrap();
    let shot = g.attack(&"a".to_string(), 6, 5).unwrap();
    assert_eq!(shot.outcome, AttackOutcome::Sunk(0));
    assert_eq!(shot.winner.as_deref(), Some("a"));
    assert_eq!(g.status, GameStatus::Finished);
    assert_eq!(g.attack(&"b".to_string(), 0, 0).unwrap_err(), AttackError::WrongPhase);
}

#[test]
fn random_attack_with_picks_the_nth_open_cell() {
    let mut g = started(true);
    let shot = g.random_attack_with(&"a".to_string(), 0).unwrap();
    assert_eq!((shot.x, shot.y), (0, 0));
    g.attack(&"b".to_string(), 9, 9).unwrap();
    let shot = g.random_attack_with(&"a".to_string(), 100).unwrap();
    assert_eq!((shot.x, shot.y), (2, 0));
}

#[test]
fn random_attack_hits_only_open_cells() {
    let mut g = started(true);
    let mut shots = 0;
    for _ in 0..200 {
        let shooter = if g.is_p1_turn { "a" } else { "b" };
        match g.random_attack(&shooter.to_string()) {
            Ok(_) => shots += 1,
            Err(e) => panic!("unexpected {:?}", e),
        }
        if g.status == GameStatus::Finished {
            break;
        }
    }
    assert_eq!(g.status, GameStatus::Finished);
    assert!(shots <= 200);
}

#[test]
fn exhausted_board_is_reported() {
    let mut g = started(true);
    let mut resolved = 0;
    for i in 0..100u8 {
        let (x, y) = (i % 10, i / 10);
        if y == 5 && (x == 5 || x == 6) {
            continue;
        }
        g.p2_board.cells[i as usize] = Cell::Miss;
        resolved += 1;
    }
    g.p2_board.cells[55] = Cell::Sunk(0);
    g.p2_board.cells[56] = Cell::Sunk(0);
    assert_eq!(resolved, 98);
    assert_eq!(g.random_attack_with(&"a".to_string(), 3).unwrap_err(), AttackError::BoardExhausted);
}
