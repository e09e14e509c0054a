use server::board::{AttackError, AttackOutcome, PlacementError};
use server::events::{Payload, ServerEvent};
use server::game::{GameStatus, RoomError};
use server::ships::{Position, Ship, ShipType, Ships};
use server::state::{handle_disconnect, handle_event, tick, ClientEvent, CommandError, State};

fn small_at(x: u8, y: u8) -> Ships {
    Ships { ships: vec![Ship { position: Position { x, y }, is_vertical: false, ship_type: ShipType::Small, hp: 1 }] }
}

fn s(v: &str) -> String {
    v.to_string()
}

fn lobby_of(events: &[ServerEvent]) -> Vec<(String, Vec<String>)> {
    let last = events
        .iter()
        .rev()
        .find_map(|e| match e {
            ServerEvent::All(Payload::LobbyUpdated(rooms)) => Some(rooms.clone()),
            _ => None,
        })
        .expect("a lobby update");
    last.into_iter().map(|r| (r.room_id, r.players.into_iter().map(|p| p.name).collect())).collect()
}

#[test]
fn register_is_idempotent_per_connection() {
    let mut st = State::default();
    let a = st.add_user(&s("conn-a"), &s("Alice")).unwrap();
    assert_eq!(a.name, "Alice");
    assert_eq!(a.id.len(), 36);
    assert_eq!(a.wins, 0);
    let events = tick(&mut st);
    assert_eq!(events.len(), 2);
    assert!(matches!(&events[0], ServerEvent::All(Payload::LeaderboardUpdated(w)) if w.len() == 1 && w[0].name == "Alice"));
    assert!(matches!(&events[1], ServerEvent::All(Payload::LobbyUpdated(r)) if r.is_empty()));
    let again = st.add_user(&s("conn-a"), &s("Other")).unwrap();
    assert_eq!(again.id, a.id);
    assert_eq!(again.name, "Alice");
    assert!(tick(&mut st).is_empty());
    assert_eq!(st.users.len(), 1);
}

#[test]
fn register_command_replies_to_new_user_only() {
    let mut st = State::default();
    assert_eq!(handle_event(&s("conn-a"), ClientEvent::Reg(s("Alice")), &mut st), Ok(()));
    let events = tick(&mut st);
    assert_eq!(events.len(), 3);
    assert!(matches!(&events[0], ServerEvent::All(Payload::LeaderboardUpdated(_))));
    assert!(matches!(&events[1], ServerEvent::All(Payload::LobbyUpdated(_))));
    assert!(matches!(&events[2], ServerEvent::User(to, Payload::Registered { name, user_id }) if to == "conn-a" && name == "Alice" && *user_id == st.users[0].id));
    assert_eq!(handle_event(&s("conn-a"), ClientEvent::Reg(s("Again")), &mut st), Ok(()));
    assert!(tick(&mut st).is_empty());
}

#[test]
fn add_user_with_taken_id_is_refused() {
    let mut st = State::default();
    st.add_user_with_id(&s("c1"), &s("A"), s("id-1")).unwrap();
    assert_eq!(st.add_user_with_id(&s("c2"), &s("B"), s("id-1")).unwrap_err(), RoomError::IdTaken);
    assert_eq!(st.users.len(), 1);
}

#[test]
fn tick_drains_in_order() {
    let mut st = State::default();
    st.add_user_with_id(&s("c1"), &s("A"), s("u1")).unwrap();
    st.add_update_winners_event();
    let events = tick(&mut st);
    assert_eq!(events.len(), 3);
    assert!(matches!(&events[0], ServerEvent::All(Payload::LeaderboardUpdated(_))));
    assert!(matches!(&events[1], ServerEvent::All(Payload::LobbyUpdated(_))));
    assert!(matches!(&events[2], ServerEvent::All(Payload::LeaderboardUpdated(_))));
    assert!(tick(&mut st).is_empty());
}

#[test]
fn create_room_twice_is_already_in_room() {
    let mut st = State::default();
    st.add_user_with_id(&s("c1"), &s("A"), s("u1")).unwrap();
    let room = st.create_game_with_id(&s("u1"), s("r1")).unwrap();
    assert_eq!(room, "r1");
    assert_eq!(st.create_game_with_id(&s("u1"), s("r2")).unwrap_err(), RoomError::AlreadyInRoom);
    assert_eq!(st.create_game_with_id(&s("nobody"), s("r3")).unwrap_err(), RoomError::UnknownUser);
    assert_eq!(st.games.len(), 1);
    let fresh = st.create_game(&s("u1"));
    assert_eq!(fresh.unwrap_err(), RoomError::AlreadyInRoom);
}

#[test]
fn create_room_with_taken_id_is_refused() {
    let mut st = State::default();
    st.add_user_with_id(&s("c1"), &s("A"), s("u1")).unwrap();
    st.add_user_with_id(&s("c2"), &s("B"), s("u2")).unwrap();
    st.create_game_with_id(&s("u1"), s("r1")).unwrap();
    assert_eq!(st.create_game_with_id(&s("u2"), s("r1")).unwrap_err(), RoomError::IdTaken);
}

#[test]
fn create_game_draws_a_fresh_id() {
    let mut st = State::default();
    st.add_user_with_id(&s("c1"), &s("A"), s("u1")).unwrap();
    let room = st.create_game(&s("u1")).unwrap();
    assert_eq!(room.len(), 36);
    assert_eq!(st.games[0].id, room);
}

#[test]
fn join_room_errors() {
    let mut st = State::default();
    for (c, n, id) in [("c1", "A", "u1"), ("c2", "B", "u2"), ("c3", "C", "u3")] {
        st.add_user_with_id(&s(c), &s(n), s(id)).unwrap();
    }
    st.create_game_with_id(&s("u1"), s("r1")).unwrap();
    assert_eq!(st.join_game(&s("nope"), &s("u2")).unwrap_err(), RoomError::RoomNotFound);
    assert_eq!(st.join_game(&s("r1"), &s("u1")).unwrap_err(), RoomError::AlreadyInRoom);
    assert_eq!(st.join_game(&s("r1"), &s("u2")), Ok(()));
    assert_eq!(st.games[0].status, GameStatus::PlacingShips);
    assert_eq!(st.games[0].player2.as_deref(), Some("u2"));
    assert_eq!(st.join_game(&s("r1"), &s("u3")).unwrap_err(), RoomError::RoomFull);
    assert_eq!(st.join_game(&s("r1"), &s("ghost")).unwrap_err(), RoomError::UnknownUser);
}

#[test]
fn end_to_end_match() {
    let mut st = State::default();
    let alice = st.add_user(&s("conn-a"), &s("Alice")).unwrap();
    handle_event(&s("conn-a"), ClientEvent::CreateRoom, &mut st).unwrap();
    let events = tick(&mut st);
    let lobby = lobby_of(&events);
    assert_eq!(lobby.len(), 1);
    assert_eq!(lobby[0].1, vec![s("Alice")]);
    let room = lobby[0].0.clone();

    let bob = st.add_user(&s("conn-b"), &s("Bob")).unwrap();
    tick(&mut st);
    handle_event(&s("conn-b"), ClientEvent::AddUserToRoom(room.clone()), &mut st).unwrap();
    let events = tick(&mut st);
    let created: Vec<(String, String)> = events
        .iter()
        .filter_map(|e| match e {
            ServerEvent::User(to, Payload::GameCreated { room_id, player_id }) if *room_id == room => {
                Some((to.clone(), player_id.clone()))
            }
            _ => None,
        })
        .collect();
    assert_eq!(created, vec![(s("conn-a"), alice.id.clone()), (s("conn-b"), bob.id.clone())]);
    assert!(lobby_of(&events).is_empty());

    handle_event(&s("conn-a"), ClientEvent::AddShips(small_at(0, 0)), &mut st).unwrap();
    handle_event(&s("conn-b"), ClientEvent::AddShips(small_at(5, 5)), &mut st).unwrap();
    assert_eq!(st.games[0].status, GameStatus::Started);
    st.games[0].is_p1_turn = true;

    let shot = st.attack(&alice.id, 5, 5).unwrap();
    assert_eq!(shot.outcome, AttackOutcome::Sunk(0));
    assert_eq!(shot.winner.as_deref(), Some(alice.id.as_str()));
    assert!(st.games.is_empty());
    let events = tick(&mut st);
    assert!(events.iter().any(|e| matches!(e, ServerEvent::All(Payload::AttackResult { x: 5, y: 5, outcome: AttackOutcome::Sunk(0), .. }))));
    let over: Vec<&String> = events
        .iter()
        .filter_map(|e| match e {
            ServerEvent::User(to, Payload::GameOver { winner_id, .. }) if *winner_id == alice.id => Some(to),
            _ => None,
        })
        .collect();
    assert_eq!(over, vec![&s("conn-a"), &s("conn-b")]);
    let alice_now = st.get_user(&alice.id).unwrap();
    assert_eq!(alice_now.wins, 1);
    assert!(events.iter().any(|e| matches!(e, ServerEvent::All(Payload::LeaderboardUpdated(w)) if w.iter().any(|l| l.name == "Alice" && l.wins == 1))));
}

#[test]
fn disconnect_during_match_removes_session() {
    for leaver in ["conn-a", "conn-b"] {
        let mut st = State::default();
        st.add_user_with_id(&s("conn-a"), &s("A"), s("u1")).unwrap();
        st.add_user_with_id(&s("conn-b"), &s("B"), s("u2")).unwrap();
        st.add_user_with_id(&s("conn-c"), &s("C"), s("u3")).unwrap();
        st.create_game_with_id(&s("u1"), s("r1")).unwrap();
        st.join_game(&s("r1"), &s("u2")).unwrap();
        st.create_game_with_id(&s("u3"), s("r2")).unwrap();
        st.add_ships_to_game(&s("u1"), &small_at(0, 0)).unwrap();
        st.add_ships_to_game(&s("u2"), &small_at(1, 1)).unwrap();
        assert_eq!(st.games[0].status, GameStatus::Started);
        tick(&mut st);
        handle_disconnect(&s(leaver), &mut st);
        assert_eq!(st.games.len(), 1);
        assert_eq!(st.games[0].id, "r2");
        assert!(st.get_user_by_addr(&s(leaver)).is_none());
        let events = tick(&mut st);
        let lobby = lobby_of(&events);
        assert_eq!(lobby, vec![(s("r2"), vec![s("C")])]);
        assert!(matches!(events.last(), Some(ServerEvent::All(Payload::LeaderboardUpdated(w))) if w.len() == 2));
    }
}

#[test]
fn disconnect_unknown_connection_changes_nothing() {
    let mut st = State::default();
    st.add_user_with_id(&s("c1"), &s("A"), s("u1")).unwrap();
    tick(&mut st);
    handle_disconnect(&s("c9"), &mut st);
    assert_eq!(st.users.len(), 1);
    assert!(tick(&mut st).is_empty());
}

#[test]
fn commands_need_registration() {
    let mut st = State::default();
    assert_eq!(handle_event(&s("c1"), ClientEvent::CreateRoom, &mut st), Err(CommandError::NotRegistered));
    assert_eq!(handle_event(&s("c1"), ClientEvent::RandomAttack, &mut st), Err(CommandError::NotRegistered));
    assert_eq!(handle_event(&s("c1"), ClientEvent::Reg(s("A")), &mut st), Ok(()));
    assert_eq!(
        handle_event(&s("c1"), ClientEvent::Attack { x: 0, y: 0 }, &mut st),
        Err(CommandError::Attack(AttackError::NotAPlayer))
    );
    assert_eq!(
        handle_event(&s("c1"), ClientEvent::AddShips(small_at(0, 0)), &mut st),
        Err(CommandError::Placement(PlacementError::NotAPlayer))
    );
    assert_eq!(
        handle_event(&s("c1"), ClientEvent::AddUserToRoom(s("none")), &mut st),
        Err(CommandError::Room(RoomError::RoomNotFound))
    );
}

#[test]
fn random_attack_through_registry() {
    let mut st = State::default();
    st.add_user_with_id(&s("conn-a"), &s("A"), s("u1")).unwrap();
    st.add_user_with_id(&s("conn-b"), &s("B"), s("u2")).unwrap();
    st.create_game_with_id(&s("u1"), s("r1")).unwrap();
    st.join_game(&s("r1"), &s("u2")).unwrap();
    st.add_ships_to_game(&s("u1"), &small_at(0, 0)).unwrap();
    st.add_ships_to_game(&s("u2"), &small_at(1, 1)).unwrap();
    st.games[0].is_p1_turn = true;
    tick(&mut st);
    let shot = st.random_attack_with(&s("u1"), 11).unwrap();
    assert_eq!((shot.x, shot.y), (1, 1));
    assert_eq!(shot.winner.as_deref(), Some("u1"));
    assert!(st.games.is_empty());
    let mut st2 = State::default();
    st2.add_user_with_id(&s("conn-a"), &s("A"), s("u1")).unwrap();
    assert_eq!(st2.random_attack(&s("u1")).unwrap_err(), AttackError::NotAPlayer);
    assert_eq!(st2.random_attack(&s("zz")).unwrap_err(), AttackError::NotAPlayer);
}

#[test]
fn delivery_targets_broadcast_or_recipient() {
    let all = ServerEvent::All(Payload::LobbyUpdated(vec![]));
    let one = ServerEvent::User(s("conn-a"), Payload::GameOver { room_id: s("r"), winner_id: s("u") });
    assert!(all.delivers_to(&s("conn-a")));
    assert!(all.delivers_to(&s("conn-z")));
    assert!(one.delivers_to(&s("conn-a")));
    assert!(!one.delivers_to(&s("conn-z")));
}
