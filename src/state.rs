use queue::Queue;
use vstd::prelude::*;
use crate::events::{
    dequeue, enqueue, new_queue, queue_cap, queued, Payload, PlayerInfo, RoomInfo, ServerEvent,
    Winner,
};
use crate::board::{AttackError, PlacementError};
use crate::game::{
    game_shot, placement_effect, random_below, random_shot, unresolved_cells, Game, GameStatus,
    RoomError, Shot,
};
use crate::ships::{Ship, Ships};

verus! {

/// A connected player.
#[derive(Debug)]
pub struct User {
    pub id: String,
    pub name: String,
    /// Key of the connection the player registered from.
    pub addr: String,
    pub wins: u32,
    /// Id of the session the player last created or joined.
    pub in_room: Option<String>,
}

impl User {
    /// A copy of this user.
    pub fn copy(&self) -> (r: User)
        ensures
            r == *self,
    {
        User {
            id: self.id.clone(),
            name: self.name.clone(),
            addr: self.addr.clone(),
            wins: self.wins,
            in_room: match &self.in_room {
                Some(room) => Some(room.clone()),
                None => None,
            },
        }
    }
}

/// The directory of users and sessions, with the queue of notifications
/// waiting to be delivered.
#[derive(Debug)]
pub struct State {
    pub events: Queue<ServerEvent>,
    pub users: Vec<User>,
    pub games: Vec<Game>,
}

/// Some session in `games` has id `id`.
pub open spec fn has_game(games: Seq<Game>, id: Seq<char>) -> bool {
    exists|i: int| 0 <= i < games.len() && #[trigger] games[i].id@ == id
}

/// Some user in `users` has id `id`.
pub open spec fn has_user(users: Seq<User>, id: Seq<char>) -> bool {
    exists|i: int| 0 <= i < users.len() && #[trigger] users[i].id@ == id
}

/// `u` sits in a session that still exists.
pub open spec fn in_live_room(u: User, games: Seq<Game>) -> bool {
    u.in_room is Some && has_game(games, u.in_room->Some_0@)
}

/// The sessions of `games`, among its first `n`, that wait for a second
/// player, in directory order.
pub open spec fn waiting_games(games: Seq<Game>, n: int) -> Seq<Game>
    decreases n,
{
    if n <= 0 {
        Seq::empty()
    } else if games[n - 1].status == GameStatus::Waiting {
        waiting_games(games, n - 1).push(games[n - 1])
    } else {
        waiting_games(games, n - 1)
    }
}

/// `p` names the registered user with id `id`.
pub open spec fn names_user(p: PlayerInfo, id: Seq<char>, users: Seq<User>) -> bool {
    &&& p.user_id@ == id
    &&& exists|i: int| 0 <= i < users.len() && #[trigger] users[i].id@ == id && users[i].name@ == p.name@
}

/// `ps` lists the seated players of `g` that are registered in `users`,
/// first seat first.
pub open spec fn seated_players(ps: Seq<PlayerInfo>, g: Game, users: Seq<User>) -> bool {
    let p1_known = has_user(users, g.player1@);
    let p2_known = g.player2 is Some && has_user(users, g.player2->Some_0@);
    &&& ps.len() == (if p1_known { 1int } else { 0int }) + (if p2_known { 1int } else { 0int })
    &&& p1_known ==> names_user(ps[0], g.player1@, users)
    &&& p2_known ==> names_user(ps[ps.len() - 1], g.player2->Some_0@, users)
}

/// `rooms` is the lobby: every waiting session of `games`, in directory
/// order, with its seated players.
pub open spec fn lobby_matches(rooms: Seq<RoomInfo>, games: Seq<Game>, users: Seq<User>) -> bool {
    let waiting = waiting_games(games, games.len() as int);
    &&& rooms.len() == waiting.len()
    &&& forall|k: int|
        0 <= k < rooms.len() ==> #[trigger] rooms[k].room_id@ == waiting[k].id@ && seated_players(
            rooms[k].players@,
            waiting[k],
            users,
        )
}

/// `board` is the leaderboard: each user's name and wins, in directory order.
pub open spec fn leaderboard_matches(board: Seq<Winner>, users: Seq<User>) -> bool {
    &&& board.len() == users.len()
    &&& forall|k: int|
        0 <= k < board.len() ==> #[trigger] board[k].name@ == users[k].name@ && board[k].wins
            == users[k].wins
}

/// `e` broadcasts the lobby of `games`.
pub open spec fn is_lobby_event(e: ServerEvent, games: Seq<Game>, users: Seq<User>) -> bool {
    &&& e is All
    &&& e->All_0 is LobbyUpdated
    &&& lobby_matches(e->All_0->LobbyUpdated_0@, games, users)
}

/// `e` broadcasts the leaderboard of `users`.
pub open spec fn is_leaderboard_event(e: ServerEvent, users: Seq<User>) -> bool {
    &&& e is All
    &&& e->All_0 is LeaderboardUpdated
    &&& leaderboard_matches(e->All_0->LeaderboardUpdated_0@, users)
}

/// `after` is `before` with `n` more events at the back.
pub open spec fn appended(before: Seq<ServerEvent>, after: Seq<ServerEvent>, n: int) -> bool {
    after.len() == before.len() + n && after.subrange(0, before.len() as int) == before
}

impl State {
    /// Ids of users, connection keys and session ids are each unique; every
    /// session is well formed; the queue grows as needed.
    pub open spec fn wf(self) -> bool {
        &&& queue_cap(self.events) is None
        &&& forall|i: int| 0 <= i < self.games@.len() ==> #[trigger] self.games@[i].wf()
        &&& forall|i: int, j: int|
            0 <= i < self.users@.len() && 0 <= j < self.users@.len() && i != j ==> #[trigger] self.users@[i].id@
                != #[trigger] self.users@[j].id@
        &&& forall|i: int, j: int|
            0 <= i < self.users@.len() && 0 <= j < self.users@.len() && i != j ==> #[trigger] self.users@[i].addr@
                != #[trigger] self.users@[j].addr@
        &&& forall|i: int, j: int|
            0 <= i < self.games@.len() && 0 <= j < self.games@.len() && i != j ==> #[trigger] self.games@[i].id@
                != #[trigger] self.games@[j].id@
    }

    /// Position of the user with id `id`.
    pub fn find_user(&self, id: &String) -> (r: Option<usize>)
        ensures
            r matches Some(i) ==> i < self.users@.len() && self.users@[i as int].id@ == id@,
            r is None ==> forall|i: int| 0 <= i < self.users@.len() ==> #[trigger] self.users@[i].id@ != id@,
    {
        let mut i: usize = 0;
        while i < self.users.len()
            invariant
                i <= self.users@.len(),
                forall|j: int| 0 <= j < i ==> #[trigger] self.users@[j].id@ != id@,
            decreases self.users@.len() - i,
        {
            if self.users[i].id == *id {
                return Some(i);
            }
            i = i + 1;
        }
        None
    }

    /// Position of the user registered from connection `addr`.
    pub fn find_user_by_addr(&self, addr: &String) -> (r: Option<usize>)
        ensures
            r matches Some(i) ==> i < self.users@.len() && self.users@[i as int].addr@ == addr@,
            r is None ==> forall|i: int| 0 <= i < self.users@.len() ==> #[trigger] self.users@[i].addr@ != addr@,
    {
        let mut i: usize = 0;
        while i < self.users.len()
            invariant
                i <= self.users@.len(),
                forall|j: int| 0 <= j < i ==> #[trigger] self.users@[j].addr@ != addr@,
            decreases self.users@.len() - i,
        {
            if self.users[i].addr == *addr {
                return Some(i);
            }
            i = i + 1;
        }
        None
    }

    /// Position of the session with id `id`.
    pub fn find_game(&self, id: &String) -> (r: Option<usize>)
        ensures
            r matches Some(i) ==> i < self.games@.len() && self.games@[i as int].id@ == id@,
            r is None ==> !has_game(self.games@, id@),
    {
        let mut i: usize = 0;
        while i < self.games.len()
            invariant
                i <= self.games@.len(),
                forall|j: int| 0 <= j < i ==> #[trigger] self.games@[j].id@ != id@,
            decreases self.games@.len() - i,
        {
            if self.games[i].id == *id {
                return Some(i);
            }
            i = i + 1;
        }
        None
    }

    /// The user with id `user_id`, if registered.
    pub fn get_user(&self, user_id: &String) -> (r: Option<User>)
        ensures
            r is None <==> !has_user(self.users@, user_id@),
            r matches Some(u) ==> exists|i: int|
                0 <= i < self.users@.len() && self.users@[i] == u && #[trigger] u.id@ == user_id@,
    {
        match self.find_user(user_id) {
            Some(i) => Some(self.users[i].copy()),
            None => None,
        }
    }

    /// The user registered from connection `addr`, if any.
    pub fn get_user_by_addr(&self, addr: &String) -> (r: Option<User>)
        ensures
            r is None <==> forall|i: int| 0 <= i < self.users@.len() ==> #[trigger] self.users@[i].addr@ != addr@,
            r matches Some(u) ==> exists|i: int|
                0 <= i < self.users@.len() && self.users@[i] == u && #[trigger] u.addr@ == addr@,
    {
        match self.find_user_by_addr(addr) {
            Some(i) => Some(self.users[i].copy()),
            None => None,
        }
    }

    /// Each user's name and wins, in directory order.
    pub fn leaderboard(&self) -> (r: Vec<Winner>)
        ensures
            leaderboard_matches(r@, self.users@),
    {
        let mut r: Vec<Winner> = Vec::new();
        let mut i: usize = 0;
        while i < self.users.len()
            invariant
                i <= self.users@.len(),
                r@.len() == i,
                forall|k: int|
                    0 <= k < i ==> #[trigger] r@[k].name@ == self.users@[k].name@ && r@[k].wins
                        == self.users@[k].wins,
            decreases self.users@.len() - i,
        {
            r.push(Winner { name: self.users[i].name.clone(), wins: self.users[i].wins });
            i = i + 1;
        }
        r
    }

    /// The seated players of session `g` that are registered, first seat
    /// first.
    fn players_of(&self, g: &Game) -> (r: Vec<PlayerInfo>)
        ensures
            seated_players(r@, *g, self.users@),
    {
        let mut r: Vec<PlayerInfo> = Vec::new();
        match self.find_user(&g.player1) {
            Some(i) => {
                r.push(PlayerInfo { user_id: g.player1.clone(), name: self.users[i].name.clone() });
            },
            None => {},
        }
        match &g.player2 {
            Some(p2) => match self.find_user(p2) {
                Some(i) => {
                    r.push(PlayerInfo { user_id: p2.clone(), name: self.users[i].name.clone() });
                },
                None => {},
            },
            None => {},
        }
        r
    }

    /// The lobby: every session waiting for a second player, with its
    /// seated players, in directory order.
    pub fn lobby_snapshot(&self) -> (r: Vec<RoomInfo>)
        ensures
            lobby_matches(r@, self.games@, self.users@),
    {
        let mut r: Vec<RoomInfo> = Vec::new();
        let mut i: usize = 0;
        while i < self.games.len()
            invariant
                i <= self.games@.len(),
                r@.len() == waiting_games(self.games@, i as int).len(),
                forall|k: int|
                    0 <= k < r@.len() ==> #[trigger] r@[k].room_id@ == waiting_games(
                        self.games@,
                        i as int,
                    )[k].id@ && seated_players(
                        r@[k].players@,
                        waiting_games(self.games@, i as int)[k],
                        self.users@,
                    ),
            decreases self.games@.len() - i,
        {
            let ghost before = r@;
            let ghost w = waiting_games(self.games@, i as int);
            if self.games[i].status == GameStatus::Waiting {
                let players = self.players_of(&self.games[i]);
                r.push(RoomInfo { room_id: self.games[i].id.clone(), players });
            }
            proof {
                let w2 = waiting_games(self.games@, i + 1);
                assert forall|k: int| 0 <= k < r@.len() implies #[trigger] r@[k].room_id@ == w2[k].id@
                    && seated_players(r@[k].players@, w2[k], self.users@) by {
                    if k < before.len() {
                        assert(r@[k] == before[k]);
                        assert(w2[k] == w[k]);
                        assert(r@[k].room_id@ == w2[k].id@);
                        assert(seated_players(r@[k].players@, w2[k], self.users@));
                    } else {
                        assert(w2[k] == self.games@[i as int]);
                        assert(r@[k].room_id@ == w2[k].id@);
                        assert(seated_players(r@[k].players@, w2[k], self.users@));
                    }
                }
            }
            i = i + 1;
        }
        r
    }
}


/// Relies on `uuid::Uuid::new_v4` and its text form: a random identifier in
/// the 36-character hyphenated layout.
#[verifier::external_body]
fn fresh_id() -> (r: String)
    ensures
        r@.len() == 36,
{
    uuid::Uuid::new_v4().to_string()
}

/// Position of the user with id `id` (the only one, in a well-formed state).
pub open spec fn user_index(users: Seq<User>, id: Seq<char>) -> int {
    choose|i: int| 0 <= i < users.len() && #[trigger] users[i].id@ == id
}

/// Position of the user registered from connection `addr`.
pub open spec fn addr_index(users: Seq<User>, addr: Seq<char>) -> int {
    choose|i: int| 0 <= i < users.len() && #[trigger] users[i].addr@ == addr
}

/// Some user registered from connection `addr`.
pub open spec fn has_addr(users: Seq<User>, addr: Seq<char>) -> bool {
    exists|i: int| 0 <= i < users.len() && #[trigger] users[i].addr@ == addr
}

/// What registering `name` from connection `addr` does, with `id` drawn
/// for a new user: a connection that already has a user gets it back and
/// nothing changes; otherwise the new user is added and the leaderboard
/// and the lobby are queued.
pub open spec fn register_effect(
    s: State,
    after: State,
    addr: Seq<char>,
    name: Seq<char>,
    id: Seq<char>,
    r: Result<User, RoomError>,
) -> bool {
    if has_addr(s.users@, addr) {
        r == Ok::<User, RoomError>(s.users@[addr_index(s.users@, addr)]) && after == s
    } else if has_user(s.users@, id) {
        r == Err::<User, RoomError>(RoomError::IdTaken) && after == s
    } else {
        let q = queued(s.events);
        let q2 = queued(after.events);
        let n = q.len() as int;
        &&& r is Ok
        &&& r->Ok_0.id@ == id && r->Ok_0.name@ == name && r->Ok_0.addr@ == addr
        &&& r->Ok_0.wins == 0 && r->Ok_0.in_room is None
        &&& after.users@ == s.users@.push(r->Ok_0)
        &&& after.games@ == s.games@
        &&& appended(q, q2, 2)
        &&& is_leaderboard_event(q2[n], after.users@)
        &&& is_lobby_event(q2[n + 1], after.games@, after.users@)
    }
}

/// `after` is `mid` with, when registration from `addr` (on registry `s`)
/// created user `rr`, a confirmation to the connection queued.
pub open spec fn reply_effect(
    s: State,
    mid: State,
    after: State,
    addr: Seq<char>,
    rr: Result<User, RoomError>,
) -> bool {
    &&& after.users@ == mid.users@
    &&& after.games@ == mid.games@
    &&& if !has_addr(s.users@, addr) && rr is Ok {
        let q = queued(mid.events);
        let q2 = queued(after.events);
        &&& appended(q, q2, 1)
        &&& q2[q.len() as int] matches ServerEvent::User(to, Payload::Registered { user_id, name })
            && to@ == addr && user_id@ == rr->Ok_0.id@ && name@ == rr->Ok_0.name@
    } else {
        queued(after.events) == queued(mid.events)
    }
}

impl Default for State {
    fn default() -> (r: Self)
        ensures
            r.wf(),
            r.users@.len() == 0,
            r.games@.len() == 0,
            queued(r.events).len() == 0,
    {
        State { events: new_queue(), users: Vec::new(), games: Vec::new() }
    }
}

impl State {
    /// Queues `event` at the back.
    pub fn add_event(&mut self, event: ServerEvent)
        requires
            old(self).wf(),
        ensures
            final(self).wf(),
            final(self).users == old(self).users,
            final(self).games == old(self).games,
            queued(final(self).events) == queued(old(self).events).push(event),
    {
        let _ = enqueue(&mut self.events, event);
    }

    /// Queues a broadcast of the leaderboard.
    pub fn add_update_winners_event(&mut self)
        requires
            old(self).wf(),
        ensures
            final(self).wf(),
            final(self).users == old(self).users,
            final(self).games == old(self).games,
            appended(queued(old(self).events), queued(final(self).events), 1),
            is_leaderboard_event(
                queued(final(self).events)[queued(old(self).events).len() as int],
                old(self).users@,
            ),
    {
        let board = self.leaderboard();
        self.add_event(ServerEvent::All(Payload::LeaderboardUpdated(board)));
        proof {
            assert(queued(self.events).subrange(0, queued(old(self).events).len() as int)
                =~= queued(old(self).events));
        }
    }

    /// Queues a broadcast of the lobby.
    pub fn add_update_room_event(&mut self)
        requires
            old(self).wf(),
        ensures
            final(self).wf(),
            final(self).users == old(self).users,
            final(self).games == old(self).games,
            appended(queued(old(self).events), queued(final(self).events), 1),
            is_lobby_event(
                queued(final(self).events)[queued(old(self).events).len() as int],
                old(self).games@,
                old(self).users@,
            ),
    {
        let rooms = self.lobby_snapshot();
        self.add_event(ServerEvent::All(Payload::LobbyUpdated(rooms)));
        proof {
            assert(queued(self.events).subrange(0, queued(old(self).events).len() as int)
                =~= queued(old(self).events));
        }
    }

    /// Removes and returns every queued event, front first.
    pub fn drain_events(&mut self) -> (r: Vec<ServerEvent>)
        requires
            old(self).wf(),
        ensures
            final(self).wf(),
            final(self).users == old(self).users,
            final(self).games == old(self).games,
            r@ == queued(old(self).events),
            queued(final(self).events).len() == 0,
    {
        let mut r: Vec<ServerEvent> = Vec::new();
        loop
            invariant
                self.wf(),
                self.users == old(self).users,
                self.games == old(self).games,
                r@ + queued(self.events) == queued(old(self).events),
            ensures
                r@ == queued(old(self).events),
                queued(self.events).len() == 0,
            decreases queued(self.events).len(),
        {
            let ghost before = queued(self.events);
            match dequeue(&mut self.events) {
                Some(e) => {
                    r.push(e);
                    proof {
                        assert(r@ + queued(self.events) =~= queued(old(self).events)) by {
                            assert(before =~= seq![e] + before.drop_first());
                        }
                    }
                },
                None => {
                    proof {
                        assert(r@ + queued(self.events) =~= r@);
                    }
                    break ;
                },
            }
        }
        r
    }

    /// Registers `name` from connection `addr` under the id `id`.
    pub fn add_user_with_id(&mut self, addr: &String, name: &String, id: String) -> (r: Result<
        User,
        RoomError,
    >)
        requires
            old(self).wf(),
        ensures
            final(self).wf(),
            register_effect(*old(self), *final(self), addr@, name@, id@, r),
    {
        match self.find_user_by_addr(addr) {
            Some(i) => {
                let u = self.users[i].copy();
                return Ok(u);
            },
            None => {},
        }
        match self.find_user(&id) {
            Some(_) => {
                return Err(RoomError::IdTaken);
            },
            None => {},
        }
        let user = User {
            id: id.clone(),
            name: name.clone(),
            addr: addr.clone(),
            wins: 0,
            in_room: None,
        };
        let ghost s0 = *self;
        self.users.push(user.copy());
        self.add_update_winners_event();
        let ghost s2 = *self;
        self.add_update_room_event();
        proof {
            let q = queued(s0.events);
            let n = q.len() as int;
            let q2 = queued(self.events);
            assert(q2.subrange(0, n) =~= q) by {
                assert(queued(s2.events).subrange(0, n) =~= q);
            }
            assert(q2[n] == queued(s2.events)[n]);
        }
        Ok(user)
    }

    /// Registers `name` from connection `addr`; a connection registers once,
    /// and asking again returns the same user.
    pub fn add_user(&mut self, addr: &String, name: &String) -> (r: Result<
        User,
        RoomError,
    >)
        requires
            old(self).wf(),
        ensures
            final(self).wf(),
            exists|id: Seq<char>| register_effect(*old(self), *final(self), addr@, name@, id, r),
    {
        let id = fresh_id();
        let ghost g = id@;
        let r = self.add_user_with_id(addr, name, id);
        proof {
            assert(register_effect(*old(self), *self, addr@, name@, g, r));
        }
        r
    }
}


/// Position of the session with id `id`.
pub open spec fn game_index(games: Seq<Game>, id: Seq<char>) -> int {
    choose|i: int| 0 <= i < games.len() && #[trigger] games[i].id@ == id
}

/// `after` is user `u` now seated in the session with id `room`.
pub open spec fn moved_in(u: User, after: User, room: Seq<char>) -> bool {
    &&& after.id == u.id && after.name == u.name && after.addr == u.addr && after.wins == u.wins
    &&& after.in_room is Some && after.in_room->Some_0@ == room
}

/// The room checks shared by creating and joining: the user must be
/// registered and not seated in a session that still exists.
pub open spec fn room_refusal(s: State, user: Seq<char>) -> Option<RoomError> {
    if !has_user(s.users@, user) {
        Some(RoomError::UnknownUser)
    } else if in_live_room(s.users@[user_index(s.users@, user)], s.games@) {
        Some(RoomError::AlreadyInRoom)
    } else {
        None
    }
}

/// What creating a room with id `room` for `user` does: a new waiting
/// session owned by the user, the user seated in it, the lobby queued.
pub open spec fn create_effect(
    s: State,
    after: State,
    user: Seq<char>,
    room: Seq<char>,
    r: Result<String, RoomError>,
) -> bool {
    if room_refusal(s, user) is Some {
        r == Err::<String, RoomError>(room_refusal(s, user)->Some_0) && after == s
    } else if has_game(s.games@, room) {
        r == Err::<String, RoomError>(RoomError::IdTaken) && after == s
    } else {
        let i = user_index(s.users@, user);
        let g = after.games@.last();
        let q = queued(s.events);
        &&& r is Ok && r->Ok_0@ == room
        &&& after.games@ == s.games@.push(g)
        &&& g.id@ == room && g.player1@ == user && g.player2 is None
        &&& g.status == GameStatus::Waiting
        &&& g.p1_board.ships@.len() == 0 && g.p2_board.ships@.len() == 0
        &&& after.users@.len() == s.users@.len()
        &&& after.users@ == s.users@.update(i, after.users@[i])
        &&& moved_in(s.users@[i], after.users@[i], room)
        &&& appended(q, queued(after.events), 1)
        &&& is_lobby_event(queued(after.events)[q.len() as int], after.games@, after.users@)
    }
}

/// `e` tells connection `addr` that `player` plays in session `room`.
pub open spec fn is_game_created(e: ServerEvent, addr: Seq<char>, room: Seq<char>, player: Seq<
    char,
>) -> bool {
    e matches ServerEvent::User(to, Payload::GameCreated { room_id, player_id }) && to@ == addr
        && room_id@ == room && player_id@ == player
}

/// What `user` joining the session with id `room` does: the user takes the
/// second seat and is seated there; each registered player is told of the
/// match, owner first, then the lobby is queued.
pub open spec fn join_effect(
    s: State,
    after: State,
    user: Seq<char>,
    room: Seq<char>,
    r: Result<(), RoomError>,
) -> bool {
    if room_refusal(s, user) is Some {
        r == Err::<(), RoomError>(room_refusal(s, user)->Some_0) && after == s
    } else if !has_game(s.games@, room) {
        r == Err::<(), RoomError>(RoomError::RoomNotFound) && after == s
    } else {
        let gi = game_index(s.games@, room);
        let g = s.games@[gi];
        if g.player2 is Some {
            r == Err::<(), RoomError>(RoomError::RoomFull) && after == s
        } else if g.player1@ == user {
            r == Err::<(), RoomError>(RoomError::SelfJoin) && after == s
        } else {
            let i = user_index(s.users@, user);
            let g2 = after.games@[gi];
            let q = queued(s.events);
            let q2 = queued(after.events);
            let n = q.len() as int;
            let owner_known = has_user(s.users@, g.player1@);
            let k = if owner_known { 1int } else { 0int };
            &&& r is Ok
            &&& after.games@ == s.games@.update(gi, g2)
            &&& g2.player2 is Some && g2.player2->Some_0@ == user
            &&& g2.status == GameStatus::PlacingShips
            &&& g2.id == g.id && g2.player1 == g.player1 && g2.is_p1_turn == g.is_p1_turn
            &&& g2.p1_board == g.p1_board && g2.p2_board == g.p2_board
            &&& after.users@ == s.users@.update(i, after.users@[i])
            &&& moved_in(s.users@[i], after.users@[i], room)
            &&& appended(q, q2, 2 + k)
            &&& owner_known ==> is_game_created(
                q2[n],
                s.users@[user_index(s.users@, g.player1@)].addr@,
                room,
                g.player1@,
            )
            &&& is_game_created(q2[n + k], s.users@[i].addr@, room, user)
            &&& is_lobby_event(q2[n + k + 1], after.games@, after.users@)
        }
    }
}

impl State {
    /// Whether the user at position `i` sits in a session that still
    /// exists.
    fn user_in_live_room(&self, i: usize) -> (r: bool)
        requires
            i < self.users@.len(),
        ensures
            r == in_live_room(self.users@[i as int], self.games@),
    {
        match &self.users[i].in_room {
            Some(room) => self.find_game(room).is_some(),
            None => false,
        }
    }

    /// Seats the user at position `i` in session `room`.
    fn move_in(&mut self, i: usize, room: &String)
        requires
            old(self).wf(),
            i < old(self).users@.len(),
        ensures
            final(self).wf(),
            final(self).games == old(self).games,
            final(self).events == old(self).events,
            final(self).users@ == old(self).users@.update(i as int, final(self).users@[i as int]),
            moved_in(old(self).users@[i as int], final(self).users@[i as int], room@),
    {
        let mut u = self.users[i].copy();
        u.in_room = Some(room.clone());
        self.users.set(i, u);
    }

    /// Creates a waiting session with id `room_id` owned by `user_id`.
    pub fn create_game_with_id(&mut self, user_id: &String, room_id: String) -> (r: Result<
        String,
        RoomError,
    >)
        requires
            old(self).wf(),
        ensures
            final(self).wf(),
            create_effect(*old(self), *final(self), user_id@, room_id@, r),
    {
        let i = match self.find_user(user_id) {
            Some(i) => i,
            None => {
                return Err(RoomError::UnknownUser);
            },
        };
        proof {
            assert(user_index(self.users@, user_id@) == i as int) by {
                let j = user_index(self.users@, user_id@);
                assert(0 <= j < self.users@.len() && self.users@[j].id@ == user_id@);
            }
        }
        if self.user_in_live_room(i) {
            return Err(RoomError::AlreadyInRoom);
        }
        if self.find_game(&room_id).is_some() {
            return Err(RoomError::IdTaken);
        }
        let game = Game::create(&room_id, user_id);
        let ghost s0 = *self;
        self.games.push(game);
        proof {
            assert forall|a: int, b: int|
                0 <= a < self.games@.len() && 0 <= b < self.games@.len() && a != b implies #[trigger] self.games@[a].id@
                != #[trigger] self.games@[b].id@ by {
                if a < s0.games@.len() && b < s0.games@.len() {
                    assert(s0.games@[a] == self.games@[a] && s0.games@[b] == self.games@[b]);
                } else if a < s0.games@.len() {
                    assert(s0.games@[a] == self.games@[a]);
                } else {
                    assert(s0.games@[b] == self.games@[b]);
                }
            }
        }
        self.move_in(i, &room_id);
        self.add_update_room_event();
        Ok(room_id)
    }

    /// Creates a waiting session owned by `user_id`, under a fresh id.
    pub fn create_game(&mut self, user_id: &String) -> (r: Result<String, RoomError>)
        requires
            old(self).wf(),
        ensures
            final(self).wf(),
            exists|room: Seq<char>| create_effect(*old(self), *final(self), user_id@, room, r),
    {
        let room_id = fresh_id();
        let ghost room = room_id@;
        let r = self.create_game_with_id(user_id, room_id);
        proof {
            assert(create_effect(*old(self), *self, user_id@, room, r));
        }
        r
    }
}


impl State {
    /// Replaces the session at position `gi` by `g`, keeping its id.
    fn put_game(&mut self, gi: usize, g: Game)
        requires
            old(self).wf(),
            gi < old(self).games@.len(),
            g.wf(),
            g.id@ == old(self).games@[gi as int].id@,
        ensures
            final(self).wf(),
            final(self).games@ == old(self).games@.update(gi as int, g),
            final(self).users == old(self).users,
            final(self).events == old(self).events,
    {
        let ghost s0 = *self;
        let _ = self.games.remove(gi);
        self.games.insert(gi, g);
        proof {
            assert(self.games@ =~= s0.games@.update(gi as int, g));
        }
    }

    /// Seats `user_id` in the second seat of session `room_id`.
    pub fn join_game(&mut self, room_id: &String, user_id: &String) -> (r: Result<(), RoomError>)
        requires
            old(self).wf(),
        ensures
            final(self).wf(),
            join_effect(*old(self), *final(self), user_id@, room_id@, r),
    {
        let i = match self.find_user(user_id) {
            Some(i) => i,
            None => {
                return Err(RoomError::UnknownUser);
            },
        };
        proof {
            assert(user_index(self.users@, user_id@) == i as int) by {
                let j = user_index(self.users@, user_id@);
                assert(0 <= j < self.users@.len() && self.users@[j].id@ == user_id@);
            }
        }
        if self.user_in_live_room(i) {
            return Err(RoomError::AlreadyInRoom);
        }
        let gi = match self.find_game(room_id) {
            Some(gi) => gi,
            None => {
                return Err(RoomError::RoomNotFound);
            },
        };
        proof {
            assert(game_index(self.games@, room_id@) == gi as int) by {
                let j = game_index(self.games@, room_id@);
                assert(0 <= j < self.games@.len() && self.games@[j].id@ == room_id@);
            }
        }
        if self.games[gi].player2.is_some() {
            return Err(RoomError::RoomFull);
        }
        if *user_id == self.games[gi].player1 {
            return Err(RoomError::SelfJoin);
        }
        let ghost s0 = *self;
        let mut game = self.games.remove(gi);
        let _ = game.join(user_id);
        self.games.insert(gi, game);
        proof {
            assert(self.games@ =~= s0.games@.update(gi as int, self.games@[gi as int]));
        }
        let owner = self.find_user(&self.games[gi].player1);
        proof {
            assert(self.wf()) by {
                assert forall|a: int, b: int|
                    0 <= a < self.games@.len() && 0 <= b < self.games@.len() && a != b implies #[trigger] self.games@[a].id@
                    != #[trigger] self.games@[b].id@ by {
                    assert(s0.games@[a].id@ == self.games@[a].id@);
                    assert(s0.games@[b].id@ == self.games@[b].id@);
                }
            }
        }
        match owner {
            Some(oi) => {
                proof {
                    let p1 = self.games@[gi as int].player1@;
                    assert(user_index(self.users@, p1) == oi as int) by {
                        let j = user_index(self.users@, p1);
                        assert(0 <= j < self.users@.len() && self.users@[j].id@ == p1);
                    }
                }
                let e = ServerEvent::User(
                    self.users[oi].addr.clone(),
                    Payload::GameCreated {
                        room_id: room_id.clone(),
                        player_id: self.games[gi].player1.clone(),
                    },
                );
                self.add_event(e);
            },
            None => {},
        }
        let ghost s2 = *self;
        let e = ServerEvent::User(
            self.users[i].addr.clone(),
            Payload::GameCreated { room_id: room_id.clone(), player_id: user_id.clone() },
        );
        self.add_event(e);
        let ghost s3 = *self;
        self.move_in(i, room_id);
        self.add_update_room_event();
        proof {
            let q = queued(s0.events);
            let n = q.len() as int;
            let q2 = queued(self.events);
            assert(queued(s3.events).subrange(0, n) =~= q);
            assert(q2.subrange(0, n) =~= q);
            assert(q2[queued(s2.events).len() as int] == queued(s3.events)[queued(s2.events).len() as int]);
            let l3 = queued(s3.events).len() as int;
            assert(q2.subrange(0, l3) == queued(s3.events));
            assert(q2[n] == q2.subrange(0, l3)[n]);
            if owner is Some {
                assert(queued(s3.events)[n] == queued(s2.events)[n]);
                assert(q2[n] == queued(s2.events)[n]);
            }
        }
        Ok(())
    }
}


/// `after` holds the same users, sessions and events as `s`.
pub open spec fn unchanged(s: State, after: State) -> bool {
    after.users@ == s.users@ && after.games@ == s.games@ && queued(after.events) == queued(s.events)
}

/// Position of the live session `user` sits in, if the user is registered
/// and sits in one.
pub open spec fn seat_of(s: State, user: Seq<char>) -> Option<int> {
    if has_user(s.users@, user) && in_live_room(s.users@[user_index(s.users@, user)], s.games@) {
        Some(
            game_index(s.games@, s.users@[user_index(s.users@, user)].in_room->Some_0@),
        )
    } else {
        None
    }
}

/// What `add_ships_to_game` by `user` does: the user's session takes the
/// fleet as `Game::add_ships` says; a user without a live session is no
/// player.
pub open spec fn submit_effect(
    s: State,
    after: State,
    user: Seq<char>,
    ships: Seq<Ship>,
    r: Result<(), PlacementError>,
) -> bool {
    match seat_of(s, user) {
        None => r == Err::<(), PlacementError>(
            PlacementError::NotAPlayer,
        ) && unchanged(s, after),
        Some(gi) => {
            &&& placement_effect(s.games@[gi], after.games@[gi], user, ships, r)
            &&& after.games@ == s.games@.update(gi, after.games@[gi])
            &&& after.users == s.users && after.events == s.events
        },
    }
}

/// `e` broadcasts shot `shot` in session `room`.
pub open spec fn is_attack_event(e: ServerEvent, room: Seq<char>, shot: Shot) -> bool {
    e matches ServerEvent::All(Payload::AttackResult { room_id, x, y, outcome }) && room_id@ == room
        && x == shot.x && y == shot.y && outcome == shot.outcome
}

/// `e` tells connection `addr` that `winner` won session `room`.
pub open spec fn is_game_over(e: ServerEvent, addr: Seq<char>, room: Seq<char>, winner: Seq<char>) -> bool {
    e matches ServerEvent::User(to, Payload::GameOver { room_id, winner_id }) && to@ == addr
        && room_id@ == room && winner_id@ == winner
}

/// The other seat's player of session `g`, seen from `user`.
pub open spec fn opponent(g: Game, user: Seq<char>) -> Seq<char> {
    if g.is_p1(user) {
        g.player2->Some_0@
    } else {
        g.player1@
    }
}

/// How the registry, holding `users`, sessions `games` and queued events
/// `q`, records the result `r` of a shot by `user` in the session at
/// position `gi`, whose state after the shot is `g2`. A refused shot
/// changes nothing. A shot is broadcast. A winning shot removes the session,
/// credits the winner (saturating), and queues the leaderboard and a
/// game-over notice to the winner and to the opponent if registered.
pub open spec fn record_effect(
    users: Seq<User>,
    games: Seq<Game>,
    q: Seq<ServerEvent>,
    after: State,
    user: Seq<char>,
    gi: int,
    g2: Game,
    r: Result<Shot, AttackError>,
) -> bool {
    let g = games[gi];
    let q2 = queued(after.events);
    let n = q.len() as int;
    if r is Err {
        after.users@ == users && after.games@ == games && q2 == q
    } else if r->Ok_0.winner is None {
        &&& after.games@ == games.update(gi, g2)
        &&& after.users@ == users
        &&& appended(q, q2, 1)
        &&& is_attack_event(q2[n], g.id@, r->Ok_0)
    } else {
        let ui = user_index(users, user);
        let u = users[ui];
        let u2 = after.users@[ui];
        let foe = opponent(g, user);
        let foe_known = has_user(users, foe);
        &&& after.games@ == games.remove(gi)
        &&& after.users@ == users.update(ui, u2)
        &&& u2.id == u.id && u2.name == u.name && u2.addr == u.addr && u2.in_room == u.in_room
        &&& u2.wins == if u.wins < u32::MAX {
            (u.wins + 1) as u32
        } else {
            u.wins
        }
        &&& appended(q, q2, if foe_known { 4int } else { 3int })
        &&& is_attack_event(q2[n], g.id@, r->Ok_0)
        &&& is_leaderboard_event(q2[n + 1], after.users@)
        &&& is_game_over(q2[n + 2], u.addr@, g.id@, user)
        &&& foe_known ==> is_game_over(q2[n + 3], users[user_index(users, foe)].addr@, g.id@, user)
    }
}

/// What an aimed shot by `user` at `(x, y)` does to the registry.
pub open spec fn attack_effect(
    s: State,
    after: State,
    user: Seq<char>,
    x: int,
    y: int,
    r: Result<Shot, AttackError>,
) -> bool {
    match seat_of(s, user) {
        None => r == Err::<Shot, AttackError>(AttackError::NotAPlayer) && unchanged(s, after),
        Some(gi) => exists|g2: Game|
            #[trigger] game_shot(s.games@[gi], g2, user, x, y, r) && g2.wf()
                && record_effect(s.users@, s.games@, queued(s.events), after, user, gi, g2, r),
    }
}

/// What a random shot by `user` does to the registry, when the draw was
/// `choice`.
pub open spec fn random_attack_effect(
    s: State,
    after: State,
    user: Seq<char>,
    choice: int,
    r: Result<Shot, AttackError>,
) -> bool {
    match seat_of(s, user) {
        None => r == Err::<Shot, AttackError>(AttackError::NotAPlayer) && unchanged(s, after),
        Some(gi) => exists|g2: Game|
            #[trigger] random_shot(s.games@[gi], g2, user, choice, r) && g2.wf()
                && record_effect(s.users@, s.games@, queued(s.events), after, user, gi, g2, r),
    }
}

impl State {
    /// Position of the live session `user_id` sits in, and of the user.
    fn locate(&self, user_id: &String) -> (r: Option<(usize, usize)>)
        requires
            self.wf(),
        ensures
            r is None <==> seat_of(*self, user_id@) is None,
            r matches Some((ui, gi)) ==> ui == user_index(self.users@, user_id@) && seat_of(
                *self,
                user_id@,
            ) == Some(gi as int) && gi < self.games@.len() && ui < self.users@.len(),
    {
        let ui = match self.find_user(user_id) {
            Some(i) => i,
            None => {
                return None;
            },
        };
        proof {
            let j = user_index(self.users@, user_id@);
            assert(0 <= j < self.users@.len() && self.users@[j].id@ == user_id@);
        }
        match &self.users[ui].in_room {
            Some(room) => match self.find_game(room) {
                Some(gi) => {
                    proof {
                        let j = game_index(self.games@, room@);
                        assert(0 <= j < self.games@.len() && self.games@[j].id@ == room@);
                    }
                    Some((ui, gi))
                },
                None => None,
            },
            None => None,
        }
    }

    /// Removes the session at position `gi` from the directory.
    fn take_game(&mut self, gi: usize) -> (g: Game)
        requires
            old(self).wf(),
            gi < old(self).games@.len(),
        ensures
            final(self).wf(),
            g == old(self).games@[gi as int],
            g.wf(),
            final(self).games@ == old(self).games@.remove(gi as int),
            !has_game(final(self).games@, g.id@),
            final(self).users == old(self).users,
            final(self).events == old(self).events,
    {
        let ghost s0 = *self;
        let g = self.games.remove(gi);
        proof {
            assert forall|a: int, b: int|
                0 <= a < self.games@.len() && 0 <= b < self.games@.len() && a != b implies #[trigger] self.games@[a].id@
                != #[trigger] self.games@[b].id@ by {
                let a0 = if a < gi { a } else { a + 1 };
                let b0 = if b < gi { b } else { b + 1 };
                assert(self.games@[a] == s0.games@[a0] && self.games@[b] == s0.games@[b0]);
            }
            assert forall|a: int| 0 <= a < self.games@.len() implies #[trigger] self.games@[a].wf() by {
                let a0 = if a < gi { a } else { a + 1 };
                assert(self.games@[a] == s0.games@[a0]);
            }
            if has_game(self.games@, g.id@) {
                let a = choose|a: int| 0 <= a < self.games@.len() && #[trigger] self.games@[a].id@ == g.id@;
                let a0 = if a < gi { a } else { a + 1 };
                assert(self.games@[a] == s0.games@[a0]);
            }
        }
        g
    }

    /// Puts session `g` back at position `gi`.
    fn restore_game(&mut self, gi: usize, g: Game)
        requires
            old(self).wf(),
            gi <= old(self).games@.len(),
            g.wf(),
            !has_game(old(self).games@, g.id@),
        ensures
            final(self).wf(),
            final(self).games@ == old(self).games@.insert(gi as int, g),
            final(self).users == old(self).users,
            final(self).events == old(self).events,
    {
        let ghost s0 = *self;
        self.games.insert(gi, g);
        proof {
            assert forall|a: int, b: int|
                0 <= a < self.games@.len() && 0 <= b < self.games@.len() && a != b implies #[trigger] self.games@[a].id@
                != #[trigger] self.games@[b].id@ by {
                if a != gi && b != gi {
                    let a0 = if a < gi { a } else { a - 1 };
                    let b0 = if b < gi { b } else { b - 1 };
                    assert(self.games@[a] == s0.games@[a0] && self.games@[b] == s0.games@[b0]);
                } else if a == gi {
                    let b0 = if b < gi { b } else { b - 1 };
                    assert(self.games@[b] == s0.games@[b0]);
                } else {
                    let a0 = if a < gi { a } else { a - 1 };
                    assert(self.games@[a] == s0.games@[a0]);
                }
            }
            assert forall|a: int| 0 <= a < self.games@.len() implies #[trigger] self.games@[a].wf() by {
                if a != gi {
                    let a0 = if a < gi { a } else { a - 1 };
                    assert(self.games@[a] == s0.games@[a0]);
                }
            }
        }
    }

    /// Delivers `user_id`'s fleet to the session they sit in.
    pub fn add_ships_to_game(&mut self, user_id: &String, ships: &Ships) -> (r: Result<
        (),
        PlacementError,
    >)
        requires
            old(self).wf(),
        ensures
            final(self).wf(),
            submit_effect(*old(self), *final(self), user_id@, ships.ships@, r),
    {
        let (_ui, gi) = match self.locate(user_id) {
            Some(p) => p,
            None => {
                return Err(PlacementError::NotAPlayer);
            },
        };
        let ghost s0 = *self;
        let mut game = self.take_game(gi);
        let r = game.add_ships(ships, user_id);
        self.restore_game(gi, game);
        proof {
            assert(self.games@ =~= s0.games@.update(gi as int, self.games@[gi as int]));
        }
        r
    }
}


impl State {
    /// Records the result `r` of a shot by the user at position `ui` in the
    /// session `game` (which stood at position `gi` as `g0` before the shot
    /// and has been taken out of the directory).
    fn finish_shot(
        &mut self,
        ui: usize,
        gi: usize,
        game: Game,
        user_id: &String,
        r: &Result<Shot, AttackError>,
        Ghost(g0): Ghost<Game>,
    )
        requires
            old(self).wf(),
            game.wf(),
            ui < old(self).users@.len(),
            old(self).users@[ui as int].id@ == user_id@,
            gi <= old(self).games@.len(),
            !has_game(old(self).games@, game.id@),
            g0.id == game.id && g0.player1 == game.player1 && g0.player2 == game.player2,
            r is Err ==> game == g0,
            r is Ok ==> game.is_p1(user_id@) || game.is_p2(user_id@),
            r matches Ok(sh) && sh.winner is Some ==> game.player2 is Some,
        ensures
            final(self).wf(),
            record_effect(
                old(self).users@,
                old(self).games@.insert(gi as int, g0),
                queued(old(self).events),
                *final(self),
                user_id@,
                gi as int,
                game,
                *r,
            ),
    {
        let ghost games = old(self).games@.insert(gi as int, g0);
        proof {
            assert(games[gi as int] == g0);
            assert(user_index(self.users@, user_id@) == ui as int) by {
                let j = user_index(self.users@, user_id@);
                assert(0 <= j < self.users@.len() && self.users@[j].id@ == user_id@);
            }
        }
        match r {
            Err(_) => {
                self.restore_game(gi, game);
            },
            Ok(shot) => {
                let ev = ServerEvent::All(
                    Payload::AttackResult {
                        room_id: game.id.clone(),
                        x: shot.x,
                        y: shot.y,
                        outcome: shot.outcome,
                    },
                );
                if shot.winner.is_none() {
                    self.restore_game(gi, game);
                    self.add_event(ev);
                    proof {
                        assert(queued(self.events).subrange(0, queued(old(self).events).len() as int)
                            =~= queued(old(self).events));
                    }
                } else {
                    self.add_event(ev);
                    let ghost s1 = *self;
                    let mut u = self.users[ui].copy();
                    if u.wins < u32::MAX {
                        u.wins = u.wins + 1;
                    }
                    self.users.set(ui, u);
                    self.add_update_winners_event();
                    let ghost s2 = *self;
                    let over = ServerEvent::User(
                        self.users[ui].addr.clone(),
                        Payload::GameOver { room_id: game.id.clone(), winner_id: user_id.clone() },
                    );
                    self.add_event(over);
                    let ghost s3 = *self;
                    let foe = if *user_id == game.player1 {
                        match &game.player2 {
                            Some(p) => p.clone(),
                            None => game.player1.clone(),
                        }
                    } else {
                        game.player1.clone()
                    };
                    proof {
                        assert(foe@ == opponent(g0, user_id@));
                    }
                    match self.find_user(&foe) {
                        Some(fi) => {
                            proof {
                                assert(user_index(self.users@, foe@) == fi as int) by {
                                    let j = user_index(self.users@, foe@);
                                    assert(0 <= j < self.users@.len() && self.users@[j].id@
                                        == foe@);
                                }
                                assert(user_index(old(self).users@, foe@) == fi as int) by {
                                    let j = user_index(old(self).users@, foe@);
                                    assert(0 <= j < old(self).users@.len() && old(
                                        self,
                                    ).users@[j].id@ == foe@);
                                    assert(self.users@[j].id@ == foe@);
                                }
                            }
                            let over2 = ServerEvent::User(
                                self.users[fi].addr.clone(),
                                Payload::GameOver {
                                    room_id: game.id.clone(),
                                    winner_id: user_id.clone(),
                                },
                            );
                            self.add_event(over2);
                        },
                        None => {
                            proof {
                                if has_user(old(self).users@, foe@) {
                                    let j = choose|j: int|
                                        0 <= j < old(self).users@.len() && #[trigger] old(
                                            self,
                                        ).users@[j].id@ == foe@;
                                    assert(self.users@[j].id@ == foe@);
                                }
                            }
                        },
                    }
                    proof {
                        let q = queued(old(self).events);
                        let n = q.len() as int;
                        let q2 = queued(self.events);
                        assert(q2.subrange(0, n) =~= q) by {
                            assert(queued(s2.events).subrange(0, n) =~= q);
                            assert(queued(s3.events).subrange(0, n) =~= q);
                        }
                        assert(old(self).games@.insert(gi as int, g0).remove(gi as int) =~= old(
                            self,
                        ).games@);
                        let l3 = queued(s3.events).len() as int;
                        assert(q2.subrange(0, l3) =~= queued(s3.events));
                        assert(q2[n] == queued(s3.events)[n]);
                        assert(q2[n + 1] == queued(s3.events)[n + 1]);
                        assert(q2[n + 2] == queued(s3.events)[n + 2]);
                        assert(queued(s3.events)[n] == queued(s2.events)[n]);
                        assert(queued(s3.events)[n + 1] == queued(s2.events)[n + 1]);
                        assert(queued(s2.events)[n] == queued(s1.events)[n]);
                    }
                }
            },
        }
        proof {
            if r is Err {
                assert(self.games@ =~= games);
            } else if r->Ok_0.winner is None {
                assert(self.games@ =~= games.update(gi as int, game));
            }
        }
    }

    /// `user_id` shoots at `(x, y)` in the session they sit in.
    pub fn attack(&mut self, user_id: &String, x: u8, y: u8) -> (r: Result<Shot, AttackError>)
        requires
            old(self).wf(),
        ensures
            final(self).wf(),
            attack_effect(*old(self), *final(self), user_id@, x as int, y as int, r),
    {
        let (ui, gi) = match self.locate(user_id) {
            Some(p) => p,
            None => {
                return Err(AttackError::NotAPlayer);
            },
        };
        let mut game = self.take_game(gi);
        let ghost mid = *self;
        let ghost g0 = game;
        let r = game.attack(user_id, x, y);
        let ghost g2 = game;
        self.finish_shot(ui, gi, game, user_id, &r, Ghost(g0));
        proof {
            assert(mid.games@.insert(gi as int, g0) =~= old(self).games@);
            assert(mid.users@ == old(self).users@);
            assert(queued(mid.events) == queued(old(self).events));
            assert(record_effect(
                old(self).users@,
                old(self).games@,
                queued(old(self).events),
                *self,
                user_id@,
                gi as int,
                g2,
                r,
            ));
            assert(game_shot(old(self).games@[gi as int], g2, user_id@, x as int, y as int, r));
            assert(g2.wf());
            assert(seat_of(*old(self), user_id@) == Some(gi as int));
            assert(exists|g: Game|
                #[trigger] game_shot(old(self).games@[gi as int], g, user_id@, x as int, y as int, r) && g.wf()
                    && record_effect(old(self).users@, old(self).games@, queued(old(self).events), *self, user_id@, gi as int, g, r));
            let sg = seat_of(*old(self), user_id@);
            assert(sg is Some);
            assert(sg->Some_0 == gi as int);
            assert(attack_effect(*old(self), *self, user_id@, x as int, y as int, r));
        }
        r
    }

    /// `user_id` shoots at `choice`'s unresolved cell in the session they
    /// sit in (see `Game::random_attack_with`).
    pub fn random_attack_with(&mut self, user_id: &String, choice: usize) -> (r: Result<
        Shot,
        AttackError,
    >)
        requires
            old(self).wf(),
        ensures
            final(self).wf(),
            random_attack_effect(*old(self), *final(self), user_id@, choice as int, r),
    {
        let (ui, gi) = match self.locate(user_id) {
            Some(p) => p,
            None => {
                return Err(AttackError::NotAPlayer);
            },
        };
        let mut game = self.take_game(gi);
        let ghost mid = *self;
        let ghost g0 = game;
        let r = game.random_attack_with(user_id, choice);
        let ghost g2 = game;
        self.finish_shot(ui, gi, game, user_id, &r, Ghost(g0));
        proof {
            assert(mid.games@.insert(gi as int, g0) =~= old(self).games@);
            assert(mid.users@ == old(self).users@);
            assert(queued(mid.events) == queued(old(self).events));
            assert(record_effect(
                old(self).users@,
                old(self).games@,
                queued(old(self).events),
                *self,
                user_id@,
                gi as int,
                g2,
                r,
            ));
            assert(random_shot(old(self).games@[gi as int], g2, user_id@, choice as int, r));
            assert(g2.wf());
            let sg = seat_of(*old(self), user_id@);
            assert(sg is Some);
            assert(sg->Some_0 == gi as int);
            assert(random_attack_effect(*old(self), *self, user_id@, choice as int, r));
        }
        r
    }
}


/// What the connection with key `addr` closing does: its user leaves the
/// directory; a session the user sat in is torn down and the lobby queued;
/// the leaderboard is queued.
pub open spec fn disconnect_effect(s: State, after: State, addr: Seq<char>) -> bool {
    if !has_addr(s.users@, addr) {
        unchanged(s, after)
    } else {
        let ai = addr_index(s.users@, addr);
        let u = s.users@[ai];
        let users = s.users@.remove(ai);
        let q = queued(s.events);
        let q2 = queued(after.events);
        let n = q.len() as int;
        &&& after.users@ == users
        &&& if u.in_room is Some {
            let room = u.in_room->Some_0@;
            &&& after.games@ == if has_game(s.games@, room) {
                s.games@.remove(game_index(s.games@, room))
            } else {
                s.games@
            }
            &&& appended(q, q2, 2)
            &&& is_lobby_event(q2[n], after.games@, users)
            &&& is_leaderboard_event(q2[n + 1], users)
        } else {
            &&& after.games@ == s.games@
            &&& appended(q, q2, 1)
            &&& is_leaderboard_event(q2[n], users)
        }
    }
}

impl State {
    /// `user_id` shoots at an unresolved cell of the opponent's board drawn
    /// uniformly at random, in the session they sit in.
    pub fn random_attack(&mut self, user_id: &String) -> (r: Result<Shot, AttackError>)
        requires
            old(self).wf(),
        ensures
            final(self).wf(),
            exists|choice: int| random_attack_effect(*old(self), *final(self), user_id@, choice, r),
    {
        let n = match self.locate(user_id) {
            Some((_, gi)) => {
                let g = &self.games[gi];
                proof {
                    assert(self.games@[gi as int].wf());
                }
                if g.is_p1_turn {
                    unresolved_cells(&g.p2_board).len()
                } else {
                    unresolved_cells(&g.p1_board).len()
                }
            },
            None => 0,
        };
        let choice = if n > 0 {
            random_below(n)
        } else {
            0
        };
        let r = self.random_attack_with(user_id, choice);
        proof {
            assert(random_attack_effect(*old(self), *self, user_id@, choice as int, r));
        }
        r
    }

    /// Takes the user registered from connection `addr` out of the
    /// directory.
    pub fn remove_user_by_addr(&mut self, addr: &String) -> (r: Option<User>)
        requires
            old(self).wf(),
        ensures
            final(self).wf(),
            !has_addr(old(self).users@, addr@) ==> r is None && *final(self) == *old(self),
            has_addr(old(self).users@, addr@) ==> {
                let ai = addr_index(old(self).users@, addr@);
                &&& r == Some(old(self).users@[ai])
                &&& final(self).users@ == old(self).users@.remove(ai)
                &&& final(self).games == old(self).games
                &&& final(self).events == old(self).events
            },
    {
        match self.find_user_by_addr(addr) {
            Some(ai) => {
                proof {
                    assert(addr_index(self.users@, addr@) == ai as int) by {
                        let j = addr_index(self.users@, addr@);
                        assert(0 <= j < self.users@.len() && self.users@[j].addr@ == addr@);
                    }
                }
                let ghost s0 = *self;
                let u = self.users.remove(ai);
                proof {
                    assert forall|a: int, b: int|
                        0 <= a < self.users@.len() && 0 <= b < self.users@.len() && a != b implies #[trigger] self.users@[a].id@
                        != #[trigger] self.users@[b].id@ && self.users@[a].addr@ != self.users@[b].addr@ by {
                        let a0 = if a < ai { a } else { a + 1 };
                        let b0 = if b < ai { b } else { b + 1 };
                        assert(self.users@[a] == s0.users@[a0] && self.users@[b] == s0.users@[b0]);
                    }
                }
                Some(u)
            },
            None => None,
        }
    }
}

/// Handles the closing of the connection with key `addr`. Any session the
/// departing user sat in is gone afterwards.
pub fn handle_disconnect(addr: &String, state: &mut State)
    requires
        old(state).wf(),
    ensures
        final(state).wf(),
        disconnect_effect(*old(state), *final(state), addr@),
        has_addr(old(state).users@, addr@) && old(state).users@[addr_index(
            old(state).users@,
            addr@,
        )].in_room is Some ==> !has_game(
            final(state).games@,
            old(state).users@[addr_index(old(state).users@, addr@)].in_room->Some_0@,
        ),
{
    match state.remove_user_by_addr(addr) {
        Some(user) => {
            let ghost s1 = *state;
            match &user.in_room {
                Some(room) => {
                    match state.find_game(room) {
                        Some(gi) => {
                            proof {
                                assert(game_index(state.games@, room@) == gi as int) by {
                                    let j = game_index(state.games@, room@);
                                    assert(0 <= j < state.games@.len() && state.games@[j].id@
                                        == room@);
                                }
                            }
                            let _ = state.take_game(gi);
                        },
                        None => {},
                    }
                    let ghost s2 = *state;
                    state.add_update_room_event();
                    let ghost s3 = *state;
                    state.add_update_winners_event();
                    proof {
                        let q = queued(s1.events);
                        let n = q.len() as int;
                        let q2 = queued(state.events);
                        assert(queued(s2.events) == q);
                        assert(q2.subrange(0, n) =~= q) by {
                            assert(queued(s3.events).subrange(0, n) =~= q);
                        }
                        assert(q2[n] == queued(s3.events)[n]);
                    }
                },
                None => {
                    state.add_update_winners_event();
                },
            }
        },
        None => {},
    }
}

/// Removes and returns every queued event, front first, for delivery.
pub fn tick(state: &mut State) -> (r: Vec<ServerEvent>)
    requires
        old(state).wf(),
    ensures
        final(state).wf(),
        final(state).users == old(state).users,
        final(state).games == old(state).games,
        r@ == queued(old(state).events),
        queued(final(state).events).len() == 0,
{
    state.drain_events()
}


/// A decoded inbound command.
#[derive(Debug)]
pub enum ClientEvent {
    /// Register under a name.
    Reg(String),
    CreateRoom,
    /// Join the room with this id.
    AddUserToRoom(String),
    AddShips(Ships),
    Attack { x: u8, y: u8 },
    RandomAttack,
}

/// Why a command was rejected; reported to its sender.
#[derive(Debug, Clone, Copy, PartialEq, Eq, Structural)]
pub enum CommandError {
    /// The connection has no user yet.
    NotRegistered,
    Room(RoomError),
    Placement(PlacementError),
    Attack(AttackError),
}

/// The reply to the sender of a room command.
pub open spec fn room_reply<T>(r: Result<T, RoomError>) -> Result<(), CommandError> {
    match r {
        Ok(_) => Ok(()),
        Err(e) => Err(CommandError::Room(e)),
    }
}

/// The reply to the sender of a fleet.
pub open spec fn placement_reply(r: Result<(), PlacementError>) -> Result<(), CommandError> {
    match r {
        Ok(_) => Ok(()),
        Err(e) => Err(CommandError::Placement(e)),
    }
}

/// The reply to the sender of a shot.
pub open spec fn attack_reply(r: Result<Shot, AttackError>) -> Result<(), CommandError> {
    match r {
        Ok(_) => Ok(()),
        Err(e) => Err(CommandError::Attack(e)),
    }
}

/// What `handle_event` does with command `ev` from connection `addr`:
/// registration goes by connection; every other command needs a user on
/// the connection and runs as that user.
pub open spec fn dispatch_effect(
    s: State,
    after: State,
    addr: Seq<char>,
    ev: ClientEvent,
    r: Result<(), CommandError>,
) -> bool {
    match ev {
        ClientEvent::Reg(name) => exists|id: Seq<char>, rr: Result<User, RoomError>, mid: State|
            #[trigger] register_effect(s, mid, addr, name@, id, rr) && reply_effect(
                s,
                mid,
                after,
                addr,
                rr,
            ) && r == room_reply(rr),
        _ => if !has_addr(s.users@, addr) {
            r == Err::<(), CommandError>(CommandError::NotRegistered) && unchanged(s, after)
        } else {
            let user = s.users@[addr_index(s.users@, addr)].id@;
            match ev {
                ClientEvent::CreateRoom => exists|room: Seq<char>, rr: Result<String, RoomError>|
                    #[trigger] create_effect(s, after, user, room, rr) && r == room_reply(rr),
                ClientEvent::AddUserToRoom(room) => exists|rr: Result<(), RoomError>|
                    #[trigger] join_effect(s, after, user, room@, rr) && r == room_reply(rr),
                ClientEvent::AddShips(ships) => exists|rr: Result<(), PlacementError>|
                    #[trigger] submit_effect(s, after, user, ships.ships@, rr) && r == placement_reply(rr),
                ClientEvent::Attack { x, y } => exists|rr: Result<Shot, AttackError>|
                    #[trigger] attack_effect(s, after, user, x as int, y as int, rr) && r
                        == attack_reply(rr),
                _ => exists|choice: int, rr: Result<Shot, AttackError>|
                    #[trigger] random_attack_effect(s, after, user, choice, rr) && r == attack_reply(
                        rr,
                    ),
            }
        },
    }
}

/// Runs command `event` sent from connection `addr`.
pub fn handle_event(addr: &String, event: ClientEvent, state: &mut State) -> (r: Result<
    (),
    CommandError,
>)
    requires
        old(state).wf(),
    ensures
        final(state).wf(),
        dispatch_effect(*old(state), *final(state), addr@, event, r),
{
    if let ClientEvent::Reg(name) = &event {
        let ghost s0 = *state;
        let known = state.find_user_by_addr(addr).is_some();
        let rr = state.add_user(addr, name);
        let ghost id = choose|id: Seq<char>| register_effect(s0, *state, addr@, name@, id, rr);
        let ghost mid = *state;
        if !known {
            if let Ok(u) = &rr {
                let reply = ServerEvent::User(
                    addr.clone(),
                    Payload::Registered { user_id: u.id.clone(), name: u.name.clone() },
                );
                state.add_event(reply);
            }
        }
        let r = match rr {
            Ok(_) => Ok(()),
            Err(e) => Err(CommandError::Room(e)),
        };
        proof {
            assert(register_effect(s0, mid, addr@, name@, id, rr) && r == room_reply(rr));
            assert(reply_effect(s0, mid, *state, addr@, rr)) by {
                if !known && rr is Ok {
                    let q = queued(mid.events);
                    assert(queued(state.events).subrange(0, q.len() as int) =~= q);
                }
            }
        }
        return r;
    }
    let user = match state.find_user_by_addr(addr) {
        Some(ai) => {
            proof {
                assert(addr_index(state.users@, addr@) == ai as int) by {
                    let j = addr_index(state.users@, addr@);
                    assert(0 <= j < state.users@.len() && state.users@[j].addr@ == addr@);
                }
            }
            state.users[ai].id.clone()
        },
        None => {
            return Err(CommandError::NotRegistered);
        },
    };
    let ghost s0 = *state;
    match event {
        // Registration was answered above.
        ClientEvent::Reg(_) => Ok(()),
        ClientEvent::CreateRoom => {
            let rr = state.create_game(&user);
            let ghost room = choose|room: Seq<char>| create_effect(s0, *state, user@, room, rr);
            let r = match rr {
                Ok(_) => Ok(()),
                Err(e) => Err(CommandError::Room(e)),
            };
            proof {
                assert(create_effect(s0, *state, user@, room, rr) && r == room_reply(rr));
            }
            r
        },
        ClientEvent::AddUserToRoom(room) => {
            let rr = state.join_game(&room, &user);
            let r = match rr {
                Ok(_) => Ok(()),
                Err(e) => Err(CommandError::Room(e)),
            };
            proof {
                assert(join_effect(s0, *state, user@, room@, rr) && r == room_reply(rr));
            }
            r
        },
        ClientEvent::AddShips(ships) => {
            let rr = state.add_ships_to_game(&user, &ships);
            let r = match rr {
                Ok(_) => Ok(()),
                Err(e) => Err(CommandError::Placement(e)),
            };
            proof {
                assert(submit_effect(s0, *state, user@, ships.ships@, rr) && r == placement_reply(rr));
            }
            r
        },
        ClientEvent::Attack { x, y } => {
            let rr = state.attack(&user, x, y);
            let r = match rr {
                Ok(_) => Ok(()),
                Err(e) => Err(CommandError::Attack(e)),
            };
            proof {
                assert(attack_effect(s0, *state, user@, x as int, y as int, rr) && r == attack_reply(rr));
            }
            r
        },
        ClientEvent::RandomAttack => {
            let rr = state.random_attack(&user);
            let ghost c = choose|c: int| random_attack_effect(s0, *state, user@, c, rr);
            let r = match rr {
                Ok(_) => Ok(()),
                Err(e) => Err(CommandError::Attack(e)),
            };
            proof {
                assert(random_attack_effect(s0, *state, user@, c, rr) && r == attack_reply(rr));
            }
            r
        },
    }
}


proof fn lemma_waiting_from(games: Seq<Game>, n: int)
    requires
        0 <= n <= games.len(),
    ensures
        forall|k: int|
            0 <= k < waiting_games(games, n).len() ==> has_game(
                games,
                #[trigger] waiting_games(games, n)[k].id@,
            ),
    decreases n,
{
    if n > 0 {
        lemma_waiting_from(games, n - 1);
        let w = waiting_games(games, n - 1);
        assert forall|k: int| 0 <= k < waiting_games(games, n).len() implies has_game(
            games,
            #[trigger] waiting_games(games, n)[k].id@,
        ) by {
            if k < w.len() {
                assert(waiting_games(games, n)[k] == w[k]);
            } else {
                assert(games[n - 1].id@ == waiting_games(games, n)[k].id@);
            }
        }
    }
}

/// The lobby lists only sessions of the directory: a session that is gone
/// (as one is after a player disconnects) is not in it.
pub proof fn lemma_lobby_omits_closed(
    rooms: Seq<RoomInfo>,
    games: Seq<Game>,
    users: Seq<User>,
    room: Seq<char>,
)
    requires
        lobby_matches(rooms, games, users),
        !has_game(games, room),
    ensures
        forall|k: int| 0 <= k < rooms.len() ==> #[trigger] rooms[k].room_id@ != room,
{
    lemma_waiting_from(games, games.len() as int);
    assert forall|k: int| 0 <= k < rooms.len() implies #[trigger] rooms[k].room_id@ != room by {
        let w = waiting_games(games, games.len() as int);
        assert(has_game(games, w[k].id@));
    }
}

/// In the registry, once a second player has joined a room, a further
/// registered user who sits in no live session is refused with `RoomFull`.
pub proof fn lemma_room_full_after_join(
    s0: State,
    s1: State,
    s2: State,
    b: Seq<char>,
    c: Seq<char>,
    room: Seq<char>,
    r1: Result<(), RoomError>,
    r2: Result<(), RoomError>,
)
    requires
        s0.wf(),
        s1.wf(),
        join_effect(s0, s1, b, room, r1),
        r1 is Ok,
        join_effect(s1, s2, c, room, r2),
        room_refusal(s1, c) is None,
    ensures
        r2 == Err::<(), RoomError>(RoomError::RoomFull),
{
    let gi = game_index(s0.games@, room);
    assert(s1.games@[gi].id@ == room);
    assert(has_game(s1.games@, room));
    let gj = game_index(s1.games@, room);
    assert(s1.games@[gj].id@ == room);
    assert(gj == gi);
}

} // verus!
