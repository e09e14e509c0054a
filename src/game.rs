use rand::Rng;
use vstd::prelude::*;
use crate::board::{
    fleet_destroyed, is_resolved, placement_result, shot_effect, AttackError, AttackOutcome, Board,
    Cell, PlacementError, placed_grid,
};
use crate::ships::{in_grid, ship_fits, valid_fleet, Ship, Ships, BOARD_SIZE};

verus! {

/// Lifecycle of a session; it only ever moves forward.
#[derive(Debug, Clone, Copy, PartialEq, Eq, Structural)]
pub enum GameStatus {
    Waiting,
    PlacingShips,
    Started,
    Finished,
}

/// Why a room could not be created or joined.
#[derive(Debug, Clone, Copy, PartialEq, Eq, Structural)]
pub enum RoomError {
    AlreadyInRoom,
    RoomFull,
    SelfJoin,
    RoomNotFound,
    /// A freshly drawn identifier is already in use.
    IdTaken,
    /// No user is registered under the given identity.
    UnknownUser,
}

/// A resolved shot: what it did, and the shooter's id when it won the match.
#[derive(Debug, Clone)]
pub struct Shot {
    pub outcome: AttackOutcome,
    pub x: u8,
    pub y: u8,
    pub winner: Option<String>,
}

/// One match between two players.
#[derive(Debug)]
pub struct Game {
    pub id: String,
    pub status: GameStatus,
    pub player1: String,
    pub player2: Option<String>,
    pub is_p1_turn: bool,
    pub p1_board: Board,
    pub p2_board: Board,
}

/// Relies on `rand::random::<bool>`: a fair coin; nothing is promised of
/// the value.
#[verifier::external_body]
fn coin_flip() -> (r: bool) {
    rand::random::<bool>()
}

/// What `join` by `user` does to session `g`: a second seat already taken
/// refuses with `RoomFull`, the owner joining refuses with `SelfJoin`;
/// otherwise the user takes the second seat and placement begins.
pub open spec fn join_result(g: Game, after: Game, user: Seq<char>, r: Result<(), RoomError>) -> bool {
    if g.player2 is Some {
        r == Err::<(), RoomError>(RoomError::RoomFull) && after == g
    } else if g.player1@ == user {
        r == Err::<(), RoomError>(RoomError::SelfJoin) && after == g
    } else {
        &&& r is Ok
        &&& after.player2 is Some && after.player2->Some_0@ == user
        &&& after.status == GameStatus::PlacingShips
        &&& after.id == g.id && after.player1 == g.player1 && after.is_p1_turn == g.is_p1_turn
        &&& after.p1_board == g.p1_board && after.p2_board == g.p2_board
    }
}

impl Game {
    /// `u` sits in the first seat.
    pub open spec fn is_p1(self, u: Seq<char>) -> bool {
        self.player1@ == u
    }

    /// `u` sits in the second seat.
    pub open spec fn is_p2(self, u: Seq<char>) -> bool {
        self.player2 is Some && self.player2->Some_0@ == u
    }

    pub open spec fn wf(self) -> bool {
        &&& self.p1_board.wf()
        &&& self.p2_board.wf()
        &&& (self.status == GameStatus::Waiting) == (self.player2 is None)
        &&& self.player2 is Some ==> self.player2->Some_0@ != self.player1@
        &&& (self.status == GameStatus::Waiting || self.status == GameStatus::PlacingShips) ==> {
            &&& (self.p1_board.ships@.len() == 0 || self.p2_board.ships@.len() == 0)
            &&& forall|x: int, y: int|
                in_grid(x, y) ==> !is_resolved(#[trigger] self.p1_board.cell(x, y))
                    && !is_resolved(self.p2_board.cell(x, y))
        }
        &&& self.status == GameStatus::Waiting ==> self.p1_board.ships@.len() == 0
            && self.p2_board.ships@.len() == 0
        &&& (self.status == GameStatus::Started || self.status == GameStatus::Finished) ==> (
        self.p1_board.ships@.len() > 0 && self.p2_board.ships@.len() > 0)
    }

    /// A new session owned by `owner`, waiting for a second player, with
    /// `p1_first` deciding who shoots first.
    pub fn create_with_turn(id: &String, owner: &String, p1_first: bool) -> (r: Game)
        ensures
            r.wf(),
            r.id@ == id@,
            r.player1@ == owner@,
            r.player2 is None,
            r.status == GameStatus::Waiting,
            r.is_p1_turn == p1_first,
            r.p1_board.ships@.len() == 0,
            r.p2_board.ships@.len() == 0,
    {
        let p1_board = Board::new();
        let p2_board = Board::new();
        Game {
            id: id.clone(),
            status: GameStatus::Waiting,
            player1: owner.clone(),
            player2: None,
            is_p1_turn: p1_first,
            p1_board,
            p2_board,
        }
    }

    /// A new session owned by `owner`; a coin flip decides who shoots first.
    pub fn create(id: &String, owner: &String) -> (r: Game)
        ensures
            r.wf(),
            r.id@ == id@,
            r.player1@ == owner@,
            r.player2 is None,
            r.status == GameStatus::Waiting,
            r.p1_board.ships@.len() == 0,
            r.p2_board.ships@.len() == 0,
    {
        let p1_first = coin_flip();
        Game::create_with_turn(id, owner, p1_first)
    }

    /// Seats `user_id` as the second player.
    pub fn join(&mut self, user_id: &String) -> (r: Result<(), RoomError>)
        requires
            old(self).wf(),
        ensures
            final(self).wf(),
            join_result(*old(self), *final(self), user_id@, r),
    {
        if self.player2.is_some() {
            return Err(RoomError::RoomFull);
        }
        if *user_id == self.player1 {
            return Err(RoomError::SelfJoin);
        }
        self.player2 = Some(user_id.clone());
        self.status = GameStatus::PlacingShips;
        Ok(())
    }
}


/// Relies on `rand::Rng::gen_range` over `0..n` with the thread-local
/// generator: a value below `n`, which must be positive.
#[verifier::external_body]
pub(crate) fn random_below(n: usize) -> (r: usize)
    requires
        n > 0,
    ensures
        r < n,
{
    rand::thread_rng().gen_range(0..n)
}

/// Indices, in increasing order, of the cells among the first `n` of
/// `cells` that have not been shot at.
pub open spec fn open_cells(cells: Seq<Cell>, n: int) -> Seq<usize>
    decreases n,
{
    if n <= 0 {
        Seq::empty()
    } else if !is_resolved(cells[n - 1]) {
        open_cells(cells, n - 1).push((n - 1) as usize)
    } else {
        open_cells(cells, n - 1)
    }
}

/// Each entry of `open_cells(cells, n)` is an unresolved cell below `n`.
pub proof fn lemma_open_cells(cells: Seq<Cell>, n: int)
    requires
        0 <= n <= cells.len(),
        n <= BOARD_SIZE * BOARD_SIZE,
    ensures
        forall|k: int|
            0 <= k < open_cells(cells, n).len() ==> 0 <= #[trigger] open_cells(cells, n)[k] < n
                && !is_resolved(cells[open_cells(cells, n)[k] as int]),
    decreases n,
{
    if n > 0 {
        lemma_open_cells(cells, n - 1);
        let prev = open_cells(cells, n - 1);
        assert forall|k: int| 0 <= k < open_cells(cells, n).len() implies 0 <= #[trigger] open_cells(
            cells,
            n,
        )[k] < n && !is_resolved(cells[open_cells(cells, n)[k] as int]) by {
            if k < prev.len() {
                assert(open_cells(cells, n)[k] == prev[k]);
            }
        }
    }
}

/// The attack result a shot on the board gives, seen from the session.
pub open spec fn board_result(r: Result<Shot, AttackError>) -> Result<AttackOutcome, AttackError> {
    match r {
        Ok(s) => Ok(s.outcome),
        Err(e) => Err(e),
    }
}

/// What `add_ships` by `user` with fleet `ships` does to session `g`.
pub open spec fn placement_effect(
    g: Game,
    after: Game,
    user: Seq<char>,
    ships: Seq<Ship>,
    r: Result<(), PlacementError>,
) -> bool {
    if !g.is_p1(user) && !g.is_p2(user) {
        r == Err::<(), PlacementError>(PlacementError::NotAPlayer) && after == g
    } else if g.status != GameStatus::PlacingShips {
        r == Err::<(), PlacementError>(PlacementError::WrongPhase) && after == g
    } else {
        let mine = if g.is_p1(user) { g.p1_board } else { g.p2_board };
        let theirs = if g.is_p1(user) { g.p2_board } else { g.p1_board };
        let mine_after = if g.is_p1(user) { after.p1_board } else { after.p2_board };
        let theirs_after = if g.is_p1(user) { after.p2_board } else { after.p1_board };
        &&& mine.ships@.len() > 0 ==> r == Err::<(), PlacementError>(PlacementError::AlreadyPlaced)
        &&& mine.ships@.len() == 0 ==> placement_result(ships, r)
        &&& r is Err ==> after == g
        &&& r is Ok ==> {
            &&& mine_after.ships@ == ships
            &&& placed_grid(mine_after.cells@, ships)
            &&& theirs_after == theirs
            &&& after.status == if theirs.ships@.len() > 0 {
                GameStatus::Started
            } else {
                GameStatus::PlacingShips
            }
            &&& after.id == g.id && after.player1 == g.player1 && after.player2 == g.player2
            &&& after.is_p1_turn == g.is_p1_turn
        }
    }
}

/// Checks shared by both kinds of attack: the phase, the seat, the turn.
pub open spec fn shot_refusal(g: Game, user: Seq<char>) -> Option<AttackError> {
    if g.status != GameStatus::Started {
        Some(AttackError::WrongPhase)
    } else if !g.is_p1(user) && !g.is_p2(user) {
        Some(AttackError::NotAPlayer)
    } else if g.is_p1(user) != g.is_p1_turn {
        Some(AttackError::NotYourTurn)
    } else {
        None
    }
}

/// What a shot by `user` at `(x, y)` does to session `g`: the shooter's
/// opponent's board takes the shot; a resolved shot passes the turn, and
/// ends the match when it destroys the opponent's fleet.
pub open spec fn game_shot(
    g: Game,
    after: Game,
    user: Seq<char>,
    x: int,
    y: int,
    r: Result<Shot, AttackError>,
) -> bool {
    if shot_refusal(g, user) is Some {
        r == Err::<Shot, AttackError>(shot_refusal(g, user)->Some_0) && after == g
    } else {
        let target = if g.is_p1_turn { g.p2_board } else { g.p1_board };
        let target_after = if g.is_p1_turn { after.p2_board } else { after.p1_board };
        let own = if g.is_p1_turn { g.p1_board } else { g.p2_board };
        let own_after = if g.is_p1_turn { after.p1_board } else { after.p2_board };
        &&& shot_effect(target, target_after, x, y, board_result(r))
        &&& r is Err ==> after == g
        &&& r is Ok ==> {
            &&& own_after == own
            &&& r->Ok_0.x == x && r->Ok_0.y == y
            &&& after.id == g.id && after.player1 == g.player1 && after.player2 == g.player2
            &&& after.is_p1_turn == !g.is_p1_turn
            &&& if fleet_destroyed(target_after.cells@) {
                &&& after.status == GameStatus::Finished
                &&& r->Ok_0.winner is Some
                &&& r->Ok_0.winner->Some_0@ == user
            } else {
                after.status == GameStatus::Started && r->Ok_0.winner is None
            }
        }
    }
}

/// What a random shot by `user` does to session `g` when the draw was
/// `choice`: the shot goes to the unresolved cell of the opponent's board
/// at position `choice` modulo their number, in row-major order.
pub open spec fn random_shot(
    g: Game,
    after: Game,
    user: Seq<char>,
    choice: int,
    r: Result<Shot, AttackError>,
) -> bool {
    if shot_refusal(g, user) is Some {
        r == Err::<Shot, AttackError>(shot_refusal(g, user)->Some_0) && after == g
    } else {
        let target = if g.is_p1_turn { g.p2_board } else { g.p1_board };
        let open = open_cells(target.cells@, BOARD_SIZE * BOARD_SIZE);
        if open.len() == 0 {
            r == Err::<Shot, AttackError>(AttackError::BoardExhausted) && after == g
        } else {
            let n = open[choice % open.len() as int] as int;
            game_shot(g, after, user, n % BOARD_SIZE as int, n / BOARD_SIZE as int, r)
        }
    }
}

impl Game {
    /// Commits `user_id`'s fleet to their board. Once both boards hold a
    /// fleet the match starts.
    pub fn add_ships(&mut self, ships: &Ships, user_id: &String) -> (r: Result<(), PlacementError>)
        requires
            old(self).wf(),
        ensures
            final(self).wf(),
            placement_effect(*old(self), *final(self), user_id@, ships.ships@, r),
    {
        let is_p1 = *user_id == self.player1;
        let is_p2 = match &self.player2 {
            Some(p) => *user_id == *p,
            None => false,
        };
        if !is_p1 && !is_p2 {
            return Err(PlacementError::NotAPlayer);
        }
        if self.status != GameStatus::PlacingShips {
            return Err(PlacementError::WrongPhase);
        }
        let res = if is_p1 {
            self.p1_board.place(&ships.ships)
        } else {
            self.p2_board.place(&ships.ships)
        };
        if res.is_ok() {
            if self.p1_board.ships.len() > 0 && self.p2_board.ships.len() > 0 {
                self.status = GameStatus::Started;
            }
        }
        res
    }

    /// `user_id` shoots at `(x, y)` on the opponent's board.
    pub fn attack(&mut self, user_id: &String, x: u8, y: u8) -> (r: Result<Shot, AttackError>)
        requires
            old(self).wf(),
        ensures
            final(self).wf(),
            game_shot(*old(self), *final(self), user_id@, x as int, y as int, r),
    {
        if self.status != GameStatus::Started {
            return Err(AttackError::WrongPhase);
        }
        let is_p1 = *user_id == self.player1;
        let is_p2 = match &self.player2 {
            Some(p) => *user_id == *p,
            None => false,
        };
        if !is_p1 && !is_p2 {
            return Err(AttackError::NotAPlayer);
        }
        if is_p1 != self.is_p1_turn {
            return Err(AttackError::NotYourTurn);
        }
        let res = if self.is_p1_turn {
            self.p2_board.attack(x, y)
        } else {
            self.p1_board.attack(x, y)
        };
        match res {
            Err(e) => Err(e),
            Ok(outcome) => {
                let done = if self.is_p1_turn {
                    self.p2_board.is_defeated()
                } else {
                    self.p1_board.is_defeated()
                };
                self.is_p1_turn = !self.is_p1_turn;
                if done {
                    self.status = GameStatus::Finished;
                    Ok(Shot { outcome, x, y, winner: Some(user_id.clone()) })
                } else {
                    Ok(Shot { outcome, x, y, winner: None })
                }
            },
        }
    }

    /// `user_id` shoots at the unresolved cell of the opponent's board at
    /// position `choice` (modulo their number) in row-major order.
    pub fn random_attack_with(&mut self, user_id: &String, choice: usize) -> (r: Result<
        Shot,
        AttackError,
    >)
        requires
            old(self).wf(),
        ensures
            final(self).wf(),
            random_shot(*old(self), *final(self), user_id@, choice as int, r),
    {
        if self.status != GameStatus::Started {
            return Err(AttackError::WrongPhase);
        }
        let is_p1 = *user_id == self.player1;
        let is_p2 = match &self.player2 {
            Some(p) => *user_id == *p,
            None => false,
        };
        if !is_p1 && !is_p2 {
            return Err(AttackError::NotAPlayer);
        }
        if is_p1 != self.is_p1_turn {
            return Err(AttackError::NotYourTurn);
        }
        let open = if self.is_p1_turn {
            unresolved_cells(&self.p2_board)
        } else {
            unresolved_cells(&self.p1_board)
        };
        if open.len() == 0 {
            return Err(AttackError::BoardExhausted);
        }
        let n = open[choice % open.len()];
        proof {
            let target = if self.is_p1_turn { self.p2_board } else { self.p1_board };
            lemma_open_cells(target.cells@, BOARD_SIZE * BOARD_SIZE);
            assert(open@[(choice as int) % (open@.len() as int)] == n);
        }
        let x = (n % 10) as u8;
        let y = (n / 10) as u8;
        self.attack(user_id, x, y)
    }

    /// `user_id` shoots at an unresolved cell of the opponent's board drawn
    /// uniformly at random.
    pub fn random_attack(&mut self, user_id: &String) -> (r: Result<Shot, AttackError>)
        requires
            old(self).wf(),
        ensures
            final(self).wf(),
            exists|choice: int| random_shot(*old(self), *final(self), user_id@, choice, r),
    {
        let open = if self.is_p1_turn {
            unresolved_cells(&self.p2_board)
        } else {
            unresolved_cells(&self.p1_board)
        };
        let choice = if open.len() > 0 {
            random_below(open.len())
        } else {
            0
        };
        let r = self.random_attack_with(user_id, choice);
        proof {
            assert(random_shot(*old(self), *self, user_id@, choice as int, r));
        }
        r
    }
}

/// The indices of the cells of `b` not yet shot at, in increasing order.
pub(crate) fn unresolved_cells(b: &Board) -> (r: Vec<usize>)
    requires
        b.wf(),
    ensures
        r@ == open_cells(b.cells@, BOARD_SIZE * BOARD_SIZE),
{
    let mut r: Vec<usize> = Vec::new();
    let n: usize = b.cells.len();
    let mut k: usize = 0;
    while k < n
        invariant
            n == b.cells@.len(),
            k <= n,
            r@ == open_cells(b.cells@, k as int),
        decreases n - k,
    {
        match b.cells[k] {
            Cell::Empty | Cell::Occupied(_) => {
                r.push(k);
            },
            _ => {},
        }
        k = k + 1;
    }
    r
}


/// Joining a waiting session fills its second seat and starts placement;
/// any later join is refused with `RoomFull`.
pub proof fn lemma_join_fills_then_full(
    g: Game,
    g1: Game,
    g2: Game,
    u: Seq<char>,
    v: Seq<char>,
    r1: Result<(), RoomError>,
    r2: Result<(), RoomError>,
)
    requires
        g.wf(),
        g.status == GameStatus::Waiting,
        g.player1@ != u,
        join_result(g, g1, u, r1),
        join_result(g1, g2, v, r2),
    ensures
        r1 is Ok,
        g1.player2 is Some && g1.player2->Some_0@ == u,
        g1.status == GameStatus::PlacingShips,
        r2 == Err::<(), RoomError>(RoomError::RoomFull),
        g2 == g1,
{
}

/// `g1` follows `g` by a shot that `user` was allowed to take: the shooter
/// held the turn, and the turn passed.
pub open spec fn turn_step(g: Game, g1: Game, user: Seq<char>) -> bool {
    &&& shot_refusal(g, user) is None
    &&& g.is_p1(user) == g.is_p1_turn
    &&& g1.is_p1_turn == !g.is_p1_turn
    &&& g1.player1 == g.player1 && g1.player2 == g.player2
}

/// A resolved aimed shot is a turn step.
pub proof fn lemma_shot_passes_turn(
    g: Game,
    g1: Game,
    user: Seq<char>,
    x: int,
    y: int,
    r: Result<Shot, AttackError>,
)
    requires
        game_shot(g, g1, user, x, y, r),
        r is Ok,
    ensures
        turn_step(g, g1, user),
{
}

/// A resolved random shot is a turn step.
pub proof fn lemma_random_shot_passes_turn(
    g: Game,
    g1: Game,
    user: Seq<char>,
    choice: int,
    r: Result<Shot, AttackError>,
)
    requires
        random_shot(g, g1, user, choice, r),
        r is Ok,
    ensures
        turn_step(g, g1, user),
{
}

/// Two consecutive resolved shots in a session are taken by its two
/// different players, the first by the holder of the turn, and the turn
/// comes back to where it started.
pub proof fn lemma_turns_alternate(g: Game, g1: Game, g2: Game, a: Seq<char>, b: Seq<char>)
    requires
        g.wf(),
        turn_step(g, g1, a),
        turn_step(g1, g2, b),
    ensures
        g.is_p1(a) == g.is_p1_turn,
        g.is_p1(b) == !g.is_p1_turn,
        a != b,
        g2.is_p1_turn == g.is_p1_turn,
{
}


/// During placement, a valid fleet submitted by a seated player whose board
/// is still empty is committed: ship `i` owns exactly its cells, as
/// `Occupied(i)`, and every other cell stays empty.
pub proof fn lemma_valid_fleet_committed(
    g: Game,
    after: Game,
    user: Seq<char>,
    ships: Seq<Ship>,
    r: Result<(), PlacementError>,
)
    requires
        g.wf(),
        g.status == GameStatus::PlacingShips,
        g.is_p1(user) || g.is_p2(user),
        (if g.is_p1(user) { g.p1_board } else { g.p2_board }).ships@.len() == 0,
        valid_fleet(ships),
        placement_effect(g, after, user, ships, r),
    ensures
        r is Ok,
        (if g.is_p1(user) { after.p1_board } else { after.p2_board }).ships@ == ships,
        placed_grid((if g.is_p1(user) { after.p1_board } else { after.p2_board }).cells@, ships),
{
    match r {
        Err(PlacementError::OutOfBounds(k)) => {
            assert(ship_fits(ships, k as int));
        },
        Err(PlacementError::Overlap(k)) => {
            assert(ship_fits(ships, k as int));
        },
        _ => {},
    }
}

/// During placement, a fleet with a ship off the grid or two ships sharing a
/// cell is refused and the session, both boards included, is unchanged.
pub proof fn lemma_invalid_fleet_refused(
    g: Game,
    after: Game,
    user: Seq<char>,
    ships: Seq<Ship>,
    r: Result<(), PlacementError>,
)
    requires
        g.wf(),
        g.status == GameStatus::PlacingShips,
        g.is_p1(user) || g.is_p2(user),
        (if g.is_p1(user) { g.p1_board } else { g.p2_board }).ships@.len() == 0,
        !valid_fleet(ships),
        placement_effect(g, after, user, ships, r),
    ensures
        r is Err,
        after == g,
{
}

} // verus!
