use vstd::prelude::*;
use crate::ships::{
    cell_index, covers, covers_prefix, in_grid, nth_cell, ship_fits, ship_in_bounds, ships_overlap,
    valid_fleet, Ship, BOARD_SIZE, SHIPS_LIMIT,
};

verus! {

/// State of one cell. The index carried by the ship states is the ship's
/// position in the board's fleet.
#[derive(Debug, Clone, Copy, PartialEq, Eq, Structural)]
pub enum Cell {
    Empty,
    Occupied(usize),
    Miss,
    Hit(usize),
    Sunk(usize),
}

/// Why a fleet was not placed.
#[derive(Debug, Clone, Copy, PartialEq, Eq, Structural)]
pub enum PlacementError {
    /// The ship at this index leaves the grid or has no length.
    OutOfBounds(usize),
    /// The ship at this index shares a cell with an earlier ship.
    Overlap(usize),
    /// The fleet is empty or holds more than `SHIPS_LIMIT` ships.
    WrongShipCount,
    /// The board already holds a fleet.
    AlreadyPlaced,
    /// The submitting user plays in no seat of the session.
    NotAPlayer,
    /// The session is not in its placement phase.
    WrongPhase,
}

/// Why an attack was refused; the boards are left as they were.
#[derive(Debug, Clone, Copy, PartialEq, Eq, Structural)]
pub enum AttackError {
    WrongPhase,
    NotYourTurn,
    NotAPlayer,
    AlreadyResolved,
    BoardExhausted,
    /// The target lies off the grid.
    OffBoard,
}

/// What a shot did.
#[derive(Debug, Clone, Copy, PartialEq, Eq, Structural)]
pub enum AttackOutcome {
    Miss,
    Hit,
    /// The shot sank the ship with this index.
    Sunk(usize),
}

/// The ship a cell belongs to, if any.
pub open spec fn owner(c: Cell) -> Option<int> {
    match c {
        Cell::Occupied(i) => Some(i as int),
        Cell::Hit(i) => Some(i as int),
        Cell::Sunk(i) => Some(i as int),
        _ => None,
    }
}

/// The cell has been shot at.
pub open spec fn is_resolved(c: Cell) -> bool {
    c is Miss || c is Hit || c is Sunk
}

/// The cell belongs to ship `i` and has been hit.
pub open spec fn is_struck(c: Cell, i: int) -> bool {
    c == Cell::Hit(i as usize) || c == Cell::Sunk(i as usize)
}

/// The cell at `(x, y)` of a row-major grid.
pub open spec fn grid_cell(cells: Seq<Cell>, x: int, y: int) -> Cell {
    cells[cell_index(x, y)]
}

/// Every cell ship `s` (of index `i`) covers is struck in `cells`.
pub open spec fn all_struck(cells: Seq<Cell>, s: Ship, i: int) -> bool {
    forall|x: int, y: int| #[trigger] covers(s, x, y) ==> is_struck(grid_cell(cells, x, y), i)
}

/// Every cell ship `s` (of index `i`) covers is `Sunk(i)` in `cells`.
pub open spec fn all_sunk(cells: Seq<Cell>, s: Ship, i: int) -> bool {
    forall|x: int, y: int| #[trigger] covers(s, x, y) ==> grid_cell(cells, x, y) == Cell::Sunk(i as usize)
}

/// No cell ship `s` covers is sunk in `cells`.
pub open spec fn none_sunk(cells: Seq<Cell>, s: Ship) -> bool {
    forall|x: int, y: int| #[trigger] covers(s, x, y) ==> !(grid_cell(cells, x, y) is Sunk)
}

/// Every ship-owned cell is sunk.
pub open spec fn fleet_destroyed(cells: Seq<Cell>) -> bool {
    forall|x: int, y: int|
        in_grid(x, y) ==> !(#[trigger] grid_cell(cells, x, y) is Occupied) && !(grid_cell(
            cells,
            x,
            y,
        ) is Hit)
}

/// One player's grid and the fleet placed on it.
#[derive(Debug)]
pub struct Board {
    pub ships: Vec<Ship>,
    pub cells: Vec<Cell>,
}

impl Board {
    pub open spec fn cell(self, x: int, y: int) -> Cell {
        grid_cell(self.cells@, x, y)
    }

    /// Ship `i` is either wholly sunk, or has no sunk cell and at least one
    /// cell not yet hit.
    pub open spec fn ship_state_ok(self, i: int) -> bool {
        let s = self.ships@[i];
        all_sunk(self.cells@, s, i) || (none_sunk(self.cells@, s) && !all_struck(self.cells@, s, i))
    }

    /// The grid is the projection of the fleet: a cell belongs to ship `i`
    /// exactly when ship `i` covers it; sinking is all-or-nothing per ship;
    /// a board without a fleet is untouched.
    pub open spec fn wf(self) -> bool {
        &&& self.cells@.len() == BOARD_SIZE * BOARD_SIZE
        &&& self.ships@.len() <= SHIPS_LIMIT
        &&& forall|k: int| 0 <= k < self.ships@.len() ==> ship_in_bounds(#[trigger] self.ships@[k])
        &&& forall|x: int, y: int|
            in_grid(x, y) && (#[trigger] self.cell(x, y) is Occupied || self.cell(x, y) is Hit
                || self.cell(x, y) is Sunk) ==> {
                let i = owner(self.cell(x, y))->Some_0;
                0 <= i < self.ships@.len() && covers(self.ships@[i], x, y)
            }
        &&& forall|x: int, y: int, i: int|
            0 <= i < self.ships@.len() && #[trigger] covers(self.ships@[i], x, y) ==> owner(
                self.cell(x, y),
            ) == Some(i)
        &&& forall|i: int| 0 <= i < self.ships@.len() ==> #[trigger] self.ship_state_ok(i)
        &&& self.ships@.len() == 0 ==> forall|x: int, y: int|
            in_grid(x, y) ==> #[trigger] self.cell(x, y) == Cell::Empty
    }

    /// An empty board without a fleet.
    pub fn new() -> (r: Board)
        ensures
            r.wf(),
            r.ships@.len() == 0,
            forall|x: int, y: int| in_grid(x, y) ==> #[trigger] r.cell(x, y) == Cell::Empty,
    {
        let mut cells: Vec<Cell> = Vec::new();
        let n: usize = (BOARD_SIZE as usize) * (BOARD_SIZE as usize);
        let mut i: usize = 0;
        while i < n
            invariant
                n == BOARD_SIZE * BOARD_SIZE,
                i <= n,
                cells@.len() == i,
                forall|j: int| 0 <= j < i ==> cells@[j] == Cell::Empty,
            decreases n - i,
        {
            cells.push(Cell::Empty);
            i = i + 1;
        }
        Board { ships: Vec::new(), cells }
    }
}


/// What `place` on a board without a fleet returns for `ships`: the count is
/// checked first, then each ship in order, the first that fails deciding.
pub open spec fn placement_result(ships: Seq<Ship>, r: Result<(), PlacementError>) -> bool {
    if !(1 <= ships.len() <= SHIPS_LIMIT) {
        r == Err::<(), PlacementError>(PlacementError::WrongShipCount)
    } else {
        match r {
            Ok(_) => valid_fleet(ships),
            Err(PlacementError::OutOfBounds(k)) => {
                &&& k < ships.len()
                &&& forall|j: int| 0 <= j < k ==> ship_fits(ships, j)
                &&& !ship_in_bounds(ships[k as int])
            },
            Err(PlacementError::Overlap(k)) => {
                &&& k < ships.len()
                &&& forall|j: int| 0 <= j < k ==> ship_fits(ships, j)
                &&& ship_in_bounds(ships[k as int])
                &&& !ship_fits(ships, k as int)
            },
            _ => false,
        }
    }
}

/// The grid of a freshly placed fleet: `Occupied(i)` on the cells of ship
/// `i`, `Empty` elsewhere.
pub open spec fn placed_grid(cells: Seq<Cell>, ships: Seq<Ship>) -> bool {
    &&& cells.len() == BOARD_SIZE * BOARD_SIZE
    &&& forall|x: int, y: int, i: int|
        0 <= i < ships.len() && #[trigger] covers(ships[i], x, y) ==> grid_cell(cells, x, y)
            == Cell::Occupied(i as usize)
    &&& forall|x: int, y: int|
        in_grid(x, y) ==> (#[trigger] grid_cell(cells, x, y) == Cell::Empty || {
            &&& grid_cell(cells, x, y) is Occupied
            &&& grid_cell(cells, x, y)->Occupied_0 < ships.len()
            &&& covers(ships[grid_cell(cells, x, y)->Occupied_0 as int], x, y)
        })
}

/// Cells `(x, y)` and `(a, b)` of the grid share an index only when equal.
pub proof fn lemma_index_injective(x: int, y: int, a: int, b: int)
    requires
        in_grid(x, y),
        in_grid(a, b),
    ensures
        (cell_index(x, y) == cell_index(a, b)) == (x == a && y == b),
        0 <= cell_index(x, y) < BOARD_SIZE * BOARD_SIZE,
{
}

/// Position of the cell `(x, y)` in the grid's vector.
fn index_of(x: u8, y: u8) -> (r: usize)
    requires
        in_grid(x as int, y as int),
    ensures
        r == cell_index(x as int, y as int),
        r < BOARD_SIZE * BOARD_SIZE,
{
    x as usize + 10 * (y as usize)
}

impl Board {
    /// Places a fleet on a board that has none. A ship that leaves the grid
    /// or shares a cell with an earlier ship is refused (ships that merely
    /// touch are accepted). On success ship `i` of the fleet owns exactly the
    /// cells it covers, as `Occupied(i)`; on failure the board is unchanged.
    pub fn place(&mut self, ships: &Vec<Ship>) -> (r: Result<(), PlacementError>)
        requires
            old(self).wf(),
        ensures
            final(self).wf(),
            old(self).ships@.len() > 0 ==> r == Err::<(), PlacementError>(
                PlacementError::AlreadyPlaced,
            ),
            old(self).ships@.len() == 0 ==> placement_result(ships@, r),
            old(self).ships@.len() == 0 ==> (r is Ok <==> valid_fleet(ships@)),
            r is Err ==> *final(self) == *old(self),
            r is Ok ==> final(self).ships@ == ships@ && placed_grid(final(self).cells@, ships@),
    {
        if self.ships.len() > 0 {
            return Err(PlacementError::AlreadyPlaced);
        }
        if ships.len() == 0 || ships.len() > SHIPS_LIMIT {
            return Err(PlacementError::WrongShipCount);
        }
        let fresh = Board::new();
        let mut grid = fresh.cells;
        proof {
            assert forall|x: int, y: int| in_grid(x, y) implies #[trigger] grid_cell(grid@, x, y)
                == Cell::Empty by {
                assert(fresh.cell(x, y) == Cell::Empty);
            }
        }
        let mut fleet: Vec<Ship> = Vec::new();
        let mut k: usize = 0;
        while k < ships.len()
            invariant
                k <= ships@.len(),
                1 <= ships@.len() <= SHIPS_LIMIT,
                *self == *old(self),
                old(self).wf(),
                self.ships@.len() == 0,
                fleet@ == ships@.subrange(0, k as int),
                grid@.len() == BOARD_SIZE * BOARD_SIZE,
                forall|j: int| 0 <= j < k ==> ship_fits(ships@, j),
                forall|x: int, y: int, j: int|
                    0 <= j < k && #[trigger] covers(ships@[j], x, y) ==> grid_cell(grid@, x, y)
                        == Cell::Occupied(j as usize),
                forall|x: int, y: int|
                    in_grid(x, y) ==> (#[trigger] grid_cell(grid@, x, y) == Cell::Empty || {
                        &&& grid_cell(grid@, x, y) is Occupied
                        &&& grid_cell(grid@, x, y)->Occupied_0 < k
                        &&& covers(ships@[grid_cell(grid@, x, y)->Occupied_0 as int], x, y)
                    }),
            decreases ships@.len() - k,
        {
            let ship = ships[k];
            if !ship.in_bounds() {
                proof {
                    assert(!ship_fits(ships@, k as int));
                }
                return Err(PlacementError::OutOfBounds(k));
            }
            let mut t: u8 = 0;
            while t < ship.hp
                invariant
                    ship == ships@[k as int],
                    ship_in_bounds(ship),
                    *self == *old(self),
                    old(self).wf(),
                    self.ships@.len() == 0,
                    forall|j: int| 0 <= j < k ==> ship_fits(ships@, j),
                    k < ships@.len(),
                    1 <= ships@.len() <= SHIPS_LIMIT,
                    t <= ship.hp,
                    grid@.len() == BOARD_SIZE * BOARD_SIZE,
                    forall|x: int, y: int, j: int|
                        0 <= j < k && #[trigger] covers(ships@[j], x, y) ==> grid_cell(
                            grid@,
                            x,
                            y,
                        ) == Cell::Occupied(j as usize),
                    forall|x: int, y: int|
                        #[trigger] covers_prefix(ship, x, y, t as int) ==> grid_cell(grid@, x, y)
                            == Cell::Occupied(k),
                    forall|x: int, y: int|
                        in_grid(x, y) ==> (#[trigger] grid_cell(grid@, x, y) == Cell::Empty || {
                            &&& grid_cell(grid@, x, y) is Occupied
                            &&& grid_cell(grid@, x, y)->Occupied_0 <= k
                            &&& grid_cell(grid@, x, y)->Occupied_0 < k ==> covers(
                                ships@[grid_cell(grid@, x, y)->Occupied_0 as int],
                                x,
                                y,
                            )
                            &&& grid_cell(grid@, x, y)->Occupied_0 == k ==> covers_prefix(
                                ship,
                                x,
                                y,
                                t as int,
                            )
                        }),
                decreases ship.hp - t,
            {
                let (cx, cy) = if ship.is_vertical {
                    (ship.position.x, ship.position.y + t)
                } else {
                    (ship.position.x + t, ship.position.y)
                };
                let idx = index_of(cx, cy);
                proof {
                    assert(in_grid(cx as int, cy as int));
                    assert(covers(ship, cx as int, cy as int));
                    assert(idx == cell_index(cx as int, cy as int));
                }
                if grid[idx] != Cell::Empty {
                    proof {
                        let c = grid_cell(grid@, cx as int, cy as int);
                        let j = c->Occupied_0 as int;
                        assert(!covers_prefix(ship, cx as int, cy as int, t as int));
                        assert(covers(ships@[j], cx as int, cy as int));
                        assert(0 <= j < k);
                        assert(ships_overlap(ships@[j], ships@[k as int]));
                        assert(!ship_fits(ships@, k as int));
                    }
                    return Err(PlacementError::Overlap(k));
                }
                let ghost before = grid@;
                grid.set(idx, Cell::Occupied(k));
                proof {
                    assert forall|x: int, y: int| in_grid(x, y) implies grid_cell(grid@, x, y) == (
                    if x == cx && y == cy {
                        Cell::Occupied(k)
                    } else {
                        grid_cell(before, x, y)
                    }) by {
                        lemma_index_injective(x, y, cx as int, cy as int);
                    }
                    assert forall|x: int, y: int, j: int|
                        0 <= j < k && #[trigger] covers(ships@[j], x, y) implies grid_cell(
                        grid@,
                        x,
                        y,
                    ) == Cell::Occupied(j as usize) by {
                        assert(ship_fits(ships@, j));
                        assert(in_grid(x, y));
                        lemma_index_injective(x, y, cx as int, cy as int);
                    }
                    assert forall|x: int, y: int|
                        #[trigger] covers_prefix(ship, x, y, t + 1) implies grid_cell(grid@, x, y)
                        == Cell::Occupied(k) by {
                        assert(in_grid(x, y));
                        lemma_index_injective(x, y, cx as int, cy as int);
                        if !(x == cx && y == cy) {
                            assert(covers_prefix(ship, x, y, t as int));
                        }
                    }
                }
                t = t + 1;
            }
            proof {
                assert forall|j: int| 0 <= j < k implies !ships_overlap(
                    #[trigger] ships@[j],
                    ships@[k as int],
                ) by {
                    if ships_overlap(ships@[j], ships@[k as int]) {
                        let (x, y) = choose|x: int, y: int|
                            #[trigger] covers(ships@[j], x, y) && #[trigger] covers(
                                ships@[k as int],
                                x,
                                y,
                            );
                        assert(covers_prefix(ship, x, y, ship.hp as int));
                    }
                }
                assert(ship_fits(ships@, k as int));
            }
            fleet.push(ship);
            proof {
                assert(fleet@ =~= ships@.subrange(0, k + 1));
            }
            k = k + 1;
        }
        proof {
            assert(fleet@ =~= ships@);
        }
        self.ships = fleet;
        self.cells = grid;
        proof {
            assert(self.cells@.len() == BOARD_SIZE * BOARD_SIZE);
            assert forall|k: int| 0 <= k < self.ships@.len() implies ship_in_bounds(
                #[trigger] self.ships@[k],
            ) by {
                assert(ship_fits(ships@, k));
            }
            assert(forall|x: int, y: int|
                in_grid(x, y) && (#[trigger] self.cell(x, y) is Occupied || self.cell(x, y) is Hit
                    || self.cell(x, y) is Sunk) ==> {
                    let i = owner(self.cell(x, y))->Some_0;
                    0 <= i < self.ships@.len() && covers(self.ships@[i], x, y)
                });
            assert(forall|x: int, y: int, i: int|
                0 <= i < self.ships@.len() && #[trigger] covers(self.ships@[i], x, y) ==> owner(
                    self.cell(x, y),
                ) == Some(i));
            assert forall|i: int| 0 <= i < self.ships@.len() implies #[trigger] self.ship_state_ok(
                i,
            ) by {
                let s = ships@[i];
                assert(ship_fits(ships@, i));
                let (ax, ay) = nth_cell(s, 0);
                assert(covers(s, ax, ay));
                assert(!is_struck(self.cell(ax, ay), i));
            }
        }
        Ok(())
    }
}


/// `cells` with every cell that ship `s` covers set to `Sunk(i)`.
pub open spec fn sink_cells(cells: Seq<Cell>, s: Ship, i: int) -> Seq<Cell> {
    Seq::new(
        cells.len(),
        |n: int|
            if covers(s, n % BOARD_SIZE as int, n / BOARD_SIZE as int) {
                Cell::Sunk(i as usize)
            } else {
                cells[n]
            },
    )
}

/// What a shot at `(x, y)` does to board `b`, giving `after` and result `r`.
pub open spec fn shot_effect(
    b: Board,
    after: Board,
    x: int,
    y: int,
    r: Result<AttackOutcome, AttackError>,
) -> bool {
    if !in_grid(x, y) {
        r == Err::<AttackOutcome, AttackError>(AttackError::OffBoard) && after == b
    } else if b.ships@.len() == 0 {
        r == Err::<AttackOutcome, AttackError>(AttackError::WrongPhase) && after == b
    } else {
        let idx = cell_index(x, y);
        match b.cell(x, y) {
            Cell::Empty => r == Ok::<AttackOutcome, AttackError>(AttackOutcome::Miss)
                && after.ships@ == b.ships@ && after.cells@ == b.cells@.update(idx, Cell::Miss),
            Cell::Occupied(i) => {
                let hit = b.cells@.update(idx, Cell::Hit(i));
                let s = b.ships@[i as int];
                &&& after.ships@ == b.ships@
                &&& if all_struck(hit, s, i as int) {
                    r == Ok::<AttackOutcome, AttackError>(AttackOutcome::Sunk(i))
                        && after.cells@ == sink_cells(b.cells@, s, i as int)
                } else {
                    r == Ok::<AttackOutcome, AttackError>(AttackOutcome::Hit) && after.cells@
                        == hit
                }
            },
            _ => r == Err::<AttackOutcome, AttackError>(AttackError::AlreadyResolved) && after
                == b,
        }
    }
}

impl Board {
    /// Writes `cell` at `(x, y)`.
    pub fn set_cell(&mut self, x: u8, y: u8, cell: Cell)
        requires
            in_grid(x as int, y as int),
            old(self).cells@.len() == BOARD_SIZE * BOARD_SIZE,
        ensures
            final(self).cells@ == old(self).cells@.update(cell_index(x as int, y as int), cell),
            final(self).ships == old(self).ships,
    {
        let idx = index_of(x, y);
        self.cells.set(idx, cell);
    }

    /// Shoots at `(x, y)`: an empty cell becomes a miss; a ship's cell
    /// becomes a hit, and when that leaves none of the ship's cells afloat
    /// the whole ship is sunk. A cell already shot at is refused, as is a
    /// target off the grid or a board that holds no fleet yet.
    pub fn attack(&mut self, x: u8, y: u8) -> (r: Result<AttackOutcome, AttackError>)
        requires
            old(self).wf(),
        ensures
            final(self).wf(),
            shot_effect(*old(self), *final(self), x as int, y as int, r),
    {
        if x >= BOARD_SIZE || y >= BOARD_SIZE {
            return Err(AttackError::OffBoard);
        }
        if self.ships.len() == 0 {
            return Err(AttackError::WrongPhase);
        }
        let idx = index_of(x, y);
        proof {
            lemma_index_injective(x as int, y as int, x as int, y as int);
        }
        match self.cells[idx] {
            Cell::Empty => {
                let ghost before = *self;
                self.set_cell(x, y, Cell::Miss);
                proof {
                    assert forall|a: int, b: int| in_grid(a, b) implies #[trigger] self.cell(a, b)
                        == (if a == x && b == y {
                        Cell::Miss
                    } else {
                        before.cell(a, b)
                    }) by {
                        lemma_index_injective(a, b, x as int, y as int);
                    }
                    assert forall|a: int, b: int, i: int|
                        0 <= i < self.ships@.len() && #[trigger] covers(
                            self.ships@[i],
                            a,
                            b,
                        ) implies self.cell(a, b) == before.cell(a, b) by {
                        assert(ship_in_bounds(self.ships@[i]));
                        lemma_index_injective(a, b, x as int, y as int);
                    }
                    assert forall|i: int| 0 <= i < self.ships@.len() implies #[trigger] self.ship_state_ok(i) by {
                        assert(before.ship_state_ok(i));
                        let s = self.ships@[i];
                        if all_sunk(before.cells@, s, i) {
                            assert(all_sunk(self.cells@, s, i));
                        } else {
                            assert(none_sunk(self.cells@, s));
                            let (a, b) = choose|a: int, b: int|
                                #[trigger] covers(s, a, b) && !is_struck(
                                    grid_cell(before.cells@, a, b),
                                    i,
                                );
                            assert(!is_struck(self.cell(a, b), i));
                        }
                    }
                }
                Ok(AttackOutcome::Miss)
            },
            Cell::Occupied(i) => {
                let ghost before = *self;
                self.set_cell(x, y, Cell::Hit(i));
                let ghost hit = self.cells@;
                let ship = self.ships[i];
                proof {
                    assert(ship_in_bounds(ship));
                    assert forall|a: int, b: int| in_grid(a, b) implies #[trigger] self.cell(a, b)
                        == (if a == x && b == y {
                        Cell::Hit(i)
                    } else {
                        before.cell(a, b)
                    }) by {
                        lemma_index_injective(a, b, x as int, y as int);
                    }
                }
                let mut struck = true;
                let mut t: u8 = 0;
                while t < ship.hp
                    invariant
                        self.cells@ == hit,
                        hit.len() == BOARD_SIZE * BOARD_SIZE,
                        ship_in_bounds(ship),
                        t <= ship.hp,
                        struck == forall|a: int, b: int|
                            #[trigger] covers_prefix(ship, a, b, t as int) ==> is_struck(
                                grid_cell(hit, a, b),
                                i as int,
                            ),
                    decreases ship.hp - t,
                {
                    let (cx, cy) = if ship.is_vertical {
                        (ship.position.x, ship.position.y + t)
                    } else {
                        (ship.position.x + t, ship.position.y)
                    };
                    proof {
                        assert(in_grid(cx as int, cy as int));
                        lemma_index_injective(cx as int, cy as int, cx as int, cy as int);
                        assert(covers_prefix(ship, cx as int, cy as int, t + 1));
                    }
                    let n = index_of(cx, cy);
                    let c = self.cells[n];
                    let ok = c == Cell::Hit(i) || c == Cell::Sunk(i);
                    proof {
                        assert(ok == is_struck(grid_cell(hit, cx as int, cy as int), i as int));
                        if struck && ok {
                            assert forall|a: int, b: int|
                                #[trigger] covers_prefix(ship, a, b, t + 1) implies is_struck(
                                grid_cell(hit, a, b),
                                i as int,
                            ) by {
                                if !covers_prefix(ship, a, b, t as int) {
                                    assert(a == cx && b == cy);
                                }
                            }
                        } else if !ok {
                            assert(covers_prefix(ship, cx as int, cy as int, t + 1));
                        } else {
                            let (a, b) = choose|a: int, b: int|
                                #[trigger] covers_prefix(ship, a, b, t as int) && !is_struck(
                                    grid_cell(hit, a, b),
                                    i as int,
                                );
                            assert(covers_prefix(ship, a, b, t + 1));
                        }
                    }
                    struck = struck && ok;
                    t = t + 1;
                }
                if !struck {
                    proof {
                        assert(!all_struck(hit, ship, i as int)) by {
                            let (a, b) = choose|a: int, b: int|
                                #[trigger] covers_prefix(ship, a, b, ship.hp as int) && !is_struck(
                                    grid_cell(hit, a, b),
                                    i as int,
                                );
                            assert(covers(ship, a, b));
                        }
                        assert forall|j: int| 0 <= j < self.ships@.len() implies #[trigger] self.ship_state_ok(j) by {
                            assert(before.ship_state_ok(j));
                            let s = self.ships@[j];
                            assert(ship_in_bounds(s));
                            if j == i {
                                assert(!all_sunk(before.cells@, s, j)) by {
                                    assert(covers(s, x as int, y as int));
                                }
                            }
                            if all_sunk(before.cells@, s, j) {
                                assert forall|a: int, b: int| #[trigger] covers(s, a, b) implies grid_cell(self.cells@, a, b) == Cell::Sunk(j as usize) by {
                                    if a == x && b == y {
                                        assert(owner(before.cell(a, b)) == Some(j));
                                    }
                                }
                            } else if j != i {
                                let (a, b) = choose|a: int, b: int|
                                    #[trigger] covers(s, a, b) && !is_struck(
                                        grid_cell(before.cells@, a, b),
                                        j,
                                    );
                                assert(!is_struck(self.cell(a, b), j));
                            }
                        }
                    }
                    Ok(AttackOutcome::Hit)
                } else {
                    proof {
                        assert forall|a: int, b: int| #[trigger] covers(ship, a, b) implies is_struck(
                            grid_cell(hit, a, b),
                            i as int,
                        ) by {
                            assert(covers_prefix(ship, a, b, ship.hp as int));
                        }
                    }
                    let mut t: u8 = 0;
                    while t < ship.hp
                        invariant
                            self.cells@.len() == BOARD_SIZE * BOARD_SIZE,
                            hit.len() == BOARD_SIZE * BOARD_SIZE,
                            self.ships == before.ships,
                            ship_in_bounds(ship),
                            t <= ship.hp,
                            forall|a: int, b: int|
                                in_grid(a, b) ==> #[trigger] grid_cell(self.cells@, a, b) == if covers_prefix(
                                    ship,
                                    a,
                                    b,
                                    t as int,
                                ) {
                                    Cell::Sunk(i)
                                } else {
                                    grid_cell(hit, a, b)
                                },
                        decreases ship.hp - t,
                    {
                        let (cx, cy) = if ship.is_vertical {
                            (ship.position.x, ship.position.y + t)
                        } else {
                            (ship.position.x + t, ship.position.y)
                        };
                        let ghost prev = self.cells@;
                        proof {
                            assert(in_grid(cx as int, cy as int));
                            lemma_index_injective(cx as int, cy as int, cx as int, cy as int);
                        }
                        let n = index_of(cx, cy);
                        self.set_cell(cx, cy, Cell::Sunk(i));
                        proof {
                            assert forall|a: int, b: int| in_grid(a, b) implies #[trigger] grid_cell(self.cells@, a, b) == if covers_prefix(ship, a, b, t + 1) {
                                Cell::Sunk(i)
                            } else {
                                grid_cell(hit, a, b)
                            } by {
                                lemma_index_injective(a, b, cx as int, cy as int);
                                assert(grid_cell(prev, a, b) == if covers_prefix(ship, a, b, t as int) {
                                    Cell::Sunk(i)
                                } else {
                                    grid_cell(hit, a, b)
                                });
                            }
                        }
                        t = t + 1;
                    }
                    proof {
                        assert(self.cells@ =~= sink_cells(before.cells@, ship, i as int)) by {
                            assert forall|n: int| 0 <= n < BOARD_SIZE * BOARD_SIZE implies self.cells@[n] == sink_cells(before.cells@, ship, i as int)[n] by {
                                let a = n % BOARD_SIZE as int;
                                let b = n / BOARD_SIZE as int;
                                assert(in_grid(a, b));
                                assert(cell_index(a, b) == n);
                                assert(self.cell(a, b) == self.cells@[n]);
                                lemma_index_injective(a, b, x as int, y as int);
                                if !covers(ship, a, b) && a == x && b == y {
                                    assert(owner(before.cell(a, b)) == Some(i as int));
                                }
                            }
                        }
                        assert forall|j: int| 0 <= j < self.ships@.len() implies #[trigger] self.ship_state_ok(j) by {
                            assert(before.ship_state_ok(j));
                            let s = self.ships@[j];
                            assert(ship_in_bounds(s));
                            if j == i {
                                assert(all_sunk(self.cells@, s, j));
                            } else {
                                assert forall|a: int, b: int| #[trigger] covers(s, a, b) implies grid_cell(self.cells@, a, b) == grid_cell(before.cells@, a, b) by {
                                    assert(owner(before.cell(a, b)) == Some(j));
                                    if covers(ship, a, b) {
                                        assert(owner(before.cell(a, b)) == Some(i as int));
                                    }
                                    lemma_index_injective(a, b, x as int, y as int);
                                }
                                if !all_sunk(before.cells@, s, j) {
                                    let (a, b) = choose|a: int, b: int|
                                        #[trigger] covers(s, a, b) && !is_struck(
                                            grid_cell(before.cells@, a, b),
                                            j,
                                        );
                                    assert(!is_struck(self.cell(a, b), j));
                                }
                            }
                        }
                    }
                    Ok(AttackOutcome::Sunk(i))
                }
            },
            _ => Err(AttackError::AlreadyResolved),
        }
    }

    /// Whether every cell that belongs to a ship is sunk.
    pub fn is_defeated(&self) -> (r: bool)
        requires
            self.wf(),
        ensures
            r == fleet_destroyed(self.cells@),
    {
        let n: usize = (BOARD_SIZE as usize) * (BOARD_SIZE as usize);
        let mut k: usize = 0;
        while k < n
            invariant
                n == BOARD_SIZE * BOARD_SIZE,
                self.cells@.len() == n,
                k <= n,
                forall|m: int| 0 <= m < k ==> !(self.cells@[m] is Occupied) && !(self.cells@[m] is Hit),
            decreases n - k,
        {
            match self.cells[k] {
                Cell::Occupied(_) | Cell::Hit(_) => {
                    proof {
                        let a = k as int % BOARD_SIZE as int;
                        let b = k as int / BOARD_SIZE as int;
                        assert(in_grid(a, b) && cell_index(a, b) == k);
                        assert(grid_cell(self.cells@, a, b) == self.cells@[k as int]);
                    }
                    return false;
                },
                _ => {},
            }
            k = k + 1;
        }
        proof {
            assert forall|a: int, b: int| in_grid(a, b) implies !(#[trigger] grid_cell(self.cells@, a, b) is Occupied) && !(grid_cell(self.cells@, a, b) is Hit) by {
                lemma_index_injective(a, b, a, b);
            }
        }
        true
    }
}


/// A shot that was resolved leaves its cell resolved: shooting the same
/// cell again is refused with `AlreadyResolved` and changes nothing.
pub proof fn lemma_second_shot_refused(
    b: Board,
    b1: Board,
    b2: Board,
    x: int,
    y: int,
    r1: Result<AttackOutcome, AttackError>,
    r2: Result<AttackOutcome, AttackError>,
)
    requires
        b.wf(),
        shot_effect(b, b1, x, y, r1),
        r1 is Ok,
        shot_effect(b1, b2, x, y, r2),
    ensures
        r2 == Err::<AttackOutcome, AttackError>(AttackError::AlreadyResolved),
        b2 == b1,
{
    lemma_index_injective(x, y, x, y);
    let n = cell_index(x, y);
    assert(n % (BOARD_SIZE as int) == x && n / (BOARD_SIZE as int) == y);
    if let Cell::Occupied(i) = b.cell(x, y) {
        assert(covers(b.ships@[i as int], x, y));
    }
}

/// How many of the first `t` cells of ship `s` (of index `i`) are struck.
pub open spec fn struck_count(cells: Seq<Cell>, s: Ship, i: int, t: int) -> nat
    decreases t,
{
    if t <= 0 {
        0
    } else {
        let (cx, cy) = nth_cell(s, t - 1);
        struck_count(cells, s, i, t - 1) + if is_struck(grid_cell(cells, cx, cy), i) {
            1nat
        } else {
            0nat
        }
    }
}

proof fn lemma_struck_count(cells: Seq<Cell>, s: Ship, i: int, t: int)
    requires
        t >= 0,
    ensures
        struck_count(cells, s, i, t) <= t,
        (struck_count(cells, s, i, t) == t) == forall|u: int|
            0 <= u < t ==> is_struck(
                grid_cell(cells, #[trigger] nth_cell(s, u).0, nth_cell(s, u).1),
                i,
            ),
    decreases t,
{
    if t > 0 {
        lemma_struck_count(cells, s, i, t - 1);
    }
}

/// On a well-formed board, ship `i` is sunk on all its cells exactly when
/// the number of its cells that were hit equals its length.
pub proof fn lemma_sunk_at_threshold(b: Board, i: int)
    requires
        b.wf(),
        0 <= i < b.ships@.len(),
    ensures
        all_sunk(b.cells@, b.ships@[i], i) == (struck_count(
            b.cells@,
            b.ships@[i],
            i,
            b.ships@[i].hp as int,
        ) == b.ships@[i].hp),
{
    let s = b.ships@[i];
    let hp = s.hp as int;
    lemma_struck_count(b.cells@, s, i, hp);
    assert(b.ship_state_ok(i));
    let every = forall|u: int|
        0 <= u < hp ==> is_struck(grid_cell(b.cells@, #[trigger] nth_cell(s, u).0, nth_cell(s, u).1), i);
    assert(every == all_struck(b.cells@, s, i)) by {
        if every {
            assert forall|x: int, y: int| #[trigger] covers(s, x, y) implies is_struck(
                grid_cell(b.cells@, x, y),
                i,
            ) by {
                let u = if s.is_vertical { y - s.position.y } else { x - s.position.x };
                assert(0 <= u < hp);
                assert(nth_cell(s, u).0 == x && nth_cell(s, u).1 == y);
                assert(is_struck(grid_cell(b.cells@, nth_cell(s, u).0, nth_cell(s, u).1), i));
            }
        }
        if all_struck(b.cells@, s, i) {
            assert forall|u: int| 0 <= u < hp implies is_struck(
                grid_cell(b.cells@, #[trigger] nth_cell(s, u).0, nth_cell(s, u).1),
                i,
            ) by {
                assert(covers(s, nth_cell(s, u).0, nth_cell(s, u).1));
            }
        }
    }
    if all_sunk(b.cells@, s, i) {
        assert forall|x: int, y: int| #[trigger] covers(s, x, y) implies is_struck(
            grid_cell(b.cells@, x, y),
            i,
        ) by {
            assert(grid_cell(b.cells@, x, y) == Cell::Sunk(i as usize));
        }
    }
}


/// A resolved shot on a cell of ship `i` sinks the ship exactly when it
/// brings the number of the ship's struck cells to the ship's length;
/// before that it is a plain hit and none of the ship's cells is sunk.
pub proof fn lemma_shot_sinks_at_threshold(
    b: Board,
    b1: Board,
    x: int,
    y: int,
    r: Result<AttackOutcome, AttackError>,
)
    requires
        b.wf(),
        b1.wf(),
        in_grid(x, y),
        b.cell(x, y) is Occupied,
        shot_effect(b, b1, x, y, r),
    ensures
        ({
            let i = b.cell(x, y)->Occupied_0;
            let s = b.ships@[i as int];
            &&& (r == Ok::<AttackOutcome, AttackError>(AttackOutcome::Sunk(i))) == (struck_count(
                b1.cells@,
                s,
                i as int,
                s.hp as int,
            ) == s.hp)
            &&& r == Ok::<AttackOutcome, AttackError>(AttackOutcome::Sunk(i)) ==> all_sunk(
                b1.cells@,
                s,
                i as int,
            )
            &&& r != Ok::<AttackOutcome, AttackError>(AttackOutcome::Sunk(i)) ==> r == Ok::<
                AttackOutcome,
                AttackError,
            >(AttackOutcome::Hit) && none_sunk(b1.cells@, s)
        }),
{
    let i = b.cell(x, y)->Occupied_0;
    let s = b.ships@[i as int];
    lemma_index_injective(x, y, x, y);
    let n = cell_index(x, y);
    assert(n % (BOARD_SIZE as int) == x && n / (BOARD_SIZE as int) == y);
    assert(covers(s, x, y));
    assert(b1.ships@ == b.ships@);
    lemma_sunk_at_threshold(b1, i as int);
    assert(b1.ship_state_ok(i as int));
    if r == Ok::<AttackOutcome, AttackError>(AttackOutcome::Sunk(i)) {
        assert(b1.cell(x, y) == Cell::Sunk(i));
    } else {
        assert(b1.cell(x, y) == Cell::Hit(i));
    }
}

/// The decimal digit for `i`, which is below ten.
pub open spec fn digit_char(i: int) -> char {
    if i == 0 { '0' } else if i == 1 { '1' } else if i == 2 { '2' } else if i == 3 { '3' }
    else if i == 4 { '4' } else if i == 5 { '5' } else if i == 6 { '6' } else if i == 7 { '7' }
    else if i == 8 { '8' } else { '9' }
}

/// How a cell is drawn: `-` empty, the ship's index for an untouched ship
/// cell, `x` a miss, `+` a hit, `D` a sunk ship's cell.
pub open spec fn cell_glyph(c: Cell) -> Seq<char> {
    match c {
        Cell::Empty => seq!['-'],
        Cell::Occupied(i) => seq![digit_char(i as int)],
        Cell::Miss => seq!['x'],
        Cell::Hit(_) => seq!['+'],
        Cell::Sunk(_) => seq!['D'],
    }
}

/// The first `x` cells of row `y`, drawn.
pub open spec fn row_text(cells: Seq<Cell>, y: int, x: int) -> Seq<char>
    decreases x,
{
    if x <= 0 {
        Seq::empty()
    } else {
        row_text(cells, y, x - 1) + cell_glyph(grid_cell(cells, x - 1, y))
    }
}

/// The first `y` rows of the grid, drawn, each ended by a newline.
pub open spec fn grid_text(cells: Seq<Cell>, y: int) -> Seq<char>
    decreases y,
{
    if y <= 0 {
        Seq::empty()
    } else {
        grid_text(cells, y - 1) + row_text(cells, y - 1, BOARD_SIZE as int) + seq!['\n']
    }
}

/// The text `cell_glyph` gives for `c`.
fn glyph(c: Cell) -> (r: &'static str)
    requires
        c is Occupied ==> c->Occupied_0 < 10,
    ensures
        r@ == cell_glyph(c),
{
    match c {
        Cell::Empty => {
            proof {
                reveal_strlit("-");
            }
            "-"
        },
        Cell::Miss => {
            proof {
                reveal_strlit("x");
            }
            "x"
        },
        Cell::Hit(_) => {
            proof {
                reveal_strlit("+");
            }
            "+"
        },
        Cell::Sunk(_) => {
            proof {
                reveal_strlit("D");
            }
            "D"
        },
        Cell::Occupied(i) => {
            proof {
                reveal_strlit("0");
                reveal_strlit("1");
                reveal_strlit("2");
                reveal_strlit("3");
                reveal_strlit("4");
                reveal_strlit("5");
                reveal_strlit("6");
                reveal_strlit("7");
                reveal_strlit("8");
                reveal_strlit("9");
            }
            if i == 0 {
                "0"
            } else if i == 1 {
                "1"
            } else if i == 2 {
                "2"
            } else if i == 3 {
                "3"
            } else if i == 4 {
                "4"
            } else if i == 5 {
                "5"
            } else if i == 6 {
                "6"
            } else if i == 7 {
                "7"
            } else if i == 8 {
                "8"
            } else {
                "9"
            }
        },
    }
}

impl Board {
    /// The grid drawn row by row, top row first.
    pub fn to_string(&self) -> (r: String)
        requires
            self.wf(),
        ensures
            r@ == grid_text(self.cells@, BOARD_SIZE as int),
    {
        let mut s = String::new();
        let mut y: u8 = 0;
        while y < BOARD_SIZE
            invariant
                self.wf(),
                y <= BOARD_SIZE,
                s@ == grid_text(self.cells@, y as int),
            decreases BOARD_SIZE - y,
        {
            let mut x: u8 = 0;
            while x < BOARD_SIZE
                invariant
                    self.wf(),
                    y < BOARD_SIZE,
                    x <= BOARD_SIZE,
                    s@ == grid_text(self.cells@, y as int) + row_text(self.cells@, y as int, x as int),
                decreases BOARD_SIZE - x,
            {
                let c = self.cells[index_of(x, y)];
                proof {
                    assert(in_grid(x as int, y as int));
                    assert(c == self.cell(x as int, y as int));
                    if c is Occupied {
                        assert(c->Occupied_0 < self.ships@.len());
                    }
                }
                s.append(glyph(c));
                proof {
                    assert(s@ =~= grid_text(self.cells@, y as int) + row_text(self.cells@, y as int, x + 1));
                }
                x = x + 1;
            }
            proof {
                reveal_strlit("\n");
            }
            s.append("\n");
            proof {
                assert(s@ =~= grid_text(self.cells@, y + 1));
            }
            y = y + 1;
        }
        s
    }
}

} // verus!
