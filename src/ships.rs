use vstd::prelude::*;

verus! {

/// Side length of the square grid every board uses.
pub const BOARD_SIZE: u8 = 10;

/// Most ships a fleet may hold.
pub const SHIPS_LIMIT: usize = 10;

/// A cell of the grid, column `x` and row `y`.
#[derive(Debug, Clone, Copy, PartialEq, Eq, Structural)]
pub struct Position {
    pub x: u8,
    pub y: u8,
}

/// The class of a ship; informational only, the length is `Ship::hp`.
#[derive(Debug, Clone, Copy, PartialEq, Eq, Structural)]
pub enum ShipType {
    Small,
    Medium,
    Large,
    Huge,
}

/// A ship anchored at `position` (its top-left cell), running down when
/// `is_vertical` and right otherwise, `hp` cells long.
#[derive(Debug, Clone, Copy, PartialEq, Eq, Structural)]
pub struct Ship {
    pub position: Position,
    pub is_vertical: bool,
    pub ship_type: ShipType,
    pub hp: u8,
}

/// A fleet, in placement order.
#[derive(Debug, Clone)]
pub struct Ships {
    pub ships: Vec<Ship>,
}

impl Default for Ships {
    fn default() -> (r: Self)
        ensures
            r.ships@.len() == 0,
    {
        Ships { ships: Vec::with_capacity(SHIPS_LIMIT) }
    }
}

/// `(x, y)` lies on the grid.
pub open spec fn in_grid(x: int, y: int) -> bool {
    0 <= x < BOARD_SIZE && 0 <= y < BOARD_SIZE
}

/// Index of the cell `(x, y)` in a row-major grid.
pub open spec fn cell_index(x: int, y: int) -> int {
    x + BOARD_SIZE * y
}

/// `(x, y)` is one of the first `t` cells of ship `s`.
pub open spec fn covers_prefix(s: Ship, x: int, y: int, t: int) -> bool {
    if s.is_vertical {
        x == s.position.x && s.position.y <= y < s.position.y + t
    } else {
        y == s.position.y && s.position.x <= x < s.position.x + t
    }
}

/// `(x, y)` is one of the cells ship `s` occupies.
pub open spec fn covers(s: Ship, x: int, y: int) -> bool {
    covers_prefix(s, x, y, s.hp as int)
}

/// The `t`-th cell of ship `s`, counted from its anchor.
pub open spec fn nth_cell(s: Ship, t: int) -> (int, int) {
    if s.is_vertical {
        (s.position.x as int, s.position.y + t)
    } else {
        (s.position.x + t, s.position.y as int)
    }
}

/// Ship `s` has at least one cell and all its cells lie on the grid.
pub open spec fn ship_in_bounds(s: Ship) -> bool {
    &&& s.hp >= 1
    &&& if s.is_vertical {
        s.position.x < BOARD_SIZE && s.position.y + s.hp <= BOARD_SIZE
    } else {
        s.position.y < BOARD_SIZE && s.position.x + s.hp <= BOARD_SIZE
    }
}

/// Ships `a` and `b` share a cell.
pub open spec fn ships_overlap(a: Ship, b: Ship) -> bool {
    exists|x: int, y: int| #[trigger] covers(a, x, y) && #[trigger] covers(b, x, y)
}

/// Ship `k` of `ships` is in bounds and shares no cell with an earlier one.
/// Ships may lie side by side: only a shared cell counts as an overlap.
pub open spec fn ship_fits(ships: Seq<Ship>, k: int) -> bool {
    &&& ship_in_bounds(ships[k])
    &&& forall|j: int| 0 <= j < k ==> !ships_overlap(#[trigger] ships[j], ships[k])
}

/// A fleet that can be placed on an empty board: between one and
/// `SHIPS_LIMIT` ships, each in bounds, no two sharing a cell (touching
/// ships are allowed).
pub open spec fn valid_fleet(ships: Seq<Ship>) -> bool {
    &&& 1 <= ships.len() <= SHIPS_LIMIT
    &&& forall|k: int| 0 <= k < ships.len() ==> ship_fits(ships, k)
}

impl Ship {
    /// Whether every cell of the ship lies on the grid.
    pub fn in_bounds(&self) -> (r: bool)
        ensures
            r == ship_in_bounds(*self),
    {
        let hp = self.hp as u16;
        if hp == 0 {
            false
        } else if self.is_vertical {
            self.position.x < BOARD_SIZE && self.position.y as u16 + hp <= BOARD_SIZE as u16
        } else {
            self.position.y < BOARD_SIZE && self.position.x as u16 + hp <= BOARD_SIZE as u16
        }
    }
}

} // verus!
