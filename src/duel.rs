//! The two-player game state: one board of cells per player, the ships on it,
//! whose turn it is and the phase of the game.
use vstd::prelude::*;
use vstd::string::StringExecFns;

verus! {

/// The kinds of ship of the standard fleet.
#[derive(Clone, Copy, Debug, PartialEq, Eq, Structural)]
pub enum ShipType {
    Carrier,
    Battleship,
    Cruiser,
    Submarine,
    Destroyer,
}

impl ShipType {
    pub open spec fn spec_len(self) -> u8 {
        match self {
            ShipType::Carrier => 5,
            ShipType::Battleship => 4,
            ShipType::Cruiser => 3,
            ShipType::Submarine => 3,
            ShipType::Destroyer => 2,
        }
    }

    /// Number of cells of a ship of this kind.
    pub fn len(&self) -> (n: u8)
        ensures
            n == self.spec_len(),
    {
        match self {
            ShipType::Carrier => 5,
            ShipType::Battleship => 4,
            ShipType::Cruiser => 3,
            ShipType::Submarine => 3,
            ShipType::Destroyer => 2,
        }
    }
}

/// A ship on a board: its kind, its cells, its length and the hits it took.
pub struct Ship {
    pub ship_type: ShipType,
    pub positions: Vec<(u8, u8)>,
    pub length: u8,
    pub hits: usize,
}

impl Ship {
    /// A ship of the given kind on the given cells, not hit yet.
    pub fn new(ship_type: ShipType, positions: Vec<(u8, u8)>) -> (s: Ship)
        ensures
            s.ship_type == ship_type,
            s.positions@ == positions@,
            s.length == ship_type.spec_len(),
            s.hits == 0,
    {
        let length = ship_type.len();
        Ship { ship_type, positions, length, hits: 0 }
    }
}

/// The phases of a game.
#[derive(Clone, Copy, Debug, PartialEq, Eq, Structural)]
pub enum Phase {
    Handshake,
    Placement,
    Playing,
    Finished,
}

/// The two players.
#[derive(Clone, Copy, Debug, PartialEq, Eq, Structural)]
pub enum PlayerId {
    One,
    Two,
}

/// What a cell of a board holds.
#[derive(Clone, Copy, Debug, PartialEq, Eq, Structural)]
pub enum Cell {
    Empty,
    /// Part of the ship with this index.
    Ship(u8),
    Hit,
    Miss,
    Sunk,
}

/// Which way a ship extends from its first cell.
#[derive(Clone, Copy, Debug, PartialEq, Eq, Structural)]
pub enum Orientation {
    Horizontal,
    Vertical,
}

/// A board of `width` by `height` cells, row by row, and the ships on it.
pub struct Board {
    pub width: u8,
    pub height: u8,
    pub cells: Vec<Cell>,
    pub ships: Vec<Ship>,
}

/// The index of the cell at column `x`, row `y`, when it is on the board.
pub open spec fn cell_at(width: u8, height: u8, x: int, y: int) -> Option<int> {
    if 0 <= x < width && 0 <= y < height {
        Some(y * width + x)
    } else {
        None
    }
}

/// The cells of a ship of `len` cells from `(x, y)` on.
pub open spec fn ship_cells(x: u8, y: u8, len: u8, ori: Orientation) -> Seq<(int, int)> {
    Seq::new(
        len as nat,
        |i: int|
            match ori {
                Orientation::Horizontal => (x + i, y as int),
                Orientation::Vertical => (x as int, y + i),
            },
    )
}

/// Whether the cell is on the board and holds nothing.
pub open spec fn free_cell(b: Board, p: (int, int)) -> bool {
    match cell_at(b.width, b.height, p.0, p.1) {
        Some(i) => b.cells@[i] == Cell::Empty,
        None => false,
    }
}

proof fn lemma_cell_in_range(width: u8, height: u8, x: int, y: int)
    requires
        0 <= x < width,
        0 <= y < height,
    ensures
        0 <= y * width + x < width * height,
{
    assert(0 <= y * width + x < width * height) by (nonlinear_arith)
        requires
            0 <= x < width,
            0 <= y < height,
    ;
}

impl Board {
    /// Cells match the size, ship cells name existing ships, and ships lie on the board.
    pub open spec fn wf(&self) -> bool {
        &&& self.cells@.len() == self.width * self.height
        &&& self.ships@.len() <= 256
        &&& forall|i: int|
            0 <= i < self.cells@.len() ==> match #[trigger] self.cells@[i] {
                Cell::Ship(id) => id < self.ships@.len(),
                _ => true,
            }
        &&& forall|k: int, p: int|
            0 <= k < self.ships@.len() && 0 <= p < self.ships@[k].positions@.len() ==> {
                let q = #[trigger] self.ships@[k].positions@[p];
                q.0 < self.width && q.1 < self.height
            }
    }

    /// A board of empty cells without ships.
    pub fn empty(width: u8, height: u8) -> (b: Board)
        ensures
            b.wf(),
            b.width == width,
            b.height == height,
            b.ships@.len() == 0,
            forall|i: int| 0 <= i < b.cells@.len() ==> #[trigger] b.cells@[i] == Cell::Empty,
    {
        assert((width as usize) * (height as usize) <= 65025) by (nonlinear_arith)
            requires
                width <= 255,
                height <= 255,
        ;
        let n = (width as usize) * (height as usize);
        let mut cells: Vec<Cell> = Vec::new();
        let mut i: usize = 0;
        while i < n
            invariant
                i <= n,
                cells@.len() == i,
                forall|k: int| 0 <= k < i ==> #[trigger] cells@[k] == Cell::Empty,
            decreases n - i,
        {
            cells.push(Cell::Empty);
            i = i + 1;
        }
        Board { width, height, cells, ships: Vec::new() }
    }

    /// The index of the cell at column `x`, row `y`.
    fn idx(&self, x: u8, y: u8) -> (r: Option<usize>)
        ensures
            r.is_some() == cell_at(self.width, self.height, x as int, y as int).is_some(),
            r.is_some() ==> cell_at(self.width, self.height, x as int, y as int) == Some(
                r.unwrap() as int,
            ),
            r.is_some() ==> r.unwrap() < self.width * self.height,
    {
        if x < self.width && y < self.height {
            proof {
                lemma_cell_in_range(self.width, self.height, x as int, y as int);
            }
            assert((y as usize) * (self.width as usize) <= 65025) by (nonlinear_arith)
                requires
                    y <= 255,
                    self.width <= 255,
            ;
            Some((y as usize) * (self.width as usize) + (x as usize))
        } else {
            None
        }
    }

    /// The index of the cell at column `x`, row `y`, when it is on the board.
    pub fn grid_index(&self, x: u8, y: u8) -> (r: Option<usize>)
        ensures
            r.is_some() == cell_at(self.width, self.height, x as int, y as int).is_some(),
            r.is_some() ==> cell_at(self.width, self.height, x as int, y as int) == Some(
                r.unwrap() as int,
            ),
            r.is_some() ==> r.unwrap() < self.width * self.height,
    {
        self.idx(x, y)
    }

    /// Whether the cell at column `x`, row `y` is on the board and was not attacked.
    pub fn is_unattacked(&self, x: u8, y: u8) -> (b: bool)
        requires
            self.wf(),
        ensures
            b == match cell_at(self.width, self.height, x as int, y as int) {
                Some(i) => match self.cells@[i] {
                    Cell::Empty | Cell::Ship(_) => true,
                    _ => false,
                },
                None => false,
            },
    {
        match self.idx(x, y) {
            Some(i) => match self.cells[i] {
                Cell::Empty | Cell::Ship(_) => true,
                _ => false,
            },
            None => false,
        }
    }

    /// Whether every ship took as many hits as it has cells.
    pub fn all_sunk(&self) -> (b: bool)
        ensures
            b == forall|k: int|
                0 <= k < self.ships@.len() ==> #[trigger] self.ships@[k].hits >= self.ships@[k].length,
    {
        let mut k: usize = 0;
        while k < self.ships.len()
            invariant
                k <= self.ships@.len(),
                forall|j: int| 0 <= j < k ==> #[trigger] self.ships@[j].hits >= self.ships@[j].length,
            decreases self.ships@.len() - k,
        {
            if self.ships[k].hits < self.ships[k].length as usize {
                return false;
            }
            k = k + 1;
        }
        true
    }

    /// Places a ship of `ship_type` from column `x`, row `y` on; fails with "Out of
    /// bounds" or "Overlap" at the first cell that leaves the board or is taken.
    pub fn place_ship(&mut self, ship_type: ShipType, x: u8, y: u8, ori: Orientation) -> (r: Result<
        (),
        String,
    >)
        requires
            old(self).wf(),
            old(self).ships@.len() < 256,
        ensures
            final(self).wf(),
            final(self).width == old(self).width,
            final(self).height == old(self).height,
            ({
                let cells = ship_cells(x, y, ship_type.spec_len(), ori);
                &&& (forall|i: int| 0 <= i < cells.len() ==> #[trigger] free_cell(*old(self), cells[i]))
                    ==> r.is_ok() && final(self).ships@.len() == old(self).ships@.len() + 1
                    && final(self).ships@.drop_last() == old(self).ships@
                    && final(self).ships@.last().ship_type == ship_type
                    && final(self).ships@.last().hits == 0
                    && final(self).ships@.last().length == ship_type.spec_len()
                    && final(self).ships@.last().positions@.len() == cells.len()
                    && (forall|i: int| 0 <= i < cells.len() ==> (#[trigger] final(self).ships@.last().positions@[i]).0 == cells[i].0
                        && final(self).ships@.last().positions@[i].1 == cells[i].1)
                    && (forall|j: int| 0 <= j < old(self).cells@.len() ==> #[trigger] final(self).cells@[j]
                        == if exists|i: int| 0 <= i < cells.len() && cell_at(old(self).width, old(self).height, cells[i].0, cells[i].1) == Some(j) {
                            Cell::Ship(old(self).ships@.len() as u8)
                        } else {
                            old(self).cells@[j]
                        })
                &&& forall|k: int|
                    0 <= k < cells.len() && !free_cell(*old(self), #[trigger] cells[k]) && (forall|i: int|
                        0 <= i < k ==> free_cell(*old(self), cells[i])) ==> r.is_err() && *final(self)
                        == *old(self) && r.unwrap_err()@ == if cell_at(
                        old(self).width,
                        old(self).height,
                        cells[k].0,
                        cells[k].1,
                    ).is_some() {
                        "Overlap"@
                    } else {
                        "Out of bounds"@
                    }
            }),
    {
        let ghost cells = ship_cells(x, y, ship_type.spec_len(), ori);
        let length = ship_type.len();
        let mut positions: Vec<(u8, u8)> = Vec::new();
        let mut i: u8 = 0;
        while i < length
            invariant
                i <= length,
                length == ship_type.spec_len(),
                cells == ship_cells(x, y, length, ori),
                self.wf(),
                *self == *old(self),
                old(self).ships@.len() < 256,
                positions@.len() == i,
                forall|k: int| 0 <= k < i ==> #[trigger] free_cell(*self, cells[k]),
                forall|k: int|
                    0 <= k < i ==> (#[trigger] positions@[k]).0 == cells[k].0 && positions@[k].1
                        == cells[k].1,
            decreases length - i,
        {
            let sx = match ori {
                Orientation::Horizontal => x as usize + i as usize,
                Orientation::Vertical => x as usize,
            };
            let sy = match ori {
                Orientation::Horizontal => y as usize,
                Orientation::Vertical => y as usize + i as usize,
            };
            assert(cells[i as int] == (sx as int, sy as int));
            if sx < self.width as usize && sy < self.height as usize {
                let idx = self.idx(sx as u8, sy as u8).unwrap();
                if self.cells[idx] != Cell::Empty {
                    assert(cell_at(self.width, self.height, sx as int, sy as int) == Some(idx as int));
                    assert(!free_cell(*old(self), cells[i as int]));
                    proof {
                        assert forall|k: int|
                            0 <= k < cells.len() && !free_cell(*old(self), #[trigger] cells[k])
                                && (forall|i2: int| 0 <= i2 < k ==> free_cell(*old(self), cells[i2]))
                                implies k == i by {
                            if k > i {
                                assert(free_cell(*old(self), cells[i as int]));
                            }
                        }
                    }
                    return Err(<String as StringExecFns>::from_str("Overlap"));
                }
                positions.push((sx as u8, sy as u8));
            } else {
                assert(!free_cell(*old(self), cells[i as int]));
                proof {
                    assert forall|k: int|
                        0 <= k < cells.len() && !free_cell(*old(self), #[trigger] cells[k])
                            && (forall|i2: int| 0 <= i2 < k ==> free_cell(*old(self), cells[i2]))
                            implies k == i by {
                        if k > i {
                            assert(free_cell(*old(self), cells[i as int]));
                        }
                    }
                }
                return Err(<String as StringExecFns>::from_str("Out of bounds"));
            }
            i = i + 1;
        }
        let ghost old_cells = self.cells@;
        let id = self.ships.len() as u8;
        proof {
            assert forall|q: int| 0 <= q < positions@.len() implies (#[trigger] positions@[q]).0
                < self.width && positions@[q].1 < self.height by {
                assert(free_cell(*self, cells[q]));
            }
            assert forall|j: int| 0 <= j < old_cells.len() implies #[trigger] self.cells@[j] == if exists|q: int|
                0 <= q < 0 && cell_at(self.width, self.height, cells[q].0, cells[q].1) == Some(j) {
                Cell::Ship(id)
            } else {
                old_cells[j]
            } by {}
        }
        let mut k: usize = 0;
        while k < positions.len()
            invariant
                k <= positions@.len(),
                positions@.len() == cells.len(),
                cells.len() == length,
                length == ship_type.spec_len(),
                self.width == old(self).width,
                self.height == old(self).height,
                self.ships@ == old(self).ships@,
                old(self).wf(),
                forall|j: int|
                    0 <= j < self.cells@.len() ==> match #[trigger] self.cells@[j] {
                        Cell::Ship(t) => t <= id,
                        _ => true,
                    },
                (forall|i2: int| 0 <= i2 < cells.len() ==> #[trigger] free_cell(*old(self), cells[i2])),
                old_cells == old(self).cells@,
                self.cells@.len() == old_cells.len(),
                self.cells@.len() == self.width * self.height,
                self.ships@.len() < 256,
                id == self.ships@.len(),
                forall|q: int|
                    0 <= q < positions@.len() ==> (#[trigger] positions@[q]).0 == cells[q].0
                        && positions@[q].1 == cells[q].1 && positions@[q].0 < self.width && positions@[q].1 < self.height,
                forall|j: int| 0 <= j < old_cells.len() ==> #[trigger] self.cells@[j]
                    == if exists|q: int| 0 <= q < k && cell_at(self.width, self.height, cells[q].0, cells[q].1) == Some(j) {
                        Cell::Ship(id)
                    } else {
                        old_cells[j]
                    },
            decreases positions@.len() - k,
        {
            let (px, py) = positions[k];
            assert(positions@[k as int].0 == cells[k as int].0);
            let idx = self.idx(px, py).unwrap();
            let ghost before = self.cells@;
            self.cells.set(idx, Cell::Ship(id));
            proof {
                assert(cell_at(self.width, self.height, cells[k as int].0, cells[k as int].1) == Some(
                    idx as int,
                ));
                assert forall|j: int| 0 <= j < old_cells.len() implies #[trigger] self.cells@[j]
                    == if exists|q: int|
                    0 <= q < k + 1 && cell_at(self.width, self.height, cells[q].0, cells[q].1) == Some(
                        j,
                    ) {
                    Cell::Ship(id)
                } else {
                    old_cells[j]
                } by {
                    if j != idx {
                        assert(self.cells@[j] == before[j]);
                        if exists|q: int|
                            0 <= q < k + 1 && cell_at(self.width, self.height, cells[q].0, cells[q].1)
                                == Some(j) {
                            let q = choose|q: int|
                                0 <= q < k + 1 && cell_at(self.width, self.height, cells[q].0, cells[q].1)
                                    == Some(j);
                            assert(q < k);
                        }
                    }
                }
            }
            k = k + 1;
        }
        let ship = Ship::new(ship_type, positions);
        self.ships.push(ship);
        Ok(())
    }
}

/// Whether `j` is the index of one of the cells of ship `id`.
pub open spec fn on_ship(b: Board, id: int, j: int) -> bool {
    exists|p: int|
        0 <= p < b.ships@[id].positions@.len() && cell_at(
            b.width,
            b.height,
            b.ships@[id].positions@[p].0 as int,
            b.ships@[id].positions@[p].1 as int,
        ) == Some(j)
}

/// How an attack at column `x`, row `y` changes a board, and what it reports: on a
/// ship cell, a hit (and, when the ship has taken as many hits as it has cells, its
/// sinking, every cell of it marked sunk); on another cell of the board, a miss;
/// off the board, nothing.
pub open spec fn attacked(before: Board, after: Board, x: u8, y: u8, r: (bool, Option<ShipType>)) -> bool {
    &&& after.width == before.width
    &&& after.height == before.height
    &&& match cell_at(before.width, before.height, x as int, y as int) {
        None => after == before && r == (false, None::<ShipType>),
        Some(i) => match before.cells@[i] {
            Cell::Ship(id) => {
                let s = before.ships@[id as int];
                let hits = if s.hits < usize::MAX { s.hits + 1 } else { s.hits as int };
                let sunk = hits >= s.length;
                &&& after.ships@.len() == before.ships@.len()
                &&& forall|k: int| 0 <= k < before.ships@.len() && k != id ==> #[trigger] after.ships@[k] == before.ships@[k]
                &&& after.ships@[id as int].hits == hits
                &&& after.ships@[id as int].positions@ == s.positions@
                &&& after.ships@[id as int].ship_type == s.ship_type
                &&& after.ships@[id as int].length == s.length
                &&& after.cells@.len() == before.cells@.len()
                &&& forall|j: int| 0 <= j < before.cells@.len() ==> #[trigger] after.cells@[j] == if sunk && on_ship(before, id as int, j) {
                    Cell::Sunk
                } else if j == i {
                    Cell::Hit
                } else {
                    before.cells@[j]
                }
                &&& r == (true, if sunk { Some(s.ship_type) } else { None::<ShipType> })
            },
            _ => after.cells@ == before.cells@.update(i, Cell::Miss) && after.ships@ == before.ships@
                && r == (false, None::<ShipType>),
        },
    }
}

/// Takes an attack at column `x`, row `y` on `board`.
fn strike(board: &mut Board, x: u8, y: u8) -> (r: (bool, Option<ShipType>))
    requires
        old(board).wf(),
    ensures
        final(board).wf(),
        attacked(*old(board), *final(board), x, y, r),
{
    let i = match board.grid_index(x, y) {
        Some(i) => i,
        None => return (false, None),
    };
    match board.cells[i] {
        Cell::Ship(id) => {
            let ghost before = *board;
            board.cells.set(i, Cell::Hit);
            let k = id as usize;
            let h = if board.ships[k].hits < usize::MAX {
                board.ships[k].hits + 1
            } else {
                board.ships[k].hits
            };
            board.ships[k].hits = h;
            if h >= board.ships[k].length as usize {
                let ship_type = board.ships[k].ship_type;
                let n = board.ships[k].positions.len();
                let mut p: usize = 0;
                while p < n
                    invariant
                        p <= n,
                        k < board.ships@.len(),
                        n == board.ships@[k as int].positions@.len(),
                        board.wf(),
                        board.width == before.width,
                        board.height == before.height,
                        board.ships@.len() == before.ships@.len(),
                        board.ships@[k as int].positions@ == before.ships@[k as int].positions@,
                        forall|q: int| 0 <= q < before.ships@.len() && q != k ==> #[trigger] board.ships@[q] == before.ships@[q],
                        board.ships@[k as int].hits == h,
                        board.ships@[k as int].ship_type == before.ships@[k as int].ship_type,
                        board.ships@[k as int].length == before.ships@[k as int].length,
                        board.cells@.len() == before.cells@.len(),
                        forall|j: int| 0 <= j < before.cells@.len() ==> #[trigger] board.cells@[j] == if exists|q: int|
                            0 <= q < p && cell_at(
                                before.width,
                                before.height,
                                before.ships@[k as int].positions@[q].0 as int,
                                before.ships@[k as int].positions@[q].1 as int,
                            ) == Some(j) {
                            Cell::Sunk
                        } else if j == i {
                            Cell::Hit
                        } else {
                            before.cells@[j]
                        },
                    decreases n - p,
                {
                    let (sx, sy) = board.ships[k].positions[p];
                    let j = board.grid_index(sx, sy).unwrap();
                    let ghost mid = board.cells@;
                    board.cells.set(j, Cell::Sunk);
                    proof {
                        assert forall|t: int| 0 <= t < before.cells@.len() implies #[trigger] board.cells@[t] == if exists|q: int|
                            0 <= q < p + 1 && cell_at(
                                before.width,
                                before.height,
                                before.ships@[k as int].positions@[q].0 as int,
                                before.ships@[k as int].positions@[q].1 as int,
                            ) == Some(t) {
                            Cell::Sunk
                        } else if t == i {
                            Cell::Hit
                        } else {
                            before.cells@[t]
                        } by {
                            if t != j {
                                assert(board.cells@[t] == mid[t]);
                                if exists|q: int|
                                    0 <= q < p + 1 && cell_at(
                                        before.width,
                                        before.height,
                                        before.ships@[k as int].positions@[q].0 as int,
                                        before.ships@[k as int].positions@[q].1 as int,
                                    ) == Some(t) {
                                    let q = choose|q: int|
                                        0 <= q < p + 1 && cell_at(
                                            before.width,
                                            before.height,
                                            before.ships@[k as int].positions@[q].0 as int,
                                            before.ships@[k as int].positions@[q].1 as int,
                                        ) == Some(t);
                                    assert(q < p);
                                }
                            }
                        }
                    }
                    p = p + 1;
                }
                return (true, Some(ship_type));
            }
            (true, None)
        },
        _ => {
            board.cells.set(i, Cell::Miss);
            (false, None)
        },
    }
}

/// The state of a game between two players.
pub struct GameState {
    pub board_p1: Board,
    pub board_p2: Board,
    pub turn: PlayerId,
    pub phase: Phase,
}

impl GameState {
    pub open spec fn wf(&self) -> bool {
        self.board_p1.wf() && self.board_p2.wf()
    }

    /// Two empty boards of the given size; player one to move; handshake first.
    pub fn new(width: u8, height: u8) -> (g: GameState)
        ensures
            g.wf(),
            g.board_p1.width == width && g.board_p1.height == height,
            g.board_p2.width == width && g.board_p2.height == height,
            g.board_p1.ships@.len() == 0 && g.board_p2.ships@.len() == 0,
            forall|i: int| 0 <= i < g.board_p1.cells@.len() ==> #[trigger] g.board_p1.cells@[i] == Cell::Empty,
            forall|i: int| 0 <= i < g.board_p2.cells@.len() ==> #[trigger] g.board_p2.cells@[i] == Cell::Empty,
            g.turn == PlayerId::One,
            g.phase == Phase::Handshake,
    {
        GameState {
            board_p1: Board::empty(width, height),
            board_p2: Board::empty(width, height),
            turn: PlayerId::One,
            phase: Phase::Handshake,
        }
    }

    /// Takes an attack by `attacker` at column `x`, row `y` on the other player's
    /// board: whether it hit, and the kind of ship it sank, if any.
    pub fn receive_attack(&mut self, attacker: PlayerId, x: u8, y: u8) -> (r: (bool, Option<ShipType>))
        requires
            old(self).wf(),
        ensures
            final(self).wf(),
            final(self).turn == old(self).turn,
            final(self).phase == old(self).phase,
            attacker == PlayerId::One ==> final(self).board_p1 == old(self).board_p1 && attacked(
                old(self).board_p2,
                final(self).board_p2,
                x,
                y,
                r,
            ),
            attacker == PlayerId::Two ==> final(self).board_p2 == old(self).board_p2 && attacked(
                old(self).board_p1,
                final(self).board_p1,
                x,
                y,
                r,
            ),
    {
        match attacker {
            PlayerId::One => strike(&mut self.board_p2, x, y),
            PlayerId::Two => strike(&mut self.board_p1, x, y),
        }
    }

    /// Takes an attack, then hands the turn to the other player.
    pub fn apply_attack(&mut self, attacker: PlayerId, x: u8, y: u8)
        requires
            old(self).wf(),
        ensures
            final(self).wf(),
            final(self).turn == match attacker {
                PlayerId::One => PlayerId::Two,
                PlayerId::Two => PlayerId::One,
            },
            final(self).phase == old(self).phase,
            attacker == PlayerId::One ==> exists|r: (bool, Option<ShipType>)|
                #[trigger] attacked(old(self).board_p2, final(self).board_p2, x, y, r),
            attacker == PlayerId::Two ==> exists|r: (bool, Option<ShipType>)|
                #[trigger] attacked(old(self).board_p1, final(self).board_p1, x, y, r),
            attacker == PlayerId::One ==> final(self).board_p1 == old(self).board_p1,
            attacker == PlayerId::Two ==> final(self).board_p2 == old(self).board_p2,
    {
        let r = self.receive_attack(attacker, x, y);
        self.turn = match attacker {
            PlayerId::One => PlayerId::Two,
            PlayerId::Two => PlayerId::One,
        };
        proof {
            if attacker == PlayerId::One {
                assert(attacked(old(self).board_p2, self.board_p2, x, y, r));
            } else {
                assert(attacked(old(self).board_p1, self.board_p1, x, y, r));
            }
        }
    }

    /// Whether `attacker` may attack column `x`, row `y` of the other board: it is on
    /// the board and was not attacked yet.
    pub fn is_valid_attack(&self, attacker: PlayerId, x: u8, y: u8) -> (b: bool)
        requires
            self.wf(),
        ensures
            b == {
                let t = match attacker {
                    PlayerId::One => self.board_p2,
                    PlayerId::Two => self.board_p1,
                };
                match cell_at(t.width, t.height, x as int, y as int) {
                    Some(i) => match t.cells@[i] {
                        Cell::Empty | Cell::Ship(_) => true,
                        _ => false,
                    },
                    None => false,
                }
            },
    {
        match attacker {
            PlayerId::One => self.board_p2.is_unattacked(x, y),
            PlayerId::Two => self.board_p1.is_unattacked(x, y),
        }
    }

    /// Whether every ship of one of the players is sunk.
    pub fn is_game_over(&self) -> (b: bool)
        ensures
            b == ((forall|k: int|
                0 <= k < self.board_p1.ships@.len() ==> #[trigger] self.board_p1.ships@[k].hits
                    >= self.board_p1.ships@[k].length) || (forall|k: int|
                0 <= k < self.board_p2.ships@.len() ==> #[trigger] self.board_p2.ships@[k].hits
                    >= self.board_p2.ships@[k].length)),
    {
        self.board_p1.all_sunk() || self.board_p2.all_sunk()
    }
}

/// Where one ship of a layout goes.
pub struct ShipPlacement {
    pub ship_type: ShipType,
    pub x: u8,
    pub y: u8,
    pub orientation: Orientation,
}

/// The ships of one player, where they go.
pub struct ShipLayout {
    pub ships: Vec<ShipPlacement>,
}

impl ShipLayout {
    /// Places the ships of the layout on player one's board, in order; stops at the
    /// first placement that fails and reports why.
    pub fn apply(&self, gs: &mut GameState) -> (r: Result<(), String>)
        requires
            old(gs).wf(),
            old(gs).board_p1.ships@.len() + self.ships@.len() < 256,
        ensures
            final(gs).wf(),
            final(gs).board_p2 == old(gs).board_p2,
            final(gs).turn == old(gs).turn,
            final(gs).phase == old(gs).phase,
            r.is_ok() ==> final(gs).board_p1.ships@.len() == old(gs).board_p1.ships@.len()
                + self.ships@.len(),
    {
        let mut k: usize = 0;
        while k < self.ships.len()
            invariant
                k <= self.ships@.len(),
                gs.wf(),
                gs.board_p2 == old(gs).board_p2,
                gs.turn == old(gs).turn,
                gs.phase == old(gs).phase,
                gs.board_p1.ships@.len() == old(gs).board_p1.ships@.len() + k,
                old(gs).board_p1.ships@.len() + self.ships@.len() < 256,
            decreases self.ships@.len() - k,
        {
            let sp = &self.ships[k];
            let ghost before = gs.board_p1;
            match gs.board_p1.place_ship(sp.ship_type, sp.x, sp.y, sp.orientation) {
                Ok(()) => {
                    proof {
                        let cells = ship_cells(sp.x, sp.y, sp.ship_type.spec_len(), sp.orientation);
                        if !(forall|i: int| 0 <= i < cells.len() ==> #[trigger] free_cell(before, cells[i])) {
                            let q = choose|q: int| 0 <= q < cells.len() && !free_cell(before, #[trigger] cells[q]);
                            lemma_first_bad(before, cells, q);
                        }
                    }
                },
                Err(e) => return Err(e),
            }
            k = k + 1;
        }
        Ok(())
    }
}

/// A cell that is not free has a first such cell before or at it.
pub proof fn lemma_first_bad(b: Board, cells: Seq<(int, int)>, q: int)
    requires
        0 <= q < cells.len(),
        !free_cell(b, cells[q]),
    ensures
        exists|k: int|
            0 <= k < cells.len() && !free_cell(b, #[trigger] cells[k]) && (forall|i: int|
                0 <= i < k ==> free_cell(b, cells[i])),
    decreases q,
{
    if exists|i: int| 0 <= i < q && !free_cell(b, cells[i]) {
        let i = choose|i: int| 0 <= i < q && !free_cell(b, cells[i]);
        lemma_first_bad(b, cells, i);
    } else {
        assert(!free_cell(b, cells[q]) && forall|i: int| 0 <= i < q ==> free_cell(b, cells[i]));
    }
}

/// A stub of a probability engine for boards of the given size.
pub struct ProbabilityEngine {
    pub width: usize,
    pub height: usize,
}

impl ProbabilityEngine {
    pub fn new(width: usize, height: usize) -> (e: ProbabilityEngine)
        ensures
            e.width == width,
            e.height == height,
    {
        ProbabilityEngine { width, height }
    }
}

/// A move: a column and a row.
pub struct Move {
    pub x: usize,
    pub y: usize,
}

/// What two players send each other.
pub enum Message {
    Handshake { player: PlayerId },
    StateSync(GameState),
    Attack { x: u8, y: u8 },
    AttackResult { hit: bool, sunk: Option<ShipType> },
    SaveRequest,
    LoadRequest,
}

/// A message with its sequence number and the number it acknowledges.
pub struct Envelope {
    pub seq: u64,
    pub ack: Option<u64>,
    pub payload: Message,
}

} // verus!
